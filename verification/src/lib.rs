//! Core of a peer-to-peer chat and file-sharing node.
//!
//! Each node owns an Ed25519 identity, keeps an append-only log of messages
//! per authoring peer, and converges pairs of nodes toward identical views of
//! every peer's log.  The modules here hold the verified data model, the wire
//! codec, the replication and file-transfer decision logic, and the
//! connection-layer framing; transport and persistence live outside.

use vstd::prelude::*;

pub mod models;
pub mod repository;
pub mod repository_manager;
pub mod wire;
pub mod codec;
pub mod crypto;
pub mod file_catalog;
pub mod peers;
pub mod sync_engine;
pub mod handshake;
pub mod frames;
pub mod stream_protocol;
pub mod discovery;
pub mod resolver;
pub mod indexer;
pub mod pool;

verus! {

/// Errors surfaced to callers of the node's public API.
#[derive(Debug)]
pub enum ChatError {
    FailedToCreateNew(String),
    FailedToDecodeTxtRecord,
    FailedToConnect,
    FailedToSend,
    FailedToDownload(String),
}

impl ChatError {
    /// Construction failure carrying the underlying reason.
    pub fn create_new_error(reason: String) -> (r: ChatError)
        ensures
            r is FailedToCreateNew,
            r->FailedToCreateNew_0 == reason,
    {
        ChatError::FailedToCreateNew(reason)
    }

    /// Download failure carrying the underlying reason.
    pub fn failed_to_download(reason: String) -> (r: ChatError)
        ensures
            r is FailedToDownload,
            r->FailedToDownload_0 == reason,
    {
        ChatError::FailedToDownload(reason)
    }
}

} // verus!
