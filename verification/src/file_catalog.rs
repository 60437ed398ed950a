//! The local file catalog: a mapping from file id to descriptor.  Writes are
//! unique on the id; re-saving an existing id is rejected.

use vstd::prelude::*;

use crate::repository::equal_strings;

verus! {

/// One locally stored file: id, format (extension), path and save time.
#[derive(Debug, Clone)]
pub struct FileDescription {
    pub id: String,
    pub format: String,
    pub local_path: String,
    pub timestamp: i64,
}

/// Mathematical content of a file descriptor.
pub struct FileDescriptionView {
    pub id: Seq<char>,
    pub format: Seq<char>,
    pub local_path: Seq<char>,
    pub timestamp: i64,
}

impl View for FileDescription {
    type V = FileDescriptionView;

    open spec fn view(&self) -> FileDescriptionView {
        FileDescriptionView {
            id: self.id@,
            format: self.format@,
            local_path: self.local_path@,
            timestamp: self.timestamp,
        }
    }
}

impl FileDescription {
    /// A copy of the descriptor with the same content.
    pub fn duplicate(&self) -> (r: FileDescription)
        ensures
            r@ == self@,
    {
        FileDescription {
            id: self.id.clone(),
            format: self.format.clone(),
            local_path: self.local_path.clone(),
            timestamp: self.timestamp,
        }
    }
}

/// The catalog of locally stored files, keyed by file id.
pub struct FileCatalog {
    files: Vec<FileDescription>,
}

impl FileCatalog {
    /// The stored descriptors, in save order.
    pub closed spec fn files_spec(&self) -> Seq<FileDescriptionView> {
        Seq::new(self.files@.len(), |i: int| self.files@[i]@)
    }

    /// Whether a descriptor for `id` is stored.
    pub open spec fn has_file(&self, id: Seq<char>) -> bool {
        exists|i: int|
            0 <= i < self.files_spec().len() && (#[trigger] self.files_spec()[i]).id == id
    }

    /// The index of the descriptor for `id` (meaningful when `has_file`).
    pub open spec fn file_index(&self, id: Seq<char>) -> int {
        choose|i: int|
            0 <= i < self.files_spec().len() && (#[trigger] self.files_spec()[i]).id == id
    }

    /// The stored descriptor for `id` (meaningful when `has_file`).
    pub open spec fn descriptor_of(&self, id: Seq<char>) -> FileDescriptionView {
        self.files_spec()[self.file_index(id)]
    }

    /// No two stored descriptors share an id.
    pub open spec fn wf(&self) -> bool {
        forall|i: int, j: int|
            #![trigger self.files_spec()[i], self.files_spec()[j]]
            0 <= i < j < self.files_spec().len() ==> self.files_spec()[i].id
                != self.files_spec()[j].id
    }

    /// An empty catalog.
    pub fn new() -> (r: FileCatalog)
        ensures
            r.wf(),
            r.files_spec() == Seq::<FileDescriptionView>::empty(),
    {
        let r = FileCatalog { files: Vec::new() };
        proof {
            assert(r.files_spec() =~= Seq::<FileDescriptionView>::empty());
        }
        r
    }

    /// The index of the descriptor for `id`, if one is stored.
    fn find(&self, id: &String) -> (r: Option<usize>)
        requires
            self.wf(),
        ensures
            (r matches Some(i) ==> self.has_file(id@) && i == self.file_index(id@)
                && i < self.files_spec().len()),
            (r is None ==> !self.has_file(id@)),
    {
        let mut i: usize = 0;
        while i < self.files.len()
            invariant
                self.wf(),
                i <= self.files_spec().len(),
                forall|j: int| 0 <= j < i ==> (#[trigger] self.files_spec()[j]).id != id@,
            decreases self.files_spec().len() - i,
        {
            if equal_strings(&self.files[i].id, id) {
                proof {
                    assert(self.files_spec()[i as int].id == id@);
                    let w = self.file_index(id@);
                    if w != i as int {
                        assert(self.files_spec()[w].id == id@);
                    }
                }
                return Some(i);
            }
            proof {
                assert(self.files_spec()[i as int].id != id@);
            }
            i = i + 1;
        }
        proof {
            if self.has_file(id@) {
                let w = self.file_index(id@);
                assert(self.files_spec()[w].id == id@);
            }
        }
        None
    }

    /// Stores a new descriptor.  A second save under an already stored id is
    /// rejected and changes nothing.
    pub fn save(&mut self, descr: FileDescription) -> (r: bool)
        requires
            old(self).wf(),
        ensures
            final(self).wf(),
            (r ==> !old(self).has_file(descr@.id) && final(self).files_spec() == old(
                self,
            ).files_spec().push(descr@)),
            (!r ==> old(self).has_file(descr@.id) && final(self).files_spec() == old(
                self,
            ).files_spec()),
    {
        match self.find(&descr.id) {
            Some(_) => false,
            None => {
                let ghost pre = self.files_spec();
                let ghost dv = descr@;
                self.files.push(descr);
                proof {
                    assert(self.files_spec() =~= pre.push(dv));
                    assert forall|i: int, j: int|
                        #![trigger self.files_spec()[i], self.files_spec()[j]]
                        0 <= i < j < self.files_spec().len() implies self.files_spec()[i].id
                        != self.files_spec()[j].id by {
                        if j < pre.len() {
                            assert(pre[i].id != pre[j].id);
                        } else {
                            assert(!old(self).has_file(dv.id));
                            assert(pre[i].id != dv.id);
                        }
                    }
                }
                true
            },
        }
    }

    /// The descriptor stored for `id`, if any.
    pub fn get_by_id(&self, id: &String) -> (r: Option<FileDescription>)
        requires
            self.wf(),
        ensures
            (r matches Some(d) ==> self.has_file(id@) && d@ == self.descriptor_of(id@)),
            (r is None ==> !self.has_file(id@)),
    {
        match self.find(id) {
            Some(i) => Some(self.files[i].duplicate()),
            None => None,
        }
    }

    /// Whether a descriptor for `id` is stored.
    pub fn contains(&self, id: &String) -> (r: bool)
        requires
            self.wf(),
        ensures
            r == self.has_file(id@),
    {
        match self.find(id) {
            Some(_) => true,
            None => false,
        }
    }

    /// The ids of all stored files, in save order.
    pub fn all_file_ids(&self) -> (r: Vec<String>)
        requires
            self.wf(),
        ensures
            r@.len() == self.files_spec().len(),
            forall|i: int| 0 <= i < r@.len() ==> (#[trigger] r@[i]@) == self.files_spec()[i].id,
    {
        let mut r: Vec<String> = Vec::new();
        let mut i: usize = 0;
        while i < self.files.len()
            invariant
                i <= self.files_spec().len(),
                r@.len() == i,
                forall|j: int| 0 <= j < i ==> (#[trigger] r@[j]@) == self.files_spec()[j].id,
            decreases self.files_spec().len() - i,
        {
            r.push(self.files[i].id.clone());
            i = i + 1;
        }
        r
    }
}

} // verus!
