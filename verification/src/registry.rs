//! The file registry: a bidirectional map between canonical file paths and
//! dense integer file ids.

use vstd::prelude::*;

verus! {

/// The registry cannot hold more than `u32::MAX` distinct files.
#[derive(Debug, PartialEq, Eq, Structural)]
pub enum RegistryError {
    Exhausted,
}

/// Maps each registered path to a dense, zero-based id, assigned once and
/// never reused; the id indexes `index_to_name`.  The reverse mapping is the
/// position of a name in that list, which `register_file` keeps free of
/// duplicates.
pub struct FileId {
    pub num_files: u32,
    pub index_to_name: Vec<String>,
}

impl FileId {
    /// The registered paths, in id order.
    pub open spec fn names(&self) -> Seq<Seq<char>> {
        self.index_to_name@.map_values(|s: String| s@)
    }

    /// Consistency: the count matches the list and no path occurs twice.
    pub open spec fn wf(&self) -> bool {
        &&& self.num_files == self.names().len()
        &&& forall|i: int, j: int|
            0 <= i < j < self.names().len() ==> self.names()[i] != self.names()[j]
    }

    /// An empty registry.
    pub fn new() -> (r: FileId)
        ensures
            r.wf(),
            r.names().len() == 0,
    {
        let r = FileId { num_files: 0, index_to_name: Vec::new() };
        proof {
            assert(r.names() =~= Seq::<Seq<char>>::empty());
        }
        r
    }

    /// Register a path.  A path seen before keeps its id and yields `None`;
    /// a new one is appended under the next id, which is returned; a full
    /// registry reports exhaustion.
    pub fn register_file(&mut self, file_name: &str) -> (r: Result<Option<u32>, RegistryError>)
        requires
            old(self).wf(),
        ensures
            final(self).wf(),
            (exists|i: int| 0 <= i < old(self).names().len() && old(self).names()[i] == file_name@)
                ==> (r == Ok::<Option<u32>, RegistryError>(None::<u32>) && *final(self) == *old(
                self,
            )),
            (!(exists|i: int|
                0 <= i < old(self).names().len() && old(self).names()[i] == file_name@) && old(
                self,
            ).names().len() == u32::MAX) ==> (r == Err::<Option<u32>, RegistryError>(
                RegistryError::Exhausted,
            ) && *final(self) == *old(self)),
            (!(exists|i: int|
                0 <= i < old(self).names().len() && old(self).names()[i] == file_name@) && old(
                self,
            ).names().len() < u32::MAX) ==> (r == Ok::<Option<u32>, RegistryError>(
                Some(old(self).num_files),
            ) && final(self).names() == old(self).names().push(file_name@) && final(self).num_files
                == old(self).num_files + 1),
    {
        let ghost ns = self.names();
        let name: String = file_name.to_owned();
        let mut j: usize = 0;
        while j < self.index_to_name.len()
            invariant
                self == old(self),
                old(self).wf(),
                ns == self.names(),
                name@ == file_name@,
                0 <= j <= ns.len(),
                forall|i: int| 0 <= i < j ==> ns[i] != file_name@,
            decreases ns.len() - j,
        {
            if self.index_to_name[j] == name {
                proof {
                    assert(ns[j as int] == file_name@);
                }
                return Ok(None);
            }
            j += 1;
        }
        if self.num_files == u32::MAX {
            return Err(RegistryError::Exhausted);
        }
        let num = self.num_files;
        self.index_to_name.push(name);
        self.num_files = self.num_files + 1;
        proof {
            assert(self.names() =~= ns.push(file_name@));
        }
        Ok(Some(num))
    }

    /// The path registered under an id.
    pub fn id_to_name(&self, index: u32) -> (r: String)
        requires
            self.wf(),
            index < self.names().len(),
        ensures
            r@ == self.names()[index as int],
    {
        self.index_to_name[index as usize].clone()
    }

    /// How many files are registered.
    pub fn number_files(&self) -> (r: u32)
        requires
            self.wf(),
        ensures
            r == self.names().len(),
    {
        self.num_files
    }
}

} // verus!
