//! The list directory: metadata of each inverted list.
use crate::util::item_pointer;
use crate::util::item_pointer::ItemPointer;
use vstd::prelude::*;

verus! {

/// The block of the list directory.
pub const LIST_DIRECTORY_BLOCK_NUMBER: u32 = 1;

/// The line pointer of the list directory.
pub const LIST_DIRECTORY_OFFSET: u16 = 1;

/// Metadata for a single inverted list.
#[derive(Clone, Copy, Debug, PartialEq, Eq, Structural)]
pub struct IvfListMetadata {
    /// Pointer to this list's header page (atomic publication target).
    pub header: ItemPointer,
    /// Offset into the centroids page of this list's centroid.
    pub centroid_offset: u32,
    /// Number of tuples in this list.
    pub num_tuples: u64,
}

/// The metadata of a list that was just created.
pub open spec fn new_list(centroid_offset: u32) -> IvfListMetadata {
    IvfListMetadata { header: item_pointer::invalid_pointer(), centroid_offset, num_tuples: 0 }
}

impl IvfListMetadata {
    /// Create new list metadata with default values.
    pub fn new(centroid_offset: u32) -> (m: IvfListMetadata)
        ensures
            m == new_list(centroid_offset),
    {
        IvfListMetadata { header: ItemPointer::new_invalid(), centroid_offset, num_tuples: 0 }
    }

    /// Check if this list has no entries.
    pub fn is_empty(&self) -> (r: bool)
        ensures
            r == (self.num_tuples == 0),
    {
        self.num_tuples == 0
    }
}

/// Metadata for all inverted lists.
#[derive(Debug, PartialEq)]
pub struct IvfListDirectory {
    pub lists: Vec<IvfListMetadata>,
}

impl IvfListDirectory {
    /// Create a new list directory with the specified number of lists.
    pub fn new(num_lists: u16) -> (d: IvfListDirectory)
        ensures
            d.lists@ == Seq::new(num_lists as nat, |i: int| new_list(i as u32)),
    {
        let mut lists: Vec<IvfListMetadata> = Vec::new();
        let mut i: u16 = 0;
        while i < num_lists
            invariant
                i <= num_lists,
                lists@.len() == i,
                forall|k: int| 0 <= k < i ==> #[trigger] lists@[k] == new_list(k as u32),
            decreases num_lists - i,
        {
            lists.push(IvfListMetadata::new(i as u32));
            i = i + 1;
        }
        assert(lists@ =~= Seq::new(num_lists as nat, |i: int| new_list(i as u32)));
        IvfListDirectory { lists }
    }

    /// Get the number of lists.
    pub fn num_lists(&self) -> (n: usize)
        ensures
            n == self.lists@.len(),
    {
        self.lists.len()
    }

    /// Get metadata for a specific list.
    pub fn get_list(&self, list_id: u16) -> (r: Option<&IvfListMetadata>)
        ensures
            r is Some <==> list_id < self.lists@.len(),
            r is Some ==> *r->0 == self.lists@[list_id as int],
    {
        if (list_id as usize) < self.lists.len() {
            Some(&self.lists[list_id as usize])
        } else {
            None
        }
    }

    /// Get mutable metadata for a specific list.
    pub fn get_list_mut(&mut self, list_id: u16) -> (r: Option<&mut IvfListMetadata>)
        ensures
            r is Some <==> list_id < old(self).lists@.len(),
            r is Some ==> *r->0 == old(self).lists@[list_id as int] && final(self).lists@ == old(
                self,
            ).lists@.update(list_id as int, *final(r->0)),
            r is None ==> *final(self) == *old(self),
    {
        if (list_id as usize) < self.lists.len() {
            Some(&mut self.lists[list_id as usize])
        } else {
            None
        }
    }
}

} // verus!
