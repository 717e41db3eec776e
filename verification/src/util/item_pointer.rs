use vstd::prelude::*;

verus! {

/// The block number that addresses no block.
pub const INVALID_BLOCK_NUMBER: u32 = 0xFFFF_FFFF;

/// The line-pointer offset that addresses no item.
pub const INVALID_OFFSET_NUMBER: u16 = 0;

/// The address of an item: a block of a relation and a line pointer in it.
#[derive(Clone, Copy, Debug, PartialEq, Eq, Structural)]
pub struct ItemPointer {
    pub block_number: u32,
    pub offset: u16,
}

/// The address of an item in an index.
pub type IndexPointer = ItemPointer;

/// The address of a row in the heap.
pub type HeapPointer = ItemPointer;

/// The pointer that addresses no item.
pub open spec fn invalid_pointer() -> ItemPointer {
    ItemPointer { block_number: INVALID_BLOCK_NUMBER, offset: INVALID_OFFSET_NUMBER }
}

impl ItemPointer {
    /// Whether the pointer addresses an item.
    pub open spec fn valid(self) -> bool {
        self.block_number != INVALID_BLOCK_NUMBER && self.offset != INVALID_OFFSET_NUMBER
    }

    /// The pointer to line `offset` of block `block_number`.
    pub fn new(block_number: u32, offset: u16) -> (p: ItemPointer)
        ensures
            p == (ItemPointer { block_number, offset }),
    {
        ItemPointer { block_number, offset }
    }

    /// The pointer that addresses no item.
    pub fn new_invalid() -> (p: ItemPointer)
        ensures
            p == invalid_pointer(),
            !p.valid(),
    {
        ItemPointer { block_number: INVALID_BLOCK_NUMBER, offset: INVALID_OFFSET_NUMBER }
    }

    /// Whether the pointer addresses an item.
    pub fn is_valid(&self) -> (r: bool)
        ensures
            r == self.valid(),
    {
        self.block_number != INVALID_BLOCK_NUMBER && self.offset != INVALID_OFFSET_NUMBER
    }
}

/// An address is valid exactly if it has a block and a place in it; the invalid one
/// has neither.
pub proof fn law_valid_addresses_have_block_and_place(p: ItemPointer)
    ensures
        p.valid() <==> p.block_number != 0xFFFF_FFFF && p.offset != 0,
        invalid_pointer().block_number == 0xFFFF_FFFF,
        invalid_pointer().offset == 0,
{
}

} // verus!
