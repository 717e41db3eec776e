//! Memory of a graph that is being built.
use crate::hnswsq::types;
use crate::hnswsq::types::Element;
use vstd::prelude::*;

verus! {

/// The largest allocation in the shared area.
pub const MAX_SHARED_ALLOCATION: usize = 1048576;

/// `size` rounded up to the platform's alignment of eight bytes.
pub open spec fn aligned(size: int) -> int {
    (size + 7) / 8 * 8
}

/// `size` rounded up to the platform's alignment.
pub fn max_align(size: usize) -> (r: usize)
    requires
        size <= usize::MAX - 7,
    ensures
        r == aligned(size as int),
{
    (size + 7) / 8 * 8
}

/// Where the memory comes from.
#[derive(Clone, Copy, Debug, PartialEq, Eq, Structural)]
pub enum Regime {
    /// Memory of the backend, which is counted.
    Private,
    /// The shared area, of limited size.
    Shared,
    /// Memory that is not counted.
    Uncounted,
}

/// Why an allocation failed.
#[derive(Clone, Copy, Debug, PartialEq, Eq, Structural)]
pub enum AllocationError {
    TooLarge,
    OutOfMemory,
}

/// The memory that a graph uses.
#[derive(Clone, Copy, Debug, PartialEq, Eq, Structural)]
pub struct GraphMemory {
    pub used: usize,
    pub total: usize,
}

impl GraphMemory {
    /// Account for an allocation of `size` bytes; in the shared area the
    /// result is where it starts.
    pub fn allocate(&mut self, regime: Regime, size: usize) -> (r: Result<usize, AllocationError>)
        requires
            size <= usize::MAX - 7,
            old(self).used + aligned(size as int) <= usize::MAX,
        ensures
            final(self).total == old(self).total,
            r == match regime {
                Regime::Private | Regime::Uncounted => Ok::<usize, AllocationError>(
                    old(self).used,
                ),
                Regime::Shared => if aligned(size as int) > MAX_SHARED_ALLOCATION {
                    Err(AllocationError::TooLarge)
                } else if old(self).used + aligned(size as int) > old(self).total {
                    Err(AllocationError::OutOfMemory)
                } else {
                    Ok(old(self).used)
                },
            },
            final(self).used == if r is Err || regime == Regime::Uncounted {
                old(self).used as int
            } else {
                old(self).used + aligned(size as int)
            },
    {
        let at: usize = self.used;
        let bytes: usize = max_align(size);
        match regime {
            Regime::Private => {
                self.used = at + bytes;
                Ok(at)
            },
            Regime::Shared => {
                if bytes > MAX_SHARED_ALLOCATION {
                    return Err(AllocationError::TooLarge);
                }
                let new_used: usize = at + bytes;
                if new_used > self.total {
                    return Err(AllocationError::OutOfMemory);
                }
                self.used = new_used;
                Ok(at)
            },
            Regime::Uncounted => Ok(at),
        }
    }
}

/// Two allocations of the shared area, one made after the other, do not
/// overlap, and both lie within the area.
pub proof fn law_shared_allocations_are_apart(used: int, total: int, first: int, second: int)
    requires
        0 <= used,
        0 <= first,
        0 <= second,
        used + aligned(first) + aligned(second) <= total,
    ensures
        used + first <= used + aligned(first),
        (used + aligned(first)) + second <= total,
{
}

/// How many elements an arena keeps room for when it is rewound.
pub const ELEMENT_ARENA_CHUNK: usize = 512;

/// The elements that a search loads. They are named by their places, which
/// stay as they are until the arena is cleared or rewound.
#[derive(Debug)]
pub struct ElementArena {
    pub elements: Vec<Element>,
}

impl ElementArena {
    /// An empty arena.
    pub fn new() -> (a: ElementArena)
        ensures
            a.elements@.len() == 0,
    {
        ElementArena { elements: Vec::new() }
    }

    /// Add an element that stands for what is stored at the given address;
    /// returns its place.
    pub fn allocate(&mut self, blkno: u32, offno: u16) -> (place: usize)
        ensures
            place == old(self).elements@.len(),
            final(self).elements@.len() == place + 1,
            final(self).elements@.take(place as int) == old(self).elements@,
            types::is_unloaded(final(self).elements@[place as int], blkno, offno),
    {
        let place: usize = self.elements.len();
        self.elements.push(types::init_element_from_block(blkno, offno));
        assert(self.elements@.take(place as int) =~= old(self).elements@);
        place
    }

    /// How many elements there are.
    pub fn len(&self) -> (n: usize)
        ensures
            n == self.elements@.len(),
    {
        self.elements.len()
    }

    /// Drop all elements and the memory.
    pub fn clear(&mut self)
        ensures
            final(self).elements@.len() == 0,
    {
        self.elements = Vec::new();
    }

    /// Drop all elements, and keep the memory for the next ones.
    pub fn reset(&mut self)
        ensures
            final(self).elements@.len() == 0,
    {
        self.elements.clear();
    }
}

/// An aligned size is the least multiple of eight that holds it.
pub proof fn law_aligned_is_the_least_that_holds(size: int, other: int)
    requires
        0 <= size,
    ensures
        size <= aligned(size),
        aligned(size) % 8 == 0,
        other % 8 == 0 && size <= other ==> aligned(size) <= other,
{
}

} // verus!
