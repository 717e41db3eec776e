//! Elements, candidates and the visited set of an HNSW graph.
use crate::util::item_pointer;
use crate::util::item_pointer::ItemPointer;
use std::collections::HashSet;
use vstd::prelude::*;

verus! {

/// The key of an item's address: different addresses have different keys.
pub open spec fn tid_key(tid: ItemPointer) -> int {
    tid.block_number * 0x1_0000 + tid.offset
}

/// The key of an item's address.
pub fn pack_tid(tid: ItemPointer) -> (key: u64)
    ensures
        key == tid_key(tid),
{
    tid.block_number as u64 * 0x1_0000 + tid.offset as u64
}

/// Different addresses have different keys.
pub proof fn law_tid_key_is_injective(a: ItemPointer, b: ItemPointer)
    requires
        tid_key(a) == tid_key(b),
    ensures
        a == b,
{
    assert(a.block_number == b.block_number && a.offset == b.offset);
}

/// There are no more addresses than keys.
pub proof fn lemma_addresses(all: Seq<ItemPointer>)
    requires
        all.no_duplicates(),
    ensures
        all.len() <= 0x1_0000_0000_0000,
{
    let keys = all.map_values(|t: ItemPointer| tid_key(t));
    assert forall|i: int, j: int| 0 <= i < keys.len() && 0 <= j < keys.len() && i
        != j implies keys[i] != keys[j] by {
        if keys[i] == keys[j] {
            law_tid_key_is_injective(all[i], all[j]);
        }
    }
    keys.unique_seq_to_set();
    let range = vstd::set_lib::set_int_range(0, 0x1_0000_0000_0000);
    vstd::set_lib::lemma_int_range(0, 0x1_0000_0000_0000);
    assert forall|x: int| #[trigger] keys.to_set().contains(x) implies range.contains(x) by {
        let i = choose|i: int| 0 <= i < keys.len() && keys[i] == x;
        assert(x == tid_key(all[i]));
    }
    vstd::set_lib::lemma_len_subset(keys.to_set(), range);
}

/// A candidate for the neighbors of an element.
#[derive(Clone, Copy, Debug, PartialEq, Eq, Structural)]
pub struct Candidate {
    /// The element, by its place in the graph.
    pub element: usize,
    /// Order key of the distance.
    pub distance: i32,
    /// Whether it is closer to the element than to the neighbors chosen before
    /// it, as far as this is cached.
    pub closer: bool,
}

/// The neighbors of an element at one layer.
#[derive(Debug)]
pub struct NeighborArray {
    pub items: Vec<Candidate>,
    /// Whether the `closer` flags of the items can be used.
    pub closer_set: bool,
}

/// An empty array of neighbors.
pub fn init_neighbor_array() -> (a: NeighborArray)
    ensures
        a.items@.len() == 0,
        !a.closer_set,
{
    NeighborArray { items: Vec::new(), closer_set: false }
}

/// Whether `neighbors` are empty arrays, one for each layer up to `level`.
pub open spec fn are_empty_layers(neighbors: Seq<NeighborArray>, level: u8) -> bool {
    &&& neighbors.len() == level + 1
    &&& forall|lc: int|
        #![trigger neighbors[lc]]
        0 <= lc <= level ==> neighbors[lc].items@.len() == 0 && !neighbors[lc].closer_set
}

/// Empty arrays of neighbors for each layer up to `level`.
pub fn init_neighbors(level: u8) -> (neighbors: Vec<NeighborArray>)
    ensures
        are_empty_layers(neighbors@, level),
{
    let mut neighbors: Vec<NeighborArray> = Vec::new();
    let mut lc: usize = 0;
    while lc < level as usize + 1
        invariant
            lc <= level + 1,
            neighbors@.len() == lc,
            forall|k: int|
                #![trigger neighbors@[k]]
                0 <= k < lc ==> neighbors@[k].items@.len() == 0 && !neighbors@[k].closer_set,
        decreases level + 1 - lc,
    {
        neighbors.push(init_neighbor_array());
        lc = lc + 1;
    }
    neighbors
}

/// An element of the graph.
#[derive(Debug)]
pub struct Element {
    /// The row that the element stands for, where `heaptid_set`.
    pub heaptid: ItemPointer,
    pub heaptid_set: bool,
    pub level: u8,
    pub deleted: u8,
    pub clamped: u8,
    pub version: u8,
    /// Where the element is stored.
    pub blkno: u32,
    pub offno: u16,
    /// Where its neighbors are stored.
    pub neighbor_page: u32,
    pub neighbor_offno: u16,
    /// The neighbors at each layer, from layer 0 on.
    pub neighbors: Vec<NeighborArray>,
    /// The encoded vector.
    pub value: Vec<u8>,
}

/// The element stands for the row `heaptid`.
pub fn add_heap_tid(element: &mut Element, heaptid: ItemPointer)
    ensures
        *final(element) == (Element { heaptid, heaptid_set: true, ..*old(element) }),
{
    element.heaptid = heaptid;
    element.heaptid_set = true;
}

/// A new element for the row `heaptid`, with room for neighbors at each layer
/// up to `level`.  It is stored nowhere yet and has no vector.
pub fn init_element(heaptid: ItemPointer, level: u8) -> (e: Element)
    ensures
        e.heaptid == heaptid,
        e.heaptid_set,
        e.level == level,
        e.deleted == 0,
        e.clamped == 0,
        e.version == 1,
        e.blkno == 0,
        e.offno == 0,
        e.neighbor_page == 0,
        e.neighbor_offno == 0,
        are_empty_layers(e.neighbors@, level),
        e.value@.len() == 0,
{
    let mut e: Element = Element {
        heaptid: ItemPointer::new(0, 0),
        heaptid_set: false,
        level,
        deleted: 0,
        clamped: 0,
        version: 1,
        blkno: 0,
        offno: 0,
        neighbor_page: 0,
        neighbor_offno: 0,
        neighbors: init_neighbors(level),
        value: Vec::new(),
    };
    add_heap_tid(&mut e, heaptid);
    e
}

/// Whether `e` stands for what is stored at the given address, and nothing of
/// it was loaded yet.
pub open spec fn is_unloaded(e: Element, blkno: u32, offno: u16) -> bool {
    &&& e.heaptid == ItemPointer { block_number: 0, offset: 0 }
    &&& !e.heaptid_set
    &&& e.level == 0
    &&& e.deleted == 0
    &&& e.clamped == 0
    &&& e.version == 0
    &&& e.blkno == blkno
    &&& e.offno == offno
    &&& e.neighbor_page == item_pointer::INVALID_BLOCK_NUMBER
    &&& e.neighbor_offno == item_pointer::INVALID_OFFSET_NUMBER
    &&& e.neighbors@.len() == 0
    &&& e.value@.len() == 0
}

/// An element that stands for what is stored at the given address; nothing of
/// it is loaded yet.
pub fn init_element_from_block(blkno: u32, offno: u16) -> (e: Element)
    ensures
        is_unloaded(e, blkno, offno),
{
    Element {
        heaptid: ItemPointer::new(0, 0),
        heaptid_set: false,
        level: 0,
        deleted: 0,
        clamped: 0,
        version: 0,
        blkno,
        offno,
        neighbor_page: item_pointer::INVALID_BLOCK_NUMBER,
        neighbor_offno: item_pointer::INVALID_OFFSET_NUMBER,
        neighbors: Vec::new(),
        value: Vec::new(),
    }
}

/// The in-memory graph.
#[derive(Debug)]
pub struct Graph {
    pub elements: Vec<Element>,
}

impl Graph {
    /// Every element has a neighbor array for each of its layers, and every
    /// neighbor is an element of the graph.
    pub open spec fn wf(&self) -> bool {
        forall|e: int|
            #![trigger self.elements@[e]]
            0 <= e < self.elements@.len() ==> self.element_ok(e)
    }

    pub open spec fn element_ok(&self, e: int) -> bool {
        &&& self.elements@[e].neighbors@.len() == self.elements@[e].level + 1
        &&& forall|lc: int, i: int|
            #![trigger self.elements@[e].neighbors@[lc].items@[i]]
            0 <= lc <= self.elements@[e].level && 0 <= i
                < self.elements@[e].neighbors@[lc].items@.len()
                ==> self.elements@[e].neighbors@[lc].items@[i].element < self.elements@.len()
    }

    /// The neighbors of element `e` at layer `lc`.
    pub open spec fn layer(&self, e: int, lc: int) -> Seq<Candidate> {
        self.elements@[e].neighbors@[lc].items@
    }

    /// Whether `y` is a neighbor of `x` at layer `lc`.
    pub open spec fn is_neighbor(&self, lc: int, x: int, y: int) -> bool {
        exists|i: int| 0 <= i < self.layer(x, lc).len() && #[trigger] self.layer(x, lc)[i].element
            == y
    }
}

/// The set of keys that a search has met.
#[derive(Debug)]
pub struct Visited {
    pub keys: HashSet<u64>,
}

impl View for Visited {
    type V = Set<u64>;

    open spec fn view(&self) -> Set<u64> {
        self.keys@
    }
}

impl Visited {
    /// The empty set, with room for `capacity` keys.
    pub fn new(capacity: usize) -> (v: Visited)
        ensures
            v@ == Set::<u64>::empty(),
    {
        Visited { keys: HashSet::with_capacity(capacity) }
    }

    /// Record a key; returns true when it was already present.
    pub fn insert(&mut self, key: u64) -> (found: bool)
        ensures
            found == old(self)@.contains(key),
            final(self)@ == old(self)@.insert(key),
    {
        broadcast use vstd::std_specs::hash::group_hash_axioms;

        !self.keys.insert(key)
    }

    /// Whether a key was recorded.
    pub fn contains(&self, key: u64) -> (found: bool)
        ensures
            found == self@.contains(key),
    {
        broadcast use vstd::std_specs::hash::group_hash_axioms;

        self.keys.contains(&key)
    }

    /// Forget all keys.
    pub fn clear(&mut self)
        ensures
            final(self)@ == Set::<u64>::empty(),
    {
        self.keys.clear();
    }
}

} // verus!
