//! Elements and neighbor lists as they are stored.
use crate::hnswsq::params;
use crate::hnswsq::params::get_layer_m;
use crate::hnswsq::types;
use crate::hnswsq::types::{pack_tid, Candidate, Element, Graph, Visited};
use crate::util::item_pointer;
use crate::util::item_pointer::ItemPointer;
use vstd::prelude::*;

verus! {

/// An element as it is stored.
#[derive(Clone, Debug)]
pub struct ElementTuple {
    /// The storage layout of the vector.
    pub layout: u8,
    pub level: u8,
    pub deleted: u8,
    pub version: u8,
    pub clamped: u8,
    /// The row; invalid once the row is gone.
    pub heaptid: ItemPointer,
    /// Where the neighbors are stored.
    pub neighbortid: ItemPointer,
    /// The encoded vector.
    pub vector: Vec<u8>,
}

/// The neighbors of an element as they are stored: those of the top layer
/// first, each layer padded with invalid addresses.
#[derive(Clone, Debug)]
pub struct NeighborTuple {
    pub version: u8,
    pub tids: Vec<ItemPointer>,
}

impl NeighborTuple {
    /// The number of addresses.
    pub open spec fn count(&self) -> int {
        self.tids@.len() as int
    }
}

/// The address of an element.
pub open spec fn address_of(e: Element) -> ItemPointer {
    ItemPointer { block_number: e.blkno, offset: e.offno }
}

/// Where an element is stored.
pub fn tid_of(e: &Element) -> (tid: ItemPointer)
    ensures
        tid == address_of(*e),
{
    ItemPointer::new(e.blkno, e.offno)
}

/// Fill in a stored element from `element`, except for the address of its
/// neighbors.
pub fn set_element_tuple(tuple: &mut ElementTuple, element: &Element, layout: u8)
    ensures
        final(tuple).layout == layout,
        final(tuple).level == element.level,
        final(tuple).deleted == 0,
        final(tuple).version == element.version,
        final(tuple).clamped == element.clamped,
        final(tuple).heaptid == element.heaptid,
        final(tuple).neighbortid == old(tuple).neighbortid,
        final(tuple).vector@ == element.value@,
{
    tuple.layout = layout;
    tuple.level = element.level;
    tuple.deleted = 0;
    tuple.version = element.version;
    tuple.clamped = element.clamped;
    tuple.heaptid = element.heaptid;
    tuple.vector = vstd::slice::slice_to_vec(element.value.as_slice());
}

/// Fill in `element` from a stored one: its row where `load_heaptid` and there
/// is one, its vector where `load_vec`.
pub fn load_element_from_tuple(
    element: &mut Element,
    tuple: &ElementTuple,
    load_heaptid: bool,
    load_vec: bool,
)
    ensures
        final(element).level == tuple.level,
        final(element).deleted == tuple.deleted,
        final(element).version == tuple.version,
        final(element).clamped == tuple.clamped,
        final(element).neighbor_page == tuple.neighbortid.block_number,
        final(element).neighbor_offno == tuple.neighbortid.offset,
        final(element).heaptid_set == (load_heaptid && tuple.heaptid.block_number
            != item_pointer::INVALID_BLOCK_NUMBER),
        final(element).heaptid == if final(element).heaptid_set {
            tuple.heaptid
        } else {
            old(element).heaptid
        },
        final(element).value@ == if load_vec {
            tuple.vector@
        } else {
            old(element).value@
        },
        final(element).blkno == old(element).blkno,
        final(element).offno == old(element).offno,
        final(element).neighbors == old(element).neighbors,
{
    element.level = tuple.level;
    element.deleted = tuple.deleted;
    element.version = tuple.version;
    element.clamped = tuple.clamped;
    element.neighbor_page = tuple.neighbortid.block_number;
    element.neighbor_offno = tuple.neighbortid.offset;
    element.heaptid_set = false;
    if load_heaptid && tuple.heaptid.block_number != item_pointer::INVALID_BLOCK_NUMBER {
        element.heaptid = tuple.heaptid;
        element.heaptid_set = true;
    }
    if load_vec {
        element.value = vstd::slice::slice_to_vec(tuple.vector.as_slice());
    }
}

/// The place where the addresses of layer `lc` start for an element of
/// `level`.
pub open spec fn layer_place(level: int, m: int, lc: int) -> int {
    (level - lc) * m
}

/// The address at place `i` of a layer: that of the neighbor, or an invalid
/// one beyond the neighbors.
pub open spec fn slot(graph: Graph, items: Seq<Candidate>, i: int) -> ItemPointer {
    if i < items.len() {
        address_of(graph.elements@[items[i].element as int])
    } else {
        item_pointer::invalid_pointer()
    }
}

/// `tids` holds the neighbors of element `e` of a graph: each layer from the
/// top on, padded to its full size.
pub open spec fn are_stored(graph: Graph, e: int, m: int, tids: Seq<ItemPointer>) -> bool {
    let level = graph.elements@[e].level as int;
    &&& tids.len() == (level + 2) * m
    &&& forall|lc: int, i: int|
        0 <= lc <= level && 0 <= i < params::layer_m(m, lc) ==> #[trigger] is_stored(
            graph,
            e,
            m,
            tids,
            lc,
            i,
        )
}

/// Whether the address at place `i` of layer `lc` is where it belongs.
pub open spec fn is_stored(
    graph: Graph,
    e: int,
    m: int,
    tids: Seq<ItemPointer>,
    lc: int,
    i: int,
) -> bool {
    let place = layer_place(graph.elements@[e].level as int, m, lc) + i;
    0 <= place < tids.len() && tids[place] == slot(graph, graph.layer(e, lc), i)
}

/// The address at place `i` of a layer: an invalid one beyond its addresses.
pub open spec fn slot_of(layer: Seq<ItemPointer>, i: int) -> ItemPointer {
    if i < layer.len() {
        layer[i]
    } else {
        item_pointer::invalid_pointer()
    }
}

/// Whether the address at place `i` of layer `lc` is where it belongs.
pub open spec fn is_layer_slot(
    layers: Seq<Vec<ItemPointer>>,
    level: int,
    m: int,
    tids: Seq<ItemPointer>,
    lc: int,
    i: int,
) -> bool {
    let place = layer_place(level, m, lc) + i;
    0 <= place < tids.len() && tids[place] == slot_of(layers[lc]@, i)
}

/// `tids` holds the addresses of each layer from the top on, padded to its full
/// size.
pub open spec fn are_packed(
    layers: Seq<Vec<ItemPointer>>,
    level: int,
    m: int,
    tids: Seq<ItemPointer>,
) -> bool {
    &&& tids.len() == (level + 2) * m
    &&& are_packed_from(layers, level, m, 0, tids)
}

/// The same of the layers from `from` on.
pub open spec fn are_packed_from(
    layers: Seq<Vec<ItemPointer>>,
    level: int,
    m: int,
    from: int,
    tids: Seq<ItemPointer>,
) -> bool {
    forall|lc: int, i: int|
        from <= lc <= level && 0 <= i < params::layer_m(m, lc) ==> #[trigger] is_layer_slot(
            layers,
            level,
            m,
            tids,
            lc,
            i,
        )
}

/// Put the addresses of all layers together, the top layer first.
pub fn pack_layers(layers: &Vec<Vec<ItemPointer>>, m: usize) -> (tids: Vec<ItemPointer>)
    requires
        0 < layers@.len() < usize::MAX,
        (layers@.len() + 1) * m <= usize::MAX,
    ensures
        are_packed(layers@, layers@.len() - 1, m as int, tids@),
{
    let level: usize = layers.len() - 1;
    let mut tids: Vec<ItemPointer> = Vec::new();
    let mut todo: usize = level + 1;
    proof {
        assert(2 * m <= (level + 2) * m) by (nonlinear_arith)
            requires
                0 <= level,
                0 <= m,
        ;
        assert(layer_place(level as int, m as int, level as int) == 0) by (nonlinear_arith)
            requires
                layer_place(level as int, m as int, level as int) == (level - level) * m,
        ;
    }
    while todo > 0
        invariant
            level + 1 == layers@.len(),
            todo <= level + 1,
            2 * m <= usize::MAX,
            tids@.len() == if todo > 0 {
                layer_place(level as int, m as int, todo - 1)
            } else {
                (level + 2) * m
            },
            are_packed_from(layers@, level as int, m as int, todo as int, tids@),
        decreases todo,
    {
        let lc: usize = todo - 1;
        let lm: usize = get_layer_m(m, lc);
        let layer: &Vec<ItemPointer> = &layers[lc];
        let ghost before = tids@;
        let ghost place = layer_place(level as int, m as int, lc as int);
        let mut i: usize = 0;
        while i < lm
            invariant
                i <= lm,
                before.len() == place,
                tids@.len() == place + i,
                forall|k: int| 0 <= k < place ==> #[trigger] tids@[k] == before[k],
                forall|k: int|
                    #![trigger slot_of(layer@, k)]
                    0 <= k < i ==> tids@[place + k] == slot_of(layer@, k),
            decreases lm - i,
        {
            if i < layer.len() {
                tids.push(layer[i]);
            } else {
                tids.push(ItemPointer::new_invalid());
            }
            i = i + 1;
        }
        proof {
            if lc > 0 {
                assert(layer_place(level as int, m as int, lc - 1) == place + m) by (nonlinear_arith)
                    requires
                        layer_place(level as int, m as int, lc - 1) == (level - (lc - 1)) * m,
                        place == (level - lc) * m,
                ;
            } else {
                assert((level + 2) * m == place + 2 * m) by (nonlinear_arith)
                    requires
                        place == (level - lc) * m,
                        lc == 0,
                ;
            }
            assert forall|l: int, k: int|
                lc <= l <= level && 0 <= k < params::layer_m(m as int, l) implies #[trigger] is_layer_slot(
                layers@,
                level as int,
                m as int,
                tids@,
                l,
                k,
            ) by {
                assert(layer_place(level as int, m as int, l) >= 0) by (nonlinear_arith)
                    requires
                        layer_place(level as int, m as int, l) == (level - l) * m,
                        l <= level,
                        m >= 0,
                ;
                if l > lc {
                    assert(is_layer_slot(layers@, level as int, m as int, before, l, k));
                    let p = layer_place(level as int, m as int, l) + k;
                    assert(tids@[p] == before[p]);
                } else {
                    assert(tids@[place + k] == slot_of(layer@, k));
                }
            }
        }
        todo = lc;
    }
    tids
}

/// The addresses of the candidates among `elements`.
pub open spec fn addresses_of(elements: Seq<Element>, items: Seq<Candidate>) -> Seq<ItemPointer> {
    items.map_values(|c: Candidate| address_of(elements[c.element as int]))
}

/// The addresses of the candidates.
pub fn find_addresses(elements: &Vec<Element>, items: &Vec<Candidate>) -> (tids: Vec<ItemPointer>)
    requires
        forall|i: int|
            #![trigger items@[i]]
            0 <= i < items@.len() ==> items@[i].element < elements@.len(),
    ensures
        tids@ == addresses_of(elements@, items@),
{
    let ghost want = addresses_of(elements@, items@);
    let mut tids: Vec<ItemPointer> = Vec::new();
    let mut i: usize = 0;
    while i < items.len()
        invariant
            i <= items@.len(),
            want == addresses_of(elements@, items@),
            forall|j: int|
                #![trigger items@[j]]
                0 <= j < items@.len() ==> items@[j].element < elements@.len(),
            tids@ == want.take(i as int),
        decreases items@.len() - i,
    {
        assert(items@[i as int].element < elements@.len());
        tids.push(tid_of(&elements[items[i].element]));
        assert(tids@ =~= want.take(i + 1));
        i = i + 1;
    }
    assert(tids@ =~= want);
    tids
}

/// Fill in the stored neighbors of element `e`.
pub fn set_neighbor_tuple(graph: &Graph, e: usize, m: usize) -> (tuple: NeighborTuple)
    requires
        graph.wf(),
        e < graph.elements@.len(),
        (graph.elements@[e as int].level + 2) * m <= usize::MAX,
    ensures
        are_stored(*graph, e as int, m as int, tuple.tids@),
        tuple.version == graph.elements@[e as int].version,
{
    let level: usize = graph.elements[e].level as usize;
    let mut layers: Vec<Vec<ItemPointer>> = Vec::new();
    assert(graph.element_ok(e as int)) by {
        assert(graph.elements@[e as int].level >= 0);
    }
    let mut lc: usize = 0;
    while lc <= level
        invariant
            lc <= level + 1,
            level <= u8::MAX,
            e < graph.elements@.len(),
            level == graph.elements@[e as int].level,
            graph.element_ok(e as int),
            layers@.len() == lc,
            forall|l: int|
                #![trigger layers@[l]]
                0 <= l < lc ==> layers@[l]@ == addresses_of(
                    graph.elements@,
                    graph.layer(e as int, l),
                ),
        decreases level + 1 - lc,
    {
        assert forall|i: int|
            #![trigger graph.elements@[e as int].neighbors@[lc as int].items@[i]]
            0 <= i < graph.layer(e as int, lc as int).len() implies graph.elements@[e as int].neighbors@[lc as int].items@[i].element
            < graph.elements@.len() by {}
        layers.push(find_addresses(&graph.elements, &graph.elements[e].neighbors[lc].items));
        lc = lc + 1;
    }
    let tids: Vec<ItemPointer> = pack_layers(&layers, m);
    proof {
        assert forall|l: int, i: int|
            0 <= l <= level && 0 <= i < params::layer_m(m as int, l) implies #[trigger] is_stored(
            *graph,
            e as int,
            m as int,
            tids@,
            l,
            i,
        ) by {
            assert(is_layer_slot(layers@, level as int, m as int, tids@, l, i));
            assert(layers@[l]@ == addresses_of(graph.elements@, graph.layer(e as int, l)));
        }
    }
    NeighborTuple { version: graph.elements[e].version, tids }
}

/// The addresses of layer `lc` of an element of the given version and level,
/// or none where the tuple was deleted or replaced in the meantime.
pub fn load_neighbor_tids(
    tuple: &NeighborTuple,
    version: u8,
    level: u8,
    m: usize,
    lc: usize,
) -> (tids: Option<Vec<ItemPointer>>)
    requires
        lc <= level,
        (level + 2) * m <= usize::MAX,
    ensures
        tids is None <==> tuple.version != version || tuple.count() != (level + 2) * m,
        tids is Some ==> tids->0@ == tuple.tids@.subrange(
            layer_place(level as int, m as int, lc as int),
            layer_place(level as int, m as int, lc as int) + params::layer_m(m as int, lc as int),
        ),
{
    proof {
        let l = level as int;
        assert(2 * m <= (l + 2) * m && 0 <= (l - lc) * m && (l - lc) * m + params::layer_m(
            m as int,
            lc as int,
        ) <= (l + 2) * m) by (nonlinear_arith)
            requires
                0 <= lc <= l,
                m >= 0,
                params::layer_m(m as int, lc as int) == 2 * m || params::layer_m(
                    m as int,
                    lc as int,
                ) == m,
        ;
    }
    if tuple.version != version || tuple.tids.len() != (level as usize + 2) * m {
        return None;
    }
    let start: usize = (level as usize - lc) * m;
    let lm: usize = get_layer_m(m, lc);
    Some(
        vstd::slice::slice_to_vec(
            vstd::slice::slice_subrange(tuple.tids.as_slice(), start, start + lm),
        ),
    )
}

/// How many addresses come before the first invalid one.
pub open spec fn valid_prefix(tids: Seq<ItemPointer>) -> int
    decreases tids.len(),
{
    if tids.len() == 0 || tids[0].block_number == item_pointer::INVALID_BLOCK_NUMBER {
        0
    } else {
        1 + valid_prefix(tids.skip(1))
    }
}

/// Of `tids`, those that are not in `seen`, each once, in order.
pub open spec fn unseen_tids(tids: Seq<ItemPointer>, seen: Set<u64>) -> Seq<ItemPointer>
    decreases tids.len(),
{
    if tids.len() == 0 {
        Seq::empty()
    } else {
        let before = unseen_tids(tids.drop_last(), seen);
        if seen.contains(types::tid_key(tids.last()) as u64) || before.contains(tids.last()) {
            before
        } else {
            before.push(tids.last())
        }
    }
}

/// Collect those of a layer's addresses, up to the first invalid one, that
/// were not visited yet, and mark them as visited.
pub fn load_unvisited_from_disk(tids: &Vec<ItemPointer>, v: &mut Visited) -> (out: Vec<ItemPointer>)
    ensures
        out@ == unseen_tids(tids@.take(valid_prefix(tids@)), old(v)@),
        forall|key: u64| #[trigger]
            final(v)@.contains(key) <==> old(v)@.contains(key) || exists|i: int|
                0 <= i < out@.len() && types::tid_key(#[trigger] out@[i]) == key,
{
    let mut out: Vec<ItemPointer> = Vec::new();
    let mut i: usize = 0;
    while i < tids.len() && tids[i].block_number != item_pointer::INVALID_BLOCK_NUMBER
        invariant
            i <= tids@.len(),
            forall|j: int|
                #![trigger tids@[j]]
                0 <= j < i ==> tids@[j].block_number != item_pointer::INVALID_BLOCK_NUMBER,
            out@ == unseen_tids(tids@.take(i as int), old(v)@),
            forall|key: u64| #[trigger]
                v@.contains(key) <==> old(v)@.contains(key) || exists|j: int|
                    0 <= j < out@.len() && types::tid_key(#[trigger] out@[j]) == key,
        decreases tids@.len() - i,
    {
        let t: ItemPointer = tids[i];
        let ghost before = out@;
        let ghost seen = v@;
        let key: u64 = pack_tid(t);
        let found: bool = v.insert(key);
        assert(tids@.take(i + 1).drop_last() =~= tids@.take(i as int));
        assert(found <==> old(v)@.contains(key) || before.contains(t)) by {
            if before.contains(t) {
                let j = choose|j: int| 0 <= j < before.len() && before[j] == t;
                assert(types::tid_key(before[j]) == key);
            }
            if seen.contains(key) && !old(v)@.contains(key) {
                let j = choose|j: int|
                    0 <= j < before.len() && types::tid_key(#[trigger] before[j]) == key;
                types::law_tid_key_is_injective(before[j], t);
            }
        }
        if !found {
            out.push(t);
            assert forall|k: u64| #[trigger] v@.contains(k) <==> old(v)@.contains(k) || exists|j: int|
                0 <= j < out@.len() && types::tid_key(#[trigger] out@[j]) == k by {
                if v@.contains(k) && !old(v)@.contains(k) {
                    if k == key {
                        assert(types::tid_key(out@[before.len() as int]) == k);
                    } else {
                        assert(seen.contains(k));
                        let j = choose|j: int|
                            0 <= j < before.len() && types::tid_key(#[trigger] before[j]) == k;
                        assert(types::tid_key(out@[j]) == k);
                    }
                }
                if exists|j: int| 0 <= j < out@.len() && types::tid_key(#[trigger] out@[j]) == k {
                    let j = choose|j: int|
                        0 <= j < out@.len() && types::tid_key(#[trigger] out@[j]) == k;
                    if j < before.len() {
                        assert(types::tid_key(before[j]) == k);
                        assert(seen.contains(k));
                    }
                }
            }
        } else {
            assert(v@ =~= seen);
        }
        i = i + 1;
    }
    proof {
        lemma_valid_prefix(tids@, i as int);
    }
    out
}

pub proof fn lemma_valid_prefix(tids: Seq<ItemPointer>, k: int)
    requires
        0 <= k <= tids.len(),
        forall|j: int|
            #![trigger tids[j]]
            0 <= j < k ==> tids[j].block_number != item_pointer::INVALID_BLOCK_NUMBER,
        k < tids.len() ==> tids[k].block_number == item_pointer::INVALID_BLOCK_NUMBER,
    ensures
        valid_prefix(tids) == k,
    decreases k,
{
    if k > 0 {
        assert(tids[0].block_number != item_pointer::INVALID_BLOCK_NUMBER);
        let rest = tids.skip(1);
        assert(forall|j: int| #![trigger rest[j]] 0 <= j < rest.len() ==> rest[j] == tids[j + 1]);
        lemma_valid_prefix(rest, k - 1);
    }
}

/// What a search reads of a stored layer are the addresses of the element's
/// neighbors on it, in order.
pub proof fn law_stored_neighbors_read_back(
    graph: Graph,
    e: int,
    m: int,
    tids: Seq<ItemPointer>,
    lc: int,
)
    requires
        m >= 0,
        0 <= e < graph.elements@.len(),
        are_stored(graph, e, m, tids),
        0 <= lc <= graph.elements@[e].level,
        graph.layer(e, lc).len() <= params::layer_m(m, lc),
        forall|i: int|
            #![trigger graph.layer(e, lc)[i]]
            0 <= i < graph.layer(e, lc).len() ==> address_of(
                graph.elements@[graph.layer(e, lc)[i].element as int],
            ).block_number != item_pointer::INVALID_BLOCK_NUMBER,
    ensures
        ({
            let place = layer_place(graph.elements@[e].level as int, m, lc);
            let stored = tids.subrange(place, place + params::layer_m(m, lc));
            let items = graph.layer(e, lc);
            &&& valid_prefix(stored) == items.len()
            &&& forall|i: int|
                #![trigger items[i]]
                0 <= i < items.len() ==> stored[i] == address_of(
                    graph.elements@[items[i].element as int],
                )
        }),
{
    let level = graph.elements@[e].level as int;
    let place = layer_place(level, m, lc);
    let lm = params::layer_m(m, lc);
    assert(0 <= (level - lc) * m && (level - lc) * m + lm <= (level + 2) * m) by (nonlinear_arith)
        requires
            0 <= lc <= level,
            m >= 0,
            lm == 2 * m || (lm == m && lc > 0),
    ;
    let stored = tids.subrange(place, place + lm);
    let items = graph.layer(e, lc);
    assert forall|i: int| 0 <= i < lm implies #[trigger] stored[i] == slot(graph, items, i) by {
        assert(is_stored(graph, e, m, tids, lc, i));
    }
    assert forall|i: int| #![trigger items[i]] 0 <= i < items.len() implies stored[i] == address_of(
        graph.elements@[items[i].element as int],
    ) by {
        assert(stored[i] == slot(graph, items, i));
    }
    assert forall|j: int| #![trigger stored[j]] 0 <= j < items.len() implies stored[j].block_number
        != item_pointer::INVALID_BLOCK_NUMBER by {
        assert(stored[j] == slot(graph, items, j));
        assert(items[j] == graph.layer(e, lc)[j]);
    }
    lemma_valid_prefix(stored, items.len() as int);
}

/// Whether an element at `distance` is near enough to be loaded: where both
/// are given, it must be nearer than `max_distance`.
pub open spec fn is_admitted(distance: Option<i32>, max_distance: Option<i32>) -> bool {
    distance is None || max_distance is None || distance->0 < max_distance->0
}

/// Why an element was not loaded.
#[derive(Clone, Copy, Debug, PartialEq, Eq, Structural)]
pub enum LoadError {
    /// The element is deleted.
    Deleted,
}

/// Load a stored element that is found at `distance`, unless it lies too far;
/// returns whether it was loaded. A deleted one is an error.
pub fn load_element(
    element: &mut Element,
    tuple: &ElementTuple,
    distance: Option<i32>,
    max_distance: Option<i32>,
    load_vec: bool,
) -> (r: Result<bool, LoadError>)
    ensures
        r is Err <==> tuple.deleted != 0,
        r is Ok ==> r->Ok_0 == is_admitted(distance, max_distance),
        r is Err || !r->Ok_0 ==> *final(element) == *old(element),
        r is Ok && r->Ok_0 ==> {
            &&& final(element).level == tuple.level
            &&& final(element).deleted == 0
            &&& final(element).version == tuple.version
            &&& final(element).clamped == tuple.clamped
            &&& final(element).neighbor_page == tuple.neighbortid.block_number
            &&& final(element).neighbor_offno == tuple.neighbortid.offset
            &&& final(element).heaptid_set == (tuple.heaptid.block_number
                != item_pointer::INVALID_BLOCK_NUMBER)
            &&& final(element).heaptid == if final(element).heaptid_set {
                tuple.heaptid
            } else {
                old(element).heaptid
            }
            &&& final(element).neighbors == old(element).neighbors
            &&& load_vec ==> final(element).value@ == tuple.vector@
            &&& !load_vec ==> final(element).value@ == old(element).value@
            &&& final(element).blkno == old(element).blkno
            &&& final(element).offno == old(element).offno
        },
{
    if tuple.deleted != 0 {
        return Err(LoadError::Deleted);
    }
    let admitted: bool = match distance {
        None => true,
        Some(d) => match max_distance {
            None => true,
            Some(max) => d < max,
        },
    };
    if admitted {
        load_element_from_tuple(element, tuple, true, load_vec);
    }
    Ok(admitted)
}

} // verus!
