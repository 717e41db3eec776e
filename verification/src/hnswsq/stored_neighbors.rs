//! The neighbors of an element of a stored graph.
use crate::hnswsq::layer_search::{Frontier, SearchCandidate};
use crate::hnswsq::memory::ElementArena;
use crate::hnswsq::neighbors;
use crate::hnswsq::neighbors::choose_neighbors;
use crate::hnswsq::params;
use crate::hnswsq::params::get_layer_m;
use crate::hnswsq::select;
use crate::hnswsq::stored;
use crate::hnswsq::stored::{StoredGraph, StoredPage, WalkError};
use crate::hnswsq::stored_search;
use crate::hnswsq::stored_search::{
    load_element_impl, search_layer, Handle, StoredProgress, StoredTask,
};
use crate::hnswsq::tuple;
use crate::hnswsq::tuple::ElementTuple;
use crate::hnswsq::types;
use crate::hnswsq::types::{Candidate, Element, Visited};
use crate::hnswsq::vacuum::PageItem;
use crate::util::item_pointer::ItemPointer;
use vstd::prelude::*;

verus! {

/// Whether `f` gives `d` for the distance between two vectors.
pub open spec fn gives_pair<G: Fn(&Vec<u8>, &Vec<u8>) -> i32>(
    f: G,
    a: Seq<u8>,
    b: Seq<u8>,
    d: i32,
) -> bool {
    exists|v: Vec<u8>, w: Vec<u8>|
        v@ == a && w@ == b && #[trigger] call_ensures(f, (&v, &w), d)
}

/// The distance between two vectors that `f` gives.
pub open spec fn pair_from<G: Fn(&Vec<u8>, &Vec<u8>) -> i32>(f: G, a: Seq<u8>, b: Seq<u8>) -> i32 {
    choose|d: i32| gives_pair(f, a, b, d)
}

/// The distances between vectors that `f` gives, as a specification.
pub open spec fn pairs_from<G: Fn(&Vec<u8>, &Vec<u8>) -> i32>(f: G) -> spec_fn(
    Seq<u8>,
    Seq<u8>,
) -> i32 {
    |a: Seq<u8>, b: Seq<u8>| pair_from(f, a, b)
}

/// Whether `f` can be called on vectors and goes by what they hold.
pub open spec fn is_pair_distance<G: Fn(&Vec<u8>, &Vec<u8>) -> i32>(f: G) -> bool {
    &&& forall|v: Vec<u8>, w: Vec<u8>| #[trigger] call_requires(f, (&v, &w))
    &&& forall|a: Seq<u8>, b: Seq<u8>, d1: i32, d2: i32|
        #![trigger gives_pair(f, a, b, d1), gives_pair(f, a, b, d2)]
        gives_pair(f, a, b, d1) && gives_pair(f, a, b, d2) ==> d1 == d2
}

/// Where the way down from the entry point stands: where the search of the next
/// layer starts, and what was loaded.
#[verifier::ext_equal]
pub struct LayerState {
    pub ep: Seq<SearchCandidate>,
    pub loaded: Seq<Handle>,
}

/// The way down from an entry point to find the neighbors of an element of
/// `level`.
pub struct StoredDescent {
    pub pages: Seq<StoredPage>,
    pub m: int,
    /// The distances to the element.
    pub dist: spec_fn(Vec<u8>) -> i32,
    /// The distances between elements.
    pub pair: spec_fn(Seq<u8>, Seq<u8>) -> i32,
    pub level: int,
    pub ef_construction: int,
    /// Where the element itself is stored, if it is.
    pub skip: Option<ItemPointer>,
}

impl StoredDescent {
    /// The search of layer `lc`: for one element on the way down to the level;
    /// from there on for `ef_construction`, and one more where the element
    /// itself is found.
    pub open spec fn task(self, lc: int) -> StoredTask {
        StoredTask {
            pages: self.pages,
            m: self.m,
            dist: self.dist,
            ef: if lc > self.level {
                1
            } else if self.skip is Some {
                self.ef_construction + 1
            } else {
                self.ef_construction
            },
            lc,
            skipping: self.skip is Some,
            track: false,
            load_vec: true,
        }
    }

    /// Whether the search of layer `lc` leads from one state to the other.
    pub open spec fn is_searched(self, lc: int, before: LayerState, after: LayerState) -> bool {
        let task = self.task(lc);
        let start = task.start(before.loaded, before.ep, Set::empty(), true);
        exists|k: nat|
            {
                &&& #[trigger] task.ends_after(start, k)
                &&& after.ep == task.progress(start, k)->Ok_0.frontier.w.reverse()
                &&& after.loaded == task.progress(start, k)->Ok_0.loaded
            }
    }

    /// Whether the search of layer `lc` fails.
    pub open spec fn fails_at(self, lc: int, before: LayerState, e: WalkError) -> bool {
        let task = self.task(lc);
        exists|k: nat| #[trigger]
            task.fails_after(
                task.start(before.loaded, before.ep, Set::empty(), true),
                k,
                e,
            )
    }

    /// The state at the entry point, `t`, stored at `entry_point`.
    pub open spec fn at_entry(
        self,
        loaded: Seq<Handle>,
        entry_point: ItemPointer,
        t: ElementTuple,
    ) -> LayerState {
        LayerState {
            ep: seq![
                SearchCandidate {
                    element: loaded.len() as usize,
                    distance: (self.dist)(t.vector),
                    key: types::tid_key(entry_point) as u64,
                },
            ],
            loaded: loaded.push(stored_search::handle_at(entry_point, t, true)),
        }
    }

    /// Whether `chain` are the states on the way down from the state `first`, at
    /// layer `top`: each search leads to the next one.
    pub open spec fn is_descent(self, top: int, first: LayerState, chain: Seq<LayerState>) -> bool {
        &&& chain.len() > 0
        &&& chain[0] == first
        &&& forall|j: int|
            #![trigger chain[j]]
            0 < j < chain.len() ==> self.is_searched(top - j + 1, chain[j - 1], chain[j])
    }

    /// Whether a loaded element can be a neighbor: it has a row, and it is not
    /// the element itself.
    pub open spec fn may_connect(self, loaded: Seq<Handle>, e: int) -> bool {
        loaded[e].has_row() && (self.skip is Some ==> loaded[e].tid != self.skip->0)
    }

    /// The candidates for neighbors that a search has found.
    pub open spec fn candidates(self, s: LayerState) -> Seq<Candidate> {
        neighbors::as_candidates(s.ep).filter(
            |c: Candidate| self.may_connect(s.loaded, c.element as int),
        )
    }

    /// The distances between loaded elements.
    pub open spec fn pairs(self, loaded: Seq<Handle>) -> spec_fn(usize, usize) -> i32 {
        |x: usize, y: usize| (self.pair)(loaded[x as int].vector, loaded[y as int].vector)
    }

    /// Whether `chosen` are the neighbors at layer `lc`, chosen of what the search
    /// of that layer has found.
    pub open spec fn is_layer_found(self, lc: int, s: LayerState, chosen: Seq<Candidate>) -> bool {
        &&& neighbors::are_chosen(
            self.pairs(s.loaded),
            self.candidates(s),
            params::layer_m(self.m, lc),
            chosen,
        )
        &&& chosen.len() <= params::layer_m(self.m, lc)
        &&& forall|i: int|
            #![trigger chosen[i]]
            0 <= i < chosen.len() ==> chosen[i].element < s.loaded.len() && self.may_connect(
                s.loaded,
                chosen[i].element as int,
            )
    }

    /// Whether `found` are the neighbors at the layers from `from` on that the
    /// element and the graph have, chosen along the way down.
    pub open spec fn are_found(
        self,
        top: int,
        chain: Seq<LayerState>,
        from: int,
        found: Seq<Vec<Candidate>>,
    ) -> bool {
        forall|i: int|
            #![trigger found[i]]
            0 <= i < found.len() ==> self.is_layer_found(
                from + i,
                chain[top - (from + i) + 1],
                found[i]@,
            )
    }
}

/// The way down that these arguments ask for.
pub open spec fn descent_of<
    F: Fn(&Vec<u8>) -> i32,
    G: Fn(&Vec<u8>, &Vec<u8>) -> i32,
>(
    graph: StoredGraph,
    distance: F,
    pair: G,
    level: usize,
    ef_construction: usize,
    skip: Option<ItemPointer>,
) -> StoredDescent {
    StoredDescent {
        pages: graph.pages@,
        m: graph.m as int,
        dist: stored_search::distance_to(distance),
        pair: pairs_from(pair),
        level: level as int,
        ef_construction: ef_construction as int,
        skip,
    }
}

/// Whether `a` is the start of `b`.
pub open spec fn is_start_of(a: Seq<Handle>, b: Seq<Handle>) -> bool {
    a.len() <= b.len() && b.take(a.len() as int) == a
}

/// Leave out the element itself and elements without a row.
fn remove_stored_elements(
    ep: &Vec<SearchCandidate>,
    arena: &ElementArena,
    skip: Option<ItemPointer>,
    Ghost(desc): Ghost<StoredDescent>,
) -> (out: Vec<Candidate>)
    requires
        desc.skip == skip,
        forall|i: int|
            #![trigger ep@[i]]
            0 <= i < ep@.len() ==> ep@[i].element < arena.elements@.len(),
    ensures
        out@ == desc.candidates(
            LayerState { ep: ep@, loaded: stored_search::handles(arena.elements@) },
        ),
        forall|i: int|
            #![trigger out@[i]]
            0 <= i < out@.len() ==> out@[i].element < arena.elements@.len() && desc.may_connect(
                stored_search::handles(arena.elements@),
                out@[i].element as int,
            ),
{
    let ghost loaded = stored_search::handles(arena.elements@);
    let ghost all = neighbors::as_candidates(ep@);
    let ghost keep = |c: Candidate| desc.may_connect(loaded, c.element as int);
    let mut out: Vec<Candidate> = Vec::new();
    let mut i: usize = 0;
    proof {
        reveal(Seq::filter);
        assert(all.take(0).filter(keep) =~= Seq::<Candidate>::empty());
    }
    while i < ep.len()
        invariant
            i <= ep@.len(),
            desc.skip == skip,
            loaded == stored_search::handles(arena.elements@),
            all == neighbors::as_candidates(ep@),
            keep == (|c: Candidate| desc.may_connect(loaded, c.element as int)),
            forall|j: int|
                #![trigger ep@[j]]
                0 <= j < ep@.len() ==> ep@[j].element < arena.elements@.len(),
            out@ == all.take(i as int).filter(keep),
            forall|j: int|
                #![trigger out@[j]]
                0 <= j < out@.len() ==> out@[j].element < arena.elements@.len()
                    && desc.may_connect(loaded, out@[j].element as int),
        decreases ep@.len() - i,
    {
        let sc: SearchCandidate = ep[i];
        assert(ep@[i as int].element < arena.elements@.len());
        let e: &Element = &arena.elements[sc.element];
        let same: bool = match skip {
            Some(tid) => e.blkno == tid.block_number && e.offno == tid.offset,
            None => false,
        };
        let c: Candidate = Candidate { element: sc.element, distance: sc.distance, closer: false };
        let ghost before = out@;
        proof {
            reveal(Seq::filter);
            assert(all.take(i + 1).drop_last() =~= all.take(i as int));
            assert(all.take(i + 1).last() == c);
            assert(loaded[sc.element as int] == stored_search::handle_of(*e));
            assert(keep(c) == (!same && e.heaptid_set));
        }
        if !same && e.heaptid_set {
            out.push(c);
        }
        i = i + 1;
    }
    assert(all.take(all.len() as int) =~= all);
    out
}

/// Choose the neighbors at layer `lc` of what a search has found.
fn choose_stored_neighbors<G: Fn(&Vec<u8>, &Vec<u8>) -> i32>(
    ep: &Vec<SearchCandidate>,
    arena: &ElementArena,
    skip: Option<ItemPointer>,
    m: usize,
    lc: usize,
    pair: &G,
    Ghost(desc): Ghost<StoredDescent>,
) -> (chosen: Vec<Candidate>)
    requires
        is_pair_distance(*pair),
        desc.pair == pairs_from(*pair),
        desc.skip == skip,
        desc.m == m,
        m <= 0xffff,
        forall|i: int|
            #![trigger ep@[i]]
            0 <= i < ep@.len() ==> ep@[i].element < arena.elements@.len(),
    ensures
        desc.is_layer_found(
            lc as int,
            LayerState { ep: ep@, loaded: stored_search::handles(arena.elements@) },
            chosen@,
        ),
{
    let ghost loaded = stored_search::handles(arena.elements@);
    let ghost pd = desc.pairs(loaded);
    let c: Vec<Candidate> = remove_stored_elements(ep, arena, skip, Ghost(desc));
    let ghost cands = c@;
    let elements: &Vec<Element> = &arena.elements;
    let between = |x: usize, y: usize| -> (d: i32)
        requires
            x < elements@.len(),
            y < elements@.len(),
        ensures
            gives_pair(*pair, elements@[x as int].value@, elements@[y as int].value@, d),
        { pair(&elements[x].value, &elements[y].value) };
    proof {
        assert forall|i: int, j: int|
            #![trigger c@[i], c@[j]]
            0 <= i < c@.len() && 0 <= j < c@.len() implies call_requires(
            between,
            (c@[i].element, c@[j].element),
        ) by {
            assert(c@[i].element < elements@.len() && c@[j].element < elements@.len());
        }
        assert forall|i: int, j: int, d: i32|
            #![trigger call_ensures(between, (c@[i].element, c@[j].element), d)]
            0 <= i < c@.len() && 0 <= j < c@.len() && call_ensures(
                between,
                (c@[i].element, c@[j].element),
                d,
            ) implies d == pd(c@[i].element, c@[j].element) by {
            let x = c@[i].element as int;
            let y = c@[j].element as int;
            assert(c@[i].element < elements@.len() && c@[j].element < elements@.len());
            assert(gives_pair(*pair, elements@[x].value@, elements@[y].value@, d));
            assert(loaded[x].vector == elements@[x].value@);
            assert(loaded[y].vector == elements@[y].value@);
        }
        assert(select::gives_pairs(between, c@, pd));
    }
    let lm: usize = get_layer_m(m, lc);
    let chosen: Vec<Candidate> = choose_neighbors(c, lm, &between, Ghost(pd));
    proof {
        assert forall|i: int| #![trigger chosen@[i]] 0 <= i < chosen@.len() implies chosen@[i].element
            < loaded.len() && desc.may_connect(loaded, chosen@[i].element as int) by {
            let j = choose|j: int|
                0 <= j < cands.len() && #[trigger] cands[j].element == chosen@[i].element;
            assert(cands[j].element < arena.elements@.len());
        }
    }
    chosen
}

/// What finding the neighbors of an element leads to, by the states `chain` on
/// the way down from the entry point.
pub open spec fn is_outcome(
    desc: StoredDescent,
    top: int,
    first: LayerState,
    chain: Seq<LayerState>,
    loaded: Seq<Handle>,
    found: Seq<Vec<Candidate>>,
) -> bool {
    &&& desc.is_descent(top, first, chain)
    &&& chain.len() == top + 2
    &&& chain.last().loaded == loaded
    &&& forall|j: int|
        #![trigger chain[j]]
        0 <= j < chain.len() ==> is_start_of(chain[j].loaded, loaded)
    &&& found.len() == 1 + if desc.level < top {
        desc.level
    } else {
        top
    }
    &&& desc.are_found(top, chain, 0, found)
}

/// Whether the way down from the entry point fails, at the layer that comes
/// after the states `chain`.
pub open spec fn is_failure(
    desc: StoredDescent,
    top: int,
    first: LayerState,
    chain: Seq<LayerState>,
    e: WalkError,
) -> bool {
    &&& desc.is_descent(top, first, chain)
    &&& chain.len() <= top + 1
    &&& desc.fails_at(top - chain.len() + 1, chain.last(), e)
}

/// Whether `r` is what the way down from the state `first` at layer `top` leads
/// to, with the elements `loaded` in the end.
pub open spec fn leads_to(
    desc: StoredDescent,
    top: int,
    first: LayerState,
    loaded: Seq<Handle>,
    r: Result<Vec<Vec<Candidate>>, WalkError>,
) -> bool {
    match r {
        Ok(found) => exists|chain: Seq<LayerState>| #[trigger]
            is_outcome(desc, top, first, chain, loaded, found@),
        Err(e) => exists|chain: Seq<LayerState>| #[trigger]
            is_failure(desc, top, first, chain, e),
    }
}

/// The element stored at the entry point, where it can be loaded.
pub open spec fn entry_tuple(pages: Seq<StoredPage>, tid: ItemPointer) -> Result<
    ElementTuple,
    WalkError,
> {
    match stored::item_at(pages, tid) {
        Some(PageItem::Element { tuple }) => if tuple.deleted != 0 {
            Err(WalkError::Deleted)
        } else {
            Ok(tuple)
        },
        _ => Err(WalkError::Missing),
    }
}

proof fn lemma_start_of(a: Seq<Handle>, b: Seq<Handle>, c: Seq<Handle>)
    requires
        is_start_of(a, b),
        is_start_of(b, c),
    ensures
        is_start_of(a, c),
{
    assert forall|i: int| 0 <= i < a.len() implies c[i] == a[i] by {
        assert(b.take(a.len() as int)[i] == a[i]);
        assert(c.take(b.len() as int)[i] == b[i]);
    }
    assert(c.take(a.len() as int) =~= a);
}

proof fn lemma_loaded_more(a: Seq<Element>, b: Seq<Element>)
    requires
        a.len() <= b.len(),
        b.take(a.len() as int) == a,
    ensures
        is_start_of(stored_search::handles(a), stored_search::handles(b)),
{
    let x = stored_search::handles(a);
    let y = stored_search::handles(b);
    assert forall|i: int| 0 <= i < x.len() implies y[i] == x[i] by {
        assert(b.take(a.len() as int)[i] == a[i]);
    }
    assert(y.take(x.len() as int) =~= x);
}

/// One more layer was searched.
proof fn lemma_descent_step(
    desc: StoredDescent,
    top: int,
    first: LayerState,
    chain: Seq<LayerState>,
    s: LayerState,
)
    requires
        desc.is_descent(top, first, chain),
        desc.is_searched(top - chain.len() + 1, chain.last(), s),
        forall|j: int|
            #![trigger chain[j]]
            0 <= j < chain.len() ==> is_start_of(chain[j].loaded, chain.last().loaded),
        is_start_of(chain.last().loaded, s.loaded),
    ensures
        desc.is_descent(top, first, chain.push(s)),
        forall|j: int|
            #![trigger chain.push(s)[j]]
            0 <= j <= chain.len() ==> is_start_of(chain.push(s)[j].loaded, s.loaded),
{
    let more = chain.push(s);
    assert forall|j: int| #![trigger more[j]] 0 < j < more.len() implies desc.is_searched(
        top - j + 1,
        more[j - 1],
        more[j],
    ) by {
        if j < chain.len() {
            assert(more[j] == chain[j] && more[j - 1] == chain[j - 1]);
        } else {
            assert(more[j - 1] == chain.last());
        }
    }
    assert forall|j: int| #![trigger more[j]] 0 <= j < more.len() implies is_start_of(
        more[j].loaded,
        s.loaded,
    ) by {
        if j < chain.len() {
            assert(more[j] == chain[j]);
            lemma_start_of(chain[j].loaded, chain.last().loaded, s.loaded);
        } else {
            assert(s.loaded.take(s.loaded.len() as int) =~= s.loaded);
        }
    }
}

/// The neighbors at one more layer were chosen, or none at layers above the
/// element's.
proof fn lemma_found_step(
    desc: StoredDescent,
    top: int,
    chain: Seq<LayerState>,
    s: LayerState,
    from: int,
    found: Seq<Vec<Candidate>>,
    chosen: Vec<Candidate>,
)
    requires
        chain.len() == top + 2 - from,
        0 < from <= top + 1,
        found.len() <= top + 1 - from,
        desc.are_found(top, chain, from, found),
        desc.is_layer_found(from - 1, s, chosen@),
    ensures
        desc.are_found(top, chain.push(s), from - 1, found.insert(0, chosen)),
{
    let more = chain.push(s);
    let all = found.insert(0, chosen);
    assert forall|i: int| #![trigger all[i]] 0 <= i < all.len() implies desc.is_layer_found(
        from - 1 + i,
        more[top - (from - 1 + i) + 1],
        all[i]@,
    ) by {
        if i > 0 {
            assert(all[i] == found[i - 1]);
            assert(from + (i - 1) == from - 1 + i);
            assert(more[top - (from - 1 + i) + 1] == chain[top - (from + (i - 1)) + 1]);
        } else {
            assert(all[0] == chosen);
            assert(more[top - (from - 1) + 1] == s);
        }
    }
}

/// Find the neighbors of an element of `level` at each of its layers that the
/// graph has: search the stored graph down from the entry point, and choose
/// among what is found at each layer.  `skip` is where the element itself is
/// stored, where it is: elements without a row then do not count as results, and
/// one more is looked for.  The element itself and elements without a row can
/// help with the search, but are not chosen.  Elements are loaded into the
/// arena, which the candidates refer to.
pub fn find_stored_neighbors<
    F: Fn(&Vec<u8>) -> i32,
    G: Fn(&Vec<u8>, &Vec<u8>) -> i32,
>(
    graph: &StoredGraph,
    level: usize,
    entry_point: ItemPointer,
    distance: &F,
    pair: &G,
    ef_construction: usize,
    skip: Option<ItemPointer>,
    arena: &mut ElementArena,
) -> (r: Result<Vec<Vec<Candidate>>, WalkError>)
    requires
        stored_search::is_distance(*distance, graph.pages@),
        is_pair_distance(*pair),
        graph.m <= 0xffff,
        ef_construction < usize::MAX,
    ensures
        final(arena).elements@.len() >= old(arena).elements@.len(),
        final(arena).elements@.take(old(arena).elements@.len() as int) == old(arena).elements@,
        entry_tuple(graph.pages@, entry_point) matches Err(e) ==> r == Err::<
            Vec<Vec<Candidate>>,
            WalkError,
        >(e),
        entry_tuple(graph.pages@, entry_point) matches Ok(t) ==> leads_to(
            descent_of(*graph, *distance, *pair, level, ef_construction, skip),
            t.level as int,
            descent_of(*graph, *distance, *pair, level, ef_construction, skip).at_entry(
                stored_search::handles(old(arena).elements@),
                entry_point,
                t,
            ),
            stored_search::handles(final(arena).elements@),
            r,
        ),
{
    let ghost desc = descent_of(*graph, *distance, *pair, level, ef_construction, skip);
    let ghost old_elements = arena.elements@;
    let ghost loaded0 = stored_search::handles(arena.elements@);
    let tuple: &ElementTuple = match graph.find_item(entry_point) {
        Some(PageItem::Element { tuple }) => tuple,
        _ => {
            assert(arena.elements@.take(old_elements.len() as int) =~= old_elements);
            return Err(WalkError::Missing);
        },
    };
    let d: i32 = distance(&tuple.vector);
    assert(d == (desc.dist)(tuple.vector));
    let place: usize = match load_element_impl(arena, entry_point, tuple, Some(d), None, true) {
        Ok(Some(place)) => place,
        _ => {
            assert(arena.elements@.take(old_elements.len() as int) =~= old_elements);
            return Err(WalkError::Deleted);
        },
    };
    let top: usize = tuple.level as usize;
    let mut ep: Vec<SearchCandidate> = Vec::new();
    ep.push(SearchCandidate { element: place, distance: d, key: types::pack_tid(entry_point) });
    let ghost first = desc.at_entry(loaded0, entry_point, *tuple);
    let ghost mut chain: Seq<LayerState> = seq![first];
    let skipping: bool = skip.is_some();
    let ef: usize = match skip {
        Some(_) => ef_construction + 1,
        None => ef_construction,
    };
    let mut v: Visited = Visited::new(0);
    let mut found: Vec<Vec<Candidate>> = Vec::new();
    let mut todo: usize = top + 1;
    proof {
        let all = arena.elements@;
        assert(ep@ =~= first.ep);
        assert(stored_search::handles(all) =~= first.loaded) by {
            assert forall|k: int| 0 <= k < all.len() implies #[trigger] stored_search::handles(
                all,
            )[k] == first.loaded[k] by {
                if k < old_elements.len() {
                    assert(all.drop_last()[k] == old_elements[k]);
                }
            }
        }
        assert(all.take(old_elements.len() as int) =~= old_elements) by {
            assert(all.drop_last() == old_elements);
        }
        assert(first.loaded.take(first.loaded.len() as int) =~= first.loaded);
        assert(desc.is_descent(top as int, first, chain));
    }
    while todo > 0
        invariant
            desc == descent_of(*graph, *distance, *pair, level, ef_construction, skip),
            stored_search::is_distance(*distance, graph.pages@),
            is_pair_distance(*pair),
            graph.m <= 0xffff,
            top <= u8::MAX,
            todo <= top + 1,
            skipping == (skip is Some),
            ef == if skip is Some {
                ef_construction + 1
            } else {
                ef_construction as int
            },
            entry_tuple(graph.pages@, entry_point) == Ok::<ElementTuple, WalkError>(*tuple),
            top == tuple.level,
            old_elements == old(arena).elements@,
            first == desc.at_entry(
                stored_search::handles(old(arena).elements@),
                entry_point,
                *tuple,
            ),
            arena.elements@.len() >= old_elements.len(),
            arena.elements@.take(old_elements.len() as int) == old_elements,
            chain.len() == top + 2 - todo,
            desc.is_descent(top as int, first, chain),
            chain.last().ep == ep@,
            chain.last().loaded == stored_search::handles(arena.elements@),
            forall|j: int|
                #![trigger chain[j]]
                0 <= j < chain.len() ==> is_start_of(chain[j].loaded, chain.last().loaded),
            todo > 0 ==> stored_search::are_loaded(
                ep@,
                stored_search::handles(arena.elements@),
                todo - 1,
            ),
            ep@.len() <= arena.elements@.len(),
            ep@.len() <= 1 + (top + 1 - todo) * 0x1_0000_0000_0000,
            found@.len() == if todo > level {
                0
            } else if top < level {
                top + 1 - todo
            } else {
                level + 1 - todo
            },
            desc.are_found(top as int, chain, todo as int, found@),
        decreases todo,
    {
        let lc: usize = todo - 1;
        let this_ef: usize = if lc > level {
            1
        } else {
            ef
        };
        let ghost before = chain.last();
        let ghost prior = arena.elements@;
        let ghost seen = v@;
        let ghost task = desc.task(lc as int);
        proof {
            assert(task == stored_search::task_of(
                *graph,
                *distance,
                this_ef,
                lc,
                skipping,
                false,
                true,
            ));
            assert(task.start(before.loaded, before.ep, seen, true) == task.start(
                before.loaded,
                before.ep,
                Set::empty(),
                true,
            ));
            assert((top + 1 - todo) * 0x1_0000_0000_0000 <= 256 * 0x1_0000_0000_0000);
        }
        match search_layer(
            graph,
            distance,
            &ep,
            this_ef,
            lc,
            skipping,
            &mut v,
            false,
            true,
            arena,
            true,
        ) {
            Err(e) => {
                proof {
                    stored_search::lemma_prefix(arena.elements@, prior, old_elements);
                    assert(desc.fails_at(lc as int, before, e));
                    assert(is_failure(desc, top as int, first, chain, e));
                }
                return Err(e);
            },
            Ok(result) => {
                let ghost s = LayerState {
                    ep: result.w@,
                    loaded: stored_search::handles(arena.elements@),
                };
                proof {
                    stored_search::lemma_prefix(arena.elements@, prior, old_elements);
                    lemma_loaded_more(prior, arena.elements@);
                    assert(desc.is_searched(lc as int, before, s));
                    lemma_descent_step(desc, top as int, first, chain, s);
                }
                ep = result.w;
                if lc <= level {
                    assert forall|i: int| #![trigger ep@[i]] 0 <= i < ep@.len() implies ep@[i].element
                        < arena.elements@.len() by {
                        assert(ep@[i].element < stored_search::handles(arena.elements@).len());
                    }
                    let ghost found0 = found@;
                    let chosen: Vec<Candidate> = choose_stored_neighbors(
                        &ep,
                        arena,
                        skip,
                        graph.m,
                        lc,
                        pair,
                        Ghost(desc),
                    );
                    proof {
                        lemma_found_step(desc, top as int, chain, s, todo as int, found0, chosen);
                    }
                    found.insert(0, chosen);
                }
                proof {
                    chain = chain.push(s);
                    if lc > 0 {
                        let loaded = stored_search::handles(arena.elements@);
                        assert forall|i: int| #![trigger ep@[i]] 0 <= i
                            < ep@.len() implies ep@[i].element < loaded.len()
                            && loaded[ep@[i].element as int].level >= lc - 1 by {}
                    }
                }
            },
        }
        todo = lc;
    }
    let r: Result<Vec<Vec<Candidate>>, WalkError> = Ok(found);
    assert(is_outcome(
        desc,
        top as int,
        first,
        chain,
        stored_search::handles(arena.elements@),
        r->Ok_0@,
    ));
    r
}

/// Whether each of the loaded elements is stored where it says, was not deleted,
/// and is what is stored there.
pub open spec fn are_from_pages(pages: Seq<StoredPage>, loaded: Seq<Handle>) -> bool {
    forall|i: int|
        #![trigger loaded[i]]
        0 <= i < loaded.len() ==> (entry_tuple(pages, loaded[i].tid) matches Ok(t) && loaded[i]
            == stored_search::handle_at(loaded[i].tid, t, true))
}

proof fn lemma_offered_from_pages(
    task: StoredTask,
    p: StoredProgress,
    u: Seq<ItemPointer>,
)
    requires
        task.load_vec,
        are_from_pages(task.pages, p.loaded),
        task.offered_each(p, u) is Ok,
    ensures
        are_from_pages(task.pages, task.offered_each(p, u)->Ok_0.loaded),
    decreases u.len(),
{
    if u.len() > 0 {
        lemma_offered_from_pages(task, p, u.drop_last());
        let q = task.offered_each(p, u.drop_last())->Ok_0;
        let r = task.offered_each(p, u)->Ok_0;
        assert forall|i: int| #![trigger r.loaded[i]] 0 <= i < r.loaded.len() implies (entry_tuple(
            task.pages,
            r.loaded[i].tid,
        ) matches Ok(t) && r.loaded[i] == stored_search::handle_at(r.loaded[i].tid, t, true)) by {
            if i < q.loaded.len() {
                assert(r.loaded[i] == q.loaded[i]);
            }
        }
    }
}

proof fn lemma_progress_from_pages(task: StoredTask, start: StoredProgress, k: nat)
    requires
        task.load_vec,
        are_from_pages(task.pages, start.loaded),
        task.progress(start, k) is Ok,
    ensures
        are_from_pages(task.pages, task.progress(start, k)->Ok_0.loaded),
    decreases k,
{
    if k > 0 {
        lemma_progress_from_pages(task, start, (k - 1) as nat);
        let p = task.progress(start, (k - 1) as nat)->Ok_0;
        let x = p.loaded[p.frontier.c.last().element as int];
        let u = tuple::unseen_tids(task.neighbors(x)->0, p.visited);
        let mid = StoredProgress {
            frontier: Frontier { c: p.frontier.c.drop_last(), ..p.frontier },
            visited: stored_search::marked(p.visited, u),
            loaded: p.loaded,
            tuples: p.tuples + u.len(),
        };
        assert(task.expanded(p) == task.offered_each(mid, u));
        lemma_offered_from_pages(task, mid, u);
    }
}

/// What is loaded on the way down is what is stored: every element that was
/// loaded is as the pages have it, and none of them was deleted.
pub proof fn law_loaded_elements_are_stored_ones(
    desc: StoredDescent,
    top: int,
    first: LayerState,
    chain: Seq<LayerState>,
    j: int,
)
    requires
        desc.is_descent(top, first, chain),
        are_from_pages(desc.pages, first.loaded),
        0 <= j < chain.len(),
    ensures
        are_from_pages(desc.pages, chain[j].loaded),
    decreases j,
{
    if j > 0 {
        law_loaded_elements_are_stored_ones(desc, top, first, chain, j - 1);
        let lc = top - j + 1;
        let task = desc.task(lc);
        let before = chain[j - 1];
        let start = task.start(before.loaded, before.ep, Set::empty(), true);
        assert(desc.is_searched(lc, before, chain[j]));
        let k = choose|k: nat|
            {
                &&& #[trigger] task.ends_after(start, k)
                &&& chain[j].ep == task.progress(start, k)->Ok_0.frontier.w.reverse()
                &&& chain[j].loaded == task.progress(start, k)->Ok_0.loaded
            };
        lemma_progress_from_pages(task, start, k);
    }
}

} // verus!
