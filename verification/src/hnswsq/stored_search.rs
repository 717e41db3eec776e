//! Search of one layer of a stored graph.
use crate::hnswsq::layer_search;
use crate::hnswsq::layer_search::{Frontier, LayerSearch, SearchCandidate};
use crate::hnswsq::memory::ElementArena;
use crate::hnswsq::params;
use crate::hnswsq::stored;
use crate::hnswsq::stored::{StoredGraph, StoredPage, WalkError};
use crate::hnswsq::tuple;
use crate::hnswsq::tuple::{ElementTuple, LoadError};
use crate::hnswsq::types;
use crate::hnswsq::types::{Element, NeighborArray, Visited};
use crate::hnswsq::vacuum;
use crate::hnswsq::vacuum::PageItem;
use crate::util::item_pointer::ItemPointer;
use vstd::prelude::*;

verus! {

/// What is known of an element that was loaded.
#[verifier::ext_equal]
pub struct Handle {
    pub tid: ItemPointer,
    pub level: u8,
    pub deleted: u8,
    pub version: u8,
    pub clamped: u8,
    /// Where its neighbors are stored.
    pub neighbors: ItemPointer,
    /// Its row, where it has one.
    pub row: Option<ItemPointer>,
    /// Its encoded vector, or nothing where that was not loaded.
    pub vector: Seq<u8>,
    /// Its neighbors at each layer, as far as they are in memory.
    pub layers: Seq<NeighborArray>,
}

impl Handle {
    /// Whether the element has a row.
    pub open spec fn has_row(self) -> bool {
        self.row is Some
    }
}

/// What is known of `e`.
pub open spec fn handle_of(e: Element) -> Handle {
    Handle {
        tid: tuple::address_of(e),
        level: e.level,
        deleted: e.deleted,
        version: e.version,
        clamped: e.clamped,
        neighbors: ItemPointer { block_number: e.neighbor_page, offset: e.neighbor_offno },
        row: if e.heaptid_set {
            Some(e.heaptid)
        } else {
            None
        },
        vector: e.value@,
        layers: e.neighbors@,
    }
}

/// What is known of the element stored at `tid` once it was loaded, with its
/// vector where `load_vec`.
pub open spec fn handle_at(tid: ItemPointer, t: ElementTuple, load_vec: bool) -> Handle {
    Handle {
        tid,
        level: t.level,
        deleted: t.deleted,
        version: t.version,
        clamped: t.clamped,
        neighbors: t.neighbortid,
        row: if vacuum::has_block(t.heaptid) {
            Some(t.heaptid)
        } else {
            None
        },
        vector: if load_vec {
            t.vector@
        } else {
            Seq::empty()
        },
        layers: Seq::empty(),
    }
}

/// The handles of all loaded elements.
pub open spec fn handles(elements: Seq<Element>) -> Seq<Handle> {
    elements.map_values(|e: Element| handle_of(e))
}

/// What a deterministic function returns for a vector.
pub open spec fn distance_to<F: Fn(&Vec<u8>) -> i32>(f: F) -> spec_fn(Vec<u8>) -> i32 {
    |bytes: Vec<u8>| choose|d: i32| call_ensures(f, (&bytes,), d)
}

/// Whether `f` can be called on the vector of every stored element and is
/// deterministic.
pub open spec fn is_distance<F: Fn(&Vec<u8>) -> i32>(f: F, pages: Seq<StoredPage>) -> bool {
    &&& forall|p: int, i: int|
        #![trigger pages[p].items@[i]]
        stored::is_place(pages, p, i) && pages[p].items@[i] is Element ==> call_requires(
            f,
            (&pages[p].items@[i]->Element_tuple.vector,),
        )
    &&& forall|bytes: Vec<u8>, d1: i32, d2: i32|
        #![trigger call_ensures(f, (&bytes,), d1), call_ensures(f, (&bytes,), d2)]
        call_ensures(f, (&bytes,), d1) && call_ensures(f, (&bytes,), d2) ==> d1 == d2
}

/// Where a search stands: its candidates, what it has visited, the elements
/// that it has loaded, and how many it has met.
pub struct StoredProgress {
    pub frontier: Frontier,
    pub visited: Set<u64>,
    pub loaded: Seq<Handle>,
    pub tuples: int,
}

/// The search of layer `lc` of a stored graph for the `ef` nearest elements.
pub struct StoredTask {
    pub pages: Seq<StoredPage>,
    pub m: int,
    pub dist: spec_fn(Vec<u8>) -> i32,
    pub ef: int,
    pub lc: int,
    /// Whether elements without a row do not count towards `ef`.
    pub skipping: bool,
    /// Whether those that are turned away are kept.
    pub track: bool,
    /// Whether elements are loaded with their vectors.
    pub load_vec: bool,
}

impl StoredTask {
    /// The candidates once the entry points were added.
    pub open spec fn entered(self, loaded: Seq<Handle>, ep: Seq<SearchCandidate>) -> Frontier
        decreases ep.len(),
    {
        if ep.len() == 0 {
            Frontier { c: Seq::empty(), w: Seq::empty(), wlen: 0, discarded: Seq::empty() }
        } else {
            self.entered(loaded, ep.drop_last()).after_entry(
                ep.last(),
                !self.skipping || loaded[ep.last().element as int].has_row(),
            )
        }
    }

    /// Where a search starts.
    pub open spec fn start(
        self,
        loaded: Seq<Handle>,
        ep: Seq<SearchCandidate>,
        seen: Set<u64>,
        init_visited: bool,
    ) -> StoredProgress {
        StoredProgress {
            frontier: self.entered(loaded, ep),
            visited: if init_visited {
                entry_keys(loaded, ep)
            } else {
                seen
            },
            loaded,
            tuples: if init_visited {
                ep.len() as int
            } else {
                0
            },
        }
    }

    /// The neighbors at the layer of an element that was loaded: none where its
    /// list was replaced since then, and nothing where it has no list.
    pub open spec fn neighbors(self, x: Handle) -> Option<Seq<ItemPointer>> {
        match stored::item_at(self.pages, x.neighbors) {
            Some(PageItem::Neighbors { tuple }) => Some(
                if tuple.version == x.version && tuple.count() == (x.level + 2) * self.m {
                    let place = tuple::layer_place(x.level as int, self.m, self.lc);
                    let layer = tuple.tids@.subrange(
                        place,
                        place + params::layer_m(self.m, self.lc),
                    );
                    layer.take(tuple::valid_prefix(layer))
                } else {
                    Seq::empty()
                },
            ),
            _ => None,
        }
    }

    /// After the element at `tid` was offered: it is not even loaded where it
    /// would be turned away and those are not kept.
    pub open spec fn offered(self, p: StoredProgress, tid: ItemPointer) -> Result<
        StoredProgress,
        WalkError,
    > {
        match stored::item_at(self.pages, tid) {
            Some(PageItem::Element { tuple }) => {
                let d = (self.dist)(tuple.vector);
                if tuple.deleted != 0 {
                    Err(WalkError::Deleted)
                } else if !self.track && p.frontier.wlen >= self.ef && d
                    >= p.frontier.w.last().distance {
                    Ok(p)
                } else {
                    Ok(
                        StoredProgress {
                            frontier: p.frontier.after_offer(
                                self.ef,
                                SearchCandidate {
                                    element: p.loaded.len() as usize,
                                    distance: d,
                                    key: types::tid_key(tid) as u64,
                                },
                                tuple.level >= self.lc,
                                !self.skipping || vacuum::has_block(tuple.heaptid),
                            ),
                            loaded: p.loaded.push(handle_at(tid, tuple, self.load_vec)),
                            ..p
                        },
                    )
                }
            },
            _ => Err(WalkError::Missing),
        }
    }

    /// After the elements at `u` were offered, one by one.
    pub open spec fn offered_each(self, p: StoredProgress, u: Seq<ItemPointer>) -> Result<
        StoredProgress,
        WalkError,
    >
        decreases u.len(),
    {
        if u.len() == 0 {
            Ok(p)
        } else {
            match self.offered_each(p, u.drop_last()) {
                Ok(q) => self.offered(q, u.last()),
                Err(e) => Err(e),
            }
        }
    }

    /// After the nearest candidate was expanded: those of its neighbors that
    /// were not visited yet were offered.
    pub open spec fn expanded(self, p: StoredProgress) -> Result<StoredProgress, WalkError> {
        let x = p.loaded[p.frontier.c.last().element as int];
        match self.neighbors(x) {
            Some(all) => {
                let u = tuple::unseen_tids(all, p.visited);
                self.offered_each(
                    StoredProgress {
                        frontier: Frontier { c: p.frontier.c.drop_last(), ..p.frontier },
                        visited: marked(p.visited, u),
                        loaded: p.loaded,
                        tuples: p.tuples + u.len(),
                    },
                    u,
                )
            },
            None => Err(WalkError::Missing),
        }
    }

    /// Where a search stands after `k` expansions.
    pub open spec fn progress(self, start: StoredProgress, k: nat) -> Result<
        StoredProgress,
        WalkError,
    >
        decreases k,
    {
        if k == 0 {
            Ok(start)
        } else {
            match self.progress(start, (k - 1) as nat) {
                Ok(p) => self.expanded(p),
                Err(e) => Err(e),
            }
        }
    }

    /// Whether the search goes on after `k` expansions.
    pub open spec fn goes_on(self, start: StoredProgress, k: nat) -> bool {
        self.progress(start, k) is Ok && !self.progress(start, k)->Ok_0.frontier.is_over()
    }

    /// Whether the search is over after `k` expansions, and not before.
    pub open spec fn ends_after(self, start: StoredProgress, k: nat) -> bool {
        &&& self.progress(start, k) is Ok
        &&& self.progress(start, k)->Ok_0.frontier.is_over()
        &&& forall|j: nat| j < k ==> #[trigger] self.goes_on(start, j)
    }

    /// Whether the search fails in expansion `k`, and not before.
    pub open spec fn fails_after(self, start: StoredProgress, k: nat, e: WalkError) -> bool {
        &&& self.progress(start, k) == Err::<StoredProgress, WalkError>(e)
        &&& forall|j: nat| j < k ==> #[trigger] self.goes_on(start, j)
    }
}

/// The keys of the entry points.
pub open spec fn entry_keys(loaded: Seq<Handle>, ep: Seq<SearchCandidate>) -> Set<u64> {
    Set::new(
        |key: u64|
            exists|i: int|
                0 <= i < ep.len() && types::tid_key(
                    loaded[(#[trigger] ep[i]).element as int].tid,
                ) == key,
    )
}

/// `visited` with the addresses `u`.
pub open spec fn marked(visited: Set<u64>, u: Seq<ItemPointer>) -> Set<u64> {
    Set::new(
        |key: u64|
            visited.contains(key) || exists|i: int|
                0 <= i < u.len() && types::tid_key(#[trigger] u[i]) == key,
    )
}

/// Whether the candidates are elements that were loaded and lie on the layer.
pub open spec fn are_loaded(c: Seq<SearchCandidate>, loaded: Seq<Handle>, lc: int) -> bool {
    forall|i: int|
        #![trigger c[i]]
        0 <= i < c.len() ==> c[i].element < loaded.len() && loaded[c[i].element as int].level >= lc
}

/// A search ends in one way: it does not both succeed and fail, and there is
/// one outcome.
pub proof fn law_stored_search_ends_in_one_way(
    task: StoredTask,
    start: StoredProgress,
    j: nat,
    k: nat,
)
    requires
        task.ends_after(start, k),
    ensures
        task.ends_after(start, j) ==> j == k,
        forall|e: WalkError| !#[trigger] task.fails_after(start, j, e),
{
    if task.ends_after(start, j) && j != k {
        if j < k {
            assert(task.goes_on(start, j));
        } else {
            assert(task.goes_on(start, k));
        }
    }
    assert forall|e: WalkError| !#[trigger] task.fails_after(start, j, e) by {
        if task.fails_after(start, j, e) {
            if k < j {
                assert(task.goes_on(start, k));
            } else if j < k {
                assert(task.goes_on(start, j));
            }
        }
    }
}

/// Load the element at `tid` into the arena, unless it lies too far; returns its
/// place.  A deleted one is an error.
pub fn load_element_impl(
    arena: &mut ElementArena,
    tid: ItemPointer,
    tuple: &ElementTuple,
    distance: Option<i32>,
    max_distance: Option<i32>,
    load_vec: bool,
) -> (r: Result<Option<usize>, LoadError>)
    ensures
        r is Err <==> tuple.deleted != 0,
        r matches Ok(place) ==> {
            &&& place is Some <==> tuple::is_admitted(distance, max_distance)
            &&& place is Some ==> {
                &&& place->0 == old(arena).elements@.len()
                &&& final(arena).elements@.len() == old(arena).elements@.len() + 1
                &&& final(arena).elements@.drop_last() == old(arena).elements@
                &&& handle_of(final(arena).elements@.last()) == handle_at(tid, *tuple, load_vec)
            }
        },
        r is Err || r->Ok_0 is None ==> final(arena).elements@ == old(arena).elements@,
{
    let mut e: Element = types::init_element_from_block(tid.block_number, tid.offset);
    match tuple::load_element(&mut e, tuple, distance, max_distance, load_vec) {
        Err(error) => Err(error),
        Ok(admitted) => {
            if admitted {
                let place: usize = arena.elements.len();
                arena.elements.push(e);
                assert(arena.elements@.drop_last() =~= old(arena).elements@);
                assert(handle_of(arena.elements@.last()) =~= handle_at(tid, *tuple, load_vec));
                Ok(Some(place))
            } else {
                Ok(None)
            }
        },
    }
}

proof fn lemma_failed(task: StoredTask, p: StoredProgress, u: Seq<ItemPointer>, i: int, e: WalkError)
    requires
        0 <= i <= u.len(),
        task.offered_each(p, u.take(i)) == Err::<StoredProgress, WalkError>(e),
    ensures
        task.offered_each(p, u) == Err::<StoredProgress, WalkError>(e),
    decreases u.len() - i,
{
    if i < u.len() {
        assert(u.take(i + 1).drop_last() =~= u.take(i));
        lemma_failed(task, p, u, i + 1, e);
    } else {
        assert(u.take(i) =~= u);
    }
}

proof fn lemma_with_one(
    c: Seq<SearchCandidate>,
    sc: SearchCandidate,
    next: Seq<SearchCandidate>,
    loaded: Seq<Handle>,
    lc: int,
)
    requires
        layer_search::with_one(c, sc, next),
        are_loaded(c, loaded, lc),
        sc.element < loaded.len(),
        loaded[sc.element as int].level >= lc,
    ensures
        are_loaded(next, loaded, lc),
{
    let p = choose|p: int| 0 <= p <= c.len() && next == #[trigger] c.insert(p, sc);
    assert forall|i: int| #![trigger next[i]] 0 <= i < next.len() implies next[i].element
        < loaded.len() && loaded[next[i].element as int].level >= lc by {
        if i < p {
            assert(next[i] == c[i]);
        } else if i > p {
            assert(next[i] == c[i - 1]);
        }
    }
}

proof fn lemma_more_loaded(
    c: Seq<SearchCandidate>,
    loaded: Seq<Handle>,
    h: Handle,
    lc: int,
)
    requires
        are_loaded(c, loaded, lc),
    ensures
        are_loaded(c, loaded.push(h), lc),
{
    assert forall|i: int| #![trigger c[i]] 0 <= i < c.len() implies c[i].element < loaded.push(
        h,
    ).len() && loaded.push(h)[c[i].element as int].level >= lc by {
        assert(c[i].element < loaded.len() && loaded[c[i].element as int].level >= lc);
    }
}

proof fn lemma_took_up(
    before: LayerSearch,
    sc: SearchCandidate,
    has_row: bool,
    after: LayerSearch,
    loaded: Seq<Handle>,
    lc: int,
)
    requires
        layer_search::took_up(
            before.w@,
            sc,
            before.counts(has_row) && before.wlen + 1 > before.ef,
            after.w@,
            before.discarded@,
            after.discarded@,
            before.track_discarded,
        ),
        are_loaded(before.w@, loaded, lc),
        sc.element < loaded.len(),
        loaded[sc.element as int].level >= lc,
    ensures
        are_loaded(after.w@, loaded, lc),
        after.w@.len() <= before.w@.len() + 1,
{
    let grown = choose|grown: Seq<SearchCandidate>|
        {
            &&& #[trigger] layer_search::with_one(before.w@, sc, grown)
            &&& layer_search::ascending(grown)
            &&& after.w@ == if before.counts(has_row) && before.wlen + 1 > before.ef {
                grown.drop_last()
            } else {
                grown
            }
        };
    lemma_with_one(before.w@, sc, grown, loaded, lc);
    assert forall|i: int| #![trigger after.w@[i]] 0 <= i < after.w@.len() implies after.w@[i].element
        < loaded.len() && loaded[after.w@[i].element as int].level >= lc by {
        assert(after.w@[i] == grown[i]);
    }
}

/// Offer the elements at all of `u`.
fn offer_all<F: Fn(&Vec<u8>) -> i32>(
    graph: &StoredGraph,
    distance: &F,
    u: &Vec<ItemPointer>,
    load_vec: bool,
    s: &mut LayerSearch,
    arena: &mut ElementArena,
    Ghost(task): Ghost<StoredTask>,
    Ghost(p): Ghost<StoredProgress>,
) -> (r: Result<(), WalkError>)
    requires
        is_distance(*distance, graph.pages@),
        task.pages == graph.pages@,
        task.dist == distance_to(*distance),
        task.ef == old(s).ef,
        task.lc == old(s).lc,
        task.skipping == old(s).skipping,
        task.track == old(s).track_discarded,
        task.load_vec == load_vec,
        old(s).wf(),
        old(s).w@.len() > 0,
        old(s).is_at(p.frontier),
        handles(old(arena).elements@) == p.loaded,
        are_loaded(old(s).c@, p.loaded, task.lc),
        are_loaded(old(s).w@, p.loaded, task.lc),
        old(s).wlen <= old(arena).elements@.len(),
        old(s).w@.len() <= old(arena).elements@.len(),
    ensures
        final(s).wf(),
        0 < final(s).w@.len() <= old(s).w@.len() + u@.len(),
        final(s).w@.len() <= final(arena).elements@.len(),
        final(s).same_task(old(s)),
        final(arena).elements@.len() >= old(arena).elements@.len(),
        final(arena).elements@.take(old(arena).elements@.len() as int) == old(arena).elements@,
        final(s).wlen <= final(arena).elements@.len(),
        r is Ok ==> task.offered_each(p, u@) is Ok && ({
            let q = task.offered_each(p, u@)->Ok_0;
            &&& final(s).is_at(q.frontier)
            &&& handles(final(arena).elements@) == q.loaded
            &&& q.visited == p.visited
            &&& q.tuples == p.tuples
            &&& are_loaded(final(s).c@, q.loaded, task.lc)
            &&& are_loaded(final(s).w@, q.loaded, task.lc)
        }),
        r matches Err(e) ==> task.offered_each(p, u@) == Err::<StoredProgress, WalkError>(e),
        u@.len() == 0 ==> final(s).c@ == old(s).c@,
{
    let ghost first = arena.elements@;
    let mut i: usize = 0;
    assert(arena.elements@.take(first.len() as int) =~= first);
    while i < u.len()
        invariant
            i <= u@.len(),
            is_distance(*distance, graph.pages@),
            task.pages == graph.pages@,
            task.dist == distance_to(*distance),
            task.ef == s.ef,
            task.lc == s.lc,
            task.skipping == s.skipping,
            task.track == s.track_discarded,
            task.load_vec == load_vec,
            s.wf(),
            0 < s.w@.len() <= old(s).w@.len() + i,
            s.w@.len() <= arena.elements@.len(),
            s.same_task(old(s)),
            first == old(arena).elements@,
            arena.elements@.len() >= first.len(),
            arena.elements@.take(first.len() as int) == first,
            s.wlen <= arena.elements@.len(),
            task.offered_each(p, u@.take(i as int)) is Ok,
            s.is_at(task.offered_each(p, u@.take(i as int))->Ok_0.frontier),
            handles(arena.elements@) == task.offered_each(p, u@.take(i as int))->Ok_0.loaded,
            task.offered_each(p, u@.take(i as int))->Ok_0.visited == p.visited,
            task.offered_each(p, u@.take(i as int))->Ok_0.tuples == p.tuples,
            are_loaded(
                s.c@,
                task.offered_each(p, u@.take(i as int))->Ok_0.loaded,
                task.lc,
            ),
            are_loaded(
                s.w@,
                task.offered_each(p, u@.take(i as int))->Ok_0.loaded,
                task.lc,
            ),
            i == 0 ==> s.c@ == old(s).c@,
        decreases u@.len() - i,
    {
        let tid: ItemPointer = u[i];
        let ghost q = task.offered_each(p, u@.take(i as int))->Ok_0;
        let ghost before = *s;
        let ghost elements = arena.elements@;
        proof {
            assert(u@.take(i + 1).drop_last() =~= u@.take(i as int));
            assert(u@.take(i + 1).last() == tid);
        }
        match graph.find_item(tid) {
            Some(PageItem::Element { tuple }) => {
                let d: i32 = distance(&tuple.vector);
                assert(d == (task.dist)(tuple.vector));
                let max: Option<i32> = s.max_distance();
                match load_element_impl(arena, tid, tuple, Some(d), max, load_vec) {
                    Err(_) => {
                        proof {
                            lemma_failed(task, p, u@, i + 1, WalkError::Deleted);
                        }
                        return Err(WalkError::Deleted);
                    },
                    Ok(None) => {
                        assert(arena.elements@ == elements);
                    },
                    Ok(Some(place)) => {
                        let sc: SearchCandidate = SearchCandidate {
                            element: place,
                            distance: d,
                            key: types::pack_tid(tid),
                        };
                        let ghost h = handle_at(tid, *tuple, load_vec);
                        proof {
                            assert(handles(arena.elements@) =~= q.loaded.push(h)) by {
                                let all = arena.elements@;
                                assert forall|k: int| 0 <= k < all.len() implies #[trigger] handles(
                                    all,
                                )[k] == q.loaded.push(h)[k] by {
                                    if k < elements.len() {
                                        assert(all.drop_last()[k] == elements[k]);
                                        assert(handles(elements)[k] == handle_of(elements[k]));
                                    }
                                }
                            }
                            assert(arena.elements@.take(first.len() as int) =~= first) by {
                                assert forall|k: int| 0 <= k < first.len() implies arena.elements@[k]
                                    == first[k] by {
                                    assert(arena.elements@.drop_last()[k] == elements[k]);
                                    assert(elements.take(first.len() as int)[k] == first[k]);
                                }
                            }
                            assert(place == q.loaded.len());
                        }
                        let count: usize = arena.elements.len();
                        let level: u8 = arena.elements[place].level;
                        let has_row: bool = arena.elements[place].heaptid_set;
                        assert(handle_of(arena.elements@[place as int]) == h);
                        s.offer(sc, level, has_row);
                        proof {
                            lemma_more_loaded(before.c@, q.loaded, h, task.lc);
                            lemma_more_loaded(before.w@, q.loaded, h, task.lc);
                            if before.admits(d) && level >= before.lc {
                                lemma_took_up(before, sc, has_row, *s, q.loaded.push(h), task.lc);
                                lemma_with_one(
                                    before.c@,
                                    sc,
                                    s.c@,
                                    q.loaded.push(h),
                                    task.lc,
                                );
                            }
                        }
                    },
                }
            },
            _ => {
                proof {
                    lemma_failed(task, p, u@, i + 1, WalkError::Missing);
                }
                return Err(WalkError::Missing);
            },
        }
        i = i + 1;
    }
    assert(u@.take(u@.len() as int) =~= u@);
    Ok(())
}

/// Add the entry points.
fn enter(
    ep: &Vec<SearchCandidate>,
    s: &mut LayerSearch,
    v: &mut Visited,
    arena: &ElementArena,
    init_visited: bool,
    Ghost(task): Ghost<StoredTask>,
)
    requires
        task.skipping == old(s).skipping,
        old(s).wf(),
        old(s).wlen == 0,
        old(s).c@.len() == 0,
        old(s).w@.len() == 0,
        old(s).discarded@.len() == 0,
        are_loaded(ep@, handles(arena.elements@), task.lc),
    ensures
        final(s).wf(),
        final(s).same_task(old(s)),
        final(s).is_at(task.entered(handles(arena.elements@), ep@)),
        final(s).wlen <= ep@.len(),
        final(s).w@.len() == ep@.len(),
        are_loaded(final(s).c@, handles(arena.elements@), task.lc),
        are_loaded(final(s).w@, handles(arena.elements@), task.lc),
        !init_visited ==> final(v)@ == old(v)@,
        init_visited ==> forall|key: u64| #[trigger]
            final(v)@.contains(key) <==> old(v)@.contains(key) || entry_keys(
                handles(arena.elements@),
                ep@,
            ).contains(key),
{
    let ghost loaded = handles(arena.elements@);
    proof {
        assert(s.c@ =~= Seq::empty());
        assert(s.w@ =~= Seq::empty());
        assert(s.discarded@ =~= Seq::empty());
    }
    let mut i: usize = 0;
    while i < ep.len()
        invariant
            i <= ep@.len(),
            loaded == handles(arena.elements@),
            task.skipping == s.skipping,
            are_loaded(ep@, loaded, task.lc),
            s.wf(),
            s.same_task(old(s)),
            s.is_at(task.entered(loaded, ep@.take(i as int))),
            s.wlen <= i,
            s.w@.len() == i,
            are_loaded(s.c@, loaded, task.lc),
            are_loaded(s.w@, loaded, task.lc),
            !init_visited ==> v@ == old(v)@,
            init_visited ==> forall|key: u64| #[trigger]
                v@.contains(key) <==> old(v)@.contains(key) || entry_keys(
                    loaded,
                    ep@.take(i as int),
                ).contains(key),
        decreases ep@.len() - i,
    {
        let sc: SearchCandidate = ep[i];
        let ghost before = *s;
        let ghost visited = v@;
        let ghost shorter = ep@.take(i as int);
        let ghost longer = ep@.take(i + 1);
        proof {
            assert(ep@[i as int].element < loaded.len());
            assert(longer.drop_last() =~= shorter);
            assert(longer.last() == sc);
        }
        let has_row: bool = arena.elements[sc.element].heaptid_set;
        assert(loaded[sc.element as int] == handle_of(arena.elements@[sc.element as int]));
        if init_visited {
            let _ = v.insert(types::pack_tid(tuple::tid_of(&arena.elements[sc.element])));
            proof {
                assert forall|key: u64| #[trigger] v@.contains(key) <==> old(v)@.contains(key)
                    || entry_keys(loaded, longer).contains(key) by {
                    if entry_keys(loaded, longer).contains(key) {
                        let k = choose|k: int|
                            0 <= k < longer.len() && types::tid_key(
                                loaded[(#[trigger] longer[k]).element as int].tid,
                            ) == key;
                        if k < i {
                            assert(shorter[k] == longer[k]);
                            assert(entry_keys(loaded, shorter).contains(key));
                        }
                    }
                    if entry_keys(loaded, shorter).contains(key) {
                        let k = choose|k: int|
                            0 <= k < shorter.len() && types::tid_key(
                                loaded[(#[trigger] shorter[k]).element as int].tid,
                            ) == key;
                        assert(longer[k] == shorter[k]);
                    }
                    if key == types::tid_key(loaded[sc.element as int].tid) {
                        assert(longer[i as int] == sc);
                    }
                    assert(visited.contains(key) <==> old(v)@.contains(key) || entry_keys(
                        loaded,
                        shorter,
                    ).contains(key));
                }
            }
        }
        s.add_entry(sc, has_row);
        proof {
            lemma_with_one(before.c@, sc, s.c@, loaded, task.lc);
            lemma_with_one(before.w@, sc, s.w@, loaded, task.lc);
        }
        i = i + 1;
    }
    assert(ep@.take(ep@.len() as int) =~= ep@);
}

/// What is not seen yet: each address once.
proof fn lemma_unseen(tids: Seq<ItemPointer>, seen: Set<u64>)
    ensures
        tuple::unseen_tids(tids, seen).no_duplicates(),
        forall|i: int|
            #![trigger tuple::unseen_tids(tids, seen)[i]]
            0 <= i < tuple::unseen_tids(tids, seen).len() ==> !seen.contains(
                types::tid_key(tuple::unseen_tids(tids, seen)[i]) as u64,
            ),
    decreases tids.len(),
{
    if tids.len() > 0 {
        lemma_unseen(tids.drop_last(), seen);
    }
}

/// What a search of a layer of a stored graph returns.
#[derive(Debug)]
pub struct StoredResult {
    /// The best candidates, furthest first.
    pub w: Vec<SearchCandidate>,
    /// Those that were turned away, where they are kept.
    pub discarded: Vec<SearchCandidate>,
    /// How many elements were met.
    pub tuples: u64,
}

/// `r`, `after` and `loaded` are what the search from `start` has found, visited
/// and loaded when it is over.
pub open spec fn is_end_of_search(
    task: StoredTask,
    start: StoredProgress,
    r: StoredResult,
    after: Set<u64>,
    loaded: Seq<Handle>,
) -> bool {
    exists|k: nat|
        {
            &&& #[trigger] task.ends_after(start, k)
            &&& r.w@ == task.progress(start, k)->Ok_0.frontier.w.reverse()
            &&& task.track ==> r.discarded@ == task.progress(start, k)->Ok_0.frontier.discarded
            &&& !task.track ==> r.discarded@.len() == 0
            &&& r.tuples == task.progress(start, k)->Ok_0.tuples
            &&& after == task.progress(start, k)->Ok_0.visited
            &&& loaded == task.progress(start, k)->Ok_0.loaded
        }
}

/// The task of a search.
pub open spec fn task_of<F: Fn(&Vec<u8>) -> i32>(
    graph: StoredGraph,
    distance: F,
    ef: usize,
    lc: usize,
    skipping: bool,
    track_discarded: bool,
    load_vec: bool,
) -> StoredTask {
    StoredTask {
        pages: graph.pages@,
        m: graph.m as int,
        dist: distance_to(distance),
        ef: ef as int,
        lc: lc as int,
        skipping,
        track: track_discarded,
        load_vec,
    }
}

/// Search layer `lc` of a stored graph from the entry points `ep` for the `ef`
/// elements whose vectors are nearest by `distance`.  Elements are loaded into
/// the arena, which the candidates refer to; `load_vec` says whether their
/// vectors are loaded too.  The search fails where it meets a deleted element,
/// or where an element or its list is missing.
pub fn search_layer<F: Fn(&Vec<u8>) -> i32>(
    graph: &StoredGraph,
    distance: &F,
    ep: &Vec<SearchCandidate>,
    ef: usize,
    lc: usize,
    skipping: bool,
    v: &mut Visited,
    track_discarded: bool,
    init_visited: bool,
    arena: &mut ElementArena,
    load_vec: bool,
) -> (r: Result<StoredResult, WalkError>)
    requires
        is_distance(*distance, graph.pages@),
        graph.m <= 0xffff,
        are_loaded(ep@, handles(old(arena).elements@), lc as int),
        ep@.len() <= old(arena).elements@.len(),
        ep@.len() <= u64::MAX - 0x1_0000_0000_0000,
    ensures
        final(arena).elements@.len() >= old(arena).elements@.len(),
        final(arena).elements@.take(old(arena).elements@.len() as int) == old(arena).elements@,
        r matches Ok(result) ==> {
            &&& result.w@.len() <= ep@.len() + 0x1_0000_0000_0000
            &&& result.w@.len() <= final(arena).elements@.len()
            &&& are_loaded(result.w@, handles(final(arena).elements@), lc as int)
            &&& ep@.len() > 0 ==> result.w@.len() > 0
        },
        r matches Ok(result) ==> is_end_of_search(
            task_of(*graph, *distance, ef, lc, skipping, track_discarded, load_vec),
            task_of(*graph, *distance, ef, lc, skipping, track_discarded, load_vec).start(
                handles(old(arena).elements@),
                ep@,
                old(v)@,
                init_visited,
            ),
            result,
            final(v)@,
            handles(final(arena).elements@),
        ),
        r matches Err(e) ==> exists|k: nat| #[trigger]
            task_of(*graph, *distance, ef, lc, skipping, track_discarded, load_vec).fails_after(
                task_of(*graph, *distance, ef, lc, skipping, track_discarded, load_vec).start(
                    handles(old(arena).elements@),
                    ep@,
                    old(v)@,
                    init_visited,
                ),
                k,
                e,
            ),
{
    let ghost task = task_of(*graph, *distance, ef, lc, skipping, track_discarded, load_vec);
    let ghost first = arena.elements@;
    let ghost start = task.start(handles(first), ep@, v@, init_visited);
    let mut s: LayerSearch = LayerSearch::new(ef, lc, skipping, track_discarded);
    if init_visited {
        v.clear();
    }
    enter(ep, &mut s, v, arena, init_visited, Ghost(task));
    let mut tuples: u64 = if init_visited {
        ep.len() as u64
    } else {
        0
    };
    let ghost mut k: nat = 0;
    let ghost mut met: Seq<ItemPointer> = Seq::empty();
    proof {
        assert(v@ =~= start.visited);
        assert(arena.elements@.take(first.len() as int) =~= first);
    }
    let ghost entries = tuples as int;
    loop
        invariant_except_break
            s.wf(),
            task.progress(start, k) is Ok,
            s.is_at(task.progress(start, k)->Ok_0.frontier),
            are_loaded(s.c@, handles(arena.elements@), lc as int),
        invariant
            task == task_of(*graph, *distance, ef, lc, skipping, track_discarded, load_vec),
            is_distance(*distance, graph.pages@),
            graph.m <= 0xffff,
            first == old(arena).elements@,
            start == task.start(handles(first), ep@, old(v)@, init_visited),
            s.ef == ef,
            s.lc == lc,
            s.skipping == skipping,
            s.track_discarded == track_discarded,
            arena.elements@.len() >= first.len(),
            arena.elements@.take(first.len() as int) == first,
            s.wlen <= arena.elements@.len(),
            s.w@.len() <= arena.elements@.len(),
            s.w@.len() <= ep@.len() + met.len(),
            ep@.len() > 0 ==> s.w@.len() > 0,
            are_loaded(s.w@, handles(arena.elements@), lc as int),
            task.progress(start, k) is Ok,
            handles(arena.elements@) == task.progress(start, k)->Ok_0.loaded,
            v@ == task.progress(start, k)->Ok_0.visited,
            tuples == task.progress(start, k)->Ok_0.tuples,
            forall|j: nat| j < k ==> #[trigger] task.goes_on(start, j),
            met.no_duplicates(),
            met.len() <= 0x1_0000_0000_0000,
            forall|i: int|
                #![trigger met[i]]
                0 <= i < met.len() ==> v@.contains(types::tid_key(met[i]) as u64),
            tuples == entries + met.len(),
            entries <= u64::MAX - 0x1_0000_0000_0000,
        ensures
            s.wf(),
            task.ends_after(start, k),
            s.w@ == task.progress(start, k)->Ok_0.frontier.w,
            s.track_discarded ==> s.discarded@ == task.progress(start, k)->Ok_0.frontier.discarded,
        decreases 0x1_0000_0000_0000 - met.len(), s.c@.len(),
    {
        let ghost stand = task.progress(start, k)->Ok_0;
        let ghost before = s;
        match s.next_expansion() {
            None => {
                assert(stand.frontier.is_over());
                break;
            },
            Some(sc) => {
                proof {
                    assert(!stand.frontier.is_over());
                    assert(task.goes_on(start, k));
                    assert(before.c@[before.c@.len() - 1] == sc);
                    assert(sc.element < stand.loaded.len());
                }
                let ghost x = stand.loaded[sc.element as int];
                let ghost rest = Frontier {
                    c: stand.frontier.c.drop_last(),
                    ..stand.frontier
                };
                assert(x == handle_of(arena.elements@[sc.element as int]));
                let e: &Element = &arena.elements[sc.element];
                let at: ItemPointer = ItemPointer::new(e.neighbor_page, e.neighbor_offno);
                let version: u8 = e.version;
                let level: u8 = e.level;
                proof {
                    let l = level as int;
                    let m = graph.m as int;
                    assert(0 <= (l + 2) * m <= 257 * 0xffff) by (nonlinear_arith)
                        requires
                            0 <= l <= 255,
                            0 <= m <= 0xffff,
                    ;
                    k = k + 1;
                    assert(task.progress(start, k) == task.expanded(stand));
                }
                let ghost visited = v@;
                let u: Vec<ItemPointer> = match graph.find_item(at) {
                    Some(PageItem::Neighbors { tuple: list }) => {
                        match tuple::load_neighbor_tids(list, version, level, graph.m, lc) {
                            Some(tids) => {
                                assert(task.neighbors(x) == Some(
                                    tids@.take(tuple::valid_prefix(tids@)),
                                ));
                                tuple::load_unvisited_from_disk(&tids, v)
                            },
                            None => {
                                assert(task.neighbors(x) == Some(Seq::<ItemPointer>::empty()));
                                Vec::new()
                            },
                        }
                    },
                    _ => {
                        assert(task.neighbors(x) is None);
                        assert(task.fails_after(start, k, WalkError::Missing));
                        return Err(WalkError::Missing);
                    },
                };
                let ghost all = task.neighbors(x)->0;
                proof {
                    assert(u@ =~= tuple::unseen_tids(all, visited));
                    assert(v@ =~= marked(visited, u@));
                    lemma_unseen(all, visited);
                    let more = met + u@;
                    assert(more.no_duplicates()) by {
                        assert forall|i: int, j: int|
                            0 <= i < more.len() && 0 <= j < more.len() && i != j implies more[i]
                            != more[j] by {
                            if i < met.len() && j >= met.len() {
                                assert(visited.contains(types::tid_key(met[i]) as u64));
                                assert(!visited.contains(
                                    types::tid_key(u@[j - met.len()]) as u64,
                                ));
                            } else if j < met.len() && i >= met.len() {
                                assert(visited.contains(types::tid_key(met[j]) as u64));
                                assert(!visited.contains(
                                    types::tid_key(u@[i - met.len()]) as u64,
                                ));
                            }
                        }
                    }
                    types::lemma_addresses(more);
                    assert forall|i: int| #![trigger more[i]] 0 <= i
                        < more.len() implies v@.contains(types::tid_key(more[i]) as u64) by {
                        if i < met.len() {
                            assert(visited.contains(types::tid_key(met[i]) as u64));
                        } else {
                            assert(types::tid_key(u@[i - met.len()]) == types::tid_key(more[i]));
                        }
                    }
                    met = more;
                }
                tuples = tuples + u.len() as u64;
                let ghost mid = StoredProgress {
                    frontier: rest,
                    visited: v@,
                    loaded: stand.loaded,
                    tuples: tuples as int,
                };
                proof {
                    assert(task.progress(start, k) == task.offered_each(mid, u@));
                    assert forall|i: int| #![trigger s.c@[i]] 0 <= i
                        < s.c@.len() implies s.c@[i].element < stand.loaded.len()
                        && stand.loaded[s.c@[i].element as int].level >= lc by {
                        assert(s.c@[i] == before.c@[i]);
                    }
                }
                let ghost prior = arena.elements@;
                let offered: Result<(), WalkError> = offer_all(
                    graph,
                    distance,
                    &u,
                    load_vec,
                    &mut s,
                    arena,
                    Ghost(task),
                    Ghost(mid),
                );
                proof {
                    lemma_prefix(arena.elements@, prior, first);
                }
                match offered {
                    Ok(_) => {},
                    Err(e) => {
                        assert(task.fails_after(start, k, e));
                        return Err(e);
                    },
                }
            },
        }
    }
    let discarded: Vec<SearchCandidate> = s.discarded;
    let best: LayerSearch = LayerSearch {
        ef,
        lc,
        skipping,
        wlen: s.wlen,
        c: s.c,
        w: s.w,
        track_discarded,
        discarded: Vec::new(),
    };
    let ghost end = best.w@;
    let w: Vec<SearchCandidate> = best.finish();
    proof {
        let loaded = handles(arena.elements@);
        assert forall|i: int| #![trigger w@[i]] 0 <= i < w@.len() implies w@[i].element
            < loaded.len() && loaded[w@[i].element as int].level >= lc by {
            assert(w@[i] == end[end.len() - 1 - i]);
        }
    }
    let result: StoredResult = StoredResult { w, discarded, tuples };
    assert(is_end_of_search(task, start, result, v@, handles(arena.elements@)));
    Ok(result)
}

pub proof fn lemma_prefix(a: Seq<Element>, b: Seq<Element>, c: Seq<Element>)
    requires
        c.len() <= b.len() <= a.len(),
        a.take(b.len() as int) == b,
        b.take(c.len() as int) == c,
    ensures
        a.take(c.len() as int) == c,
{
    assert forall|i: int| 0 <= i < c.len() implies a[i] == c[i] by {
        assert(a.take(b.len() as int)[i] == b[i]);
        assert(b.take(c.len() as int)[i] == c[i]);
    }
    assert(a.take(c.len() as int) =~= c);
}

} // verus!
