//! Health of a stored graph: how many elements it has, and how many of them
//! can be reached.
use crate::hnswsq::stored;
use crate::hnswsq::stored::{StoredGraph, StoredPage, WalkError};
use crate::hnswsq::tuple;
use crate::hnswsq::tuple::{load_neighbor_tids, ElementTuple, NeighborTuple};
use crate::hnswsq::types;
use crate::hnswsq::types::{pack_tid, Visited};
use crate::hnswsq::vacuum;
use crate::hnswsq::vacuum::PageItem;
use crate::util::item_pointer;
use crate::util::item_pointer::ItemPointer;
use vstd::prelude::*;

verus! {

/// How many elements there are, of each kind.
#[derive(Clone, Copy, Debug, PartialEq, Eq, Structural)]
pub struct TupleCounts {
    pub total: u64,
    /// Elements with a row.
    pub live: u64,
    /// Elements that were deleted.
    pub deleted: u64,
    /// Elements that have no row but were not deleted yet.
    pub invalid: u64,
}

/// What an item counts as.
pub open spec fn is_element(item: PageItem) -> bool {
    item is Element
}

pub open spec fn is_deleted(item: PageItem) -> bool {
    item is Element && item->Element_tuple.deleted != 0
}

pub open spec fn is_live(item: PageItem) -> bool {
    item is Element && item->Element_tuple.deleted == 0 && vacuum::has_block(
        item->Element_tuple.heaptid,
    )
}

pub open spec fn is_rowless(item: PageItem) -> bool {
    item is Element && item->Element_tuple.deleted == 0 && !vacuum::has_block(
        item->Element_tuple.heaptid,
    )
}

/// How many of the first `k` items are of a kind.
pub open spec fn count_items(items: Seq<PageItem>, kind: spec_fn(PageItem) -> bool, k: int) -> int
    decreases k,
{
    if k <= 0 {
        0
    } else {
        count_items(items, kind, k - 1) + if kind(items[k - 1]) {
            1int
        } else {
            0
        }
    }
}

/// How many items of the first `k` pages are of a kind.
pub open spec fn count_pages(pages: Seq<StoredPage>, kind: spec_fn(PageItem) -> bool, k: int) -> int
    decreases k,
{
    if k <= 0 {
        0
    } else {
        count_pages(pages, kind, k - 1) + count_items(
            pages[k - 1].items@,
            kind,
            pages[k - 1].items@.len() as int,
        )
    }
}

/// How many items the first `k` pages have.
pub open spec fn item_total(pages: Seq<StoredPage>, k: int) -> int
    decreases k,
{
    if k <= 0 {
        0
    } else {
        item_total(pages, k - 1) + pages[k - 1].items@.len()
    }
}

proof fn lemma_item_total(pages: Seq<StoredPage>, j: int, k: int)
    requires
        0 <= j <= k,
    ensures
        0 <= item_total(pages, j) <= item_total(pages, k),
    decreases k,
{
    if k > 0 {
        lemma_item_total(pages, if j < k { j } else { k - 1 }, k - 1);
    }
}

/// Count the elements of the graph.
pub fn count_tuples(graph: &StoredGraph) -> (c: TupleCounts)
    requires
        item_total(graph.pages@, graph.pages@.len() as int) <= u64::MAX,
    ensures
        c.total == count_pages(
            graph.pages@,
            |i: PageItem| is_element(i),
            graph.pages@.len() as int,
        ),
        c.live == count_pages(graph.pages@, |i: PageItem| is_live(i), graph.pages@.len() as int),
        c.deleted == count_pages(
            graph.pages@,
            |i: PageItem| is_deleted(i),
            graph.pages@.len() as int,
        ),
        c.invalid == count_pages(
            graph.pages@,
            |i: PageItem| is_rowless(i),
            graph.pages@.len() as int,
        ),
        c.total == c.live + c.deleted + c.invalid,
{
    let ghost pages = graph.pages@;
    let ghost n = pages.len() as int;
    let ghost elements = |i: PageItem| is_element(i);
    let ghost lives = |i: PageItem| is_live(i);
    let ghost deads = |i: PageItem| is_deleted(i);
    let ghost rowless = |i: PageItem| is_rowless(i);
    let mut c: TupleCounts = TupleCounts { total: 0, live: 0, deleted: 0, invalid: 0 };
    let mut p: usize = 0;
    while p < graph.pages.len()
        invariant
            p <= pages.len(),
            pages == graph.pages@,
            n == pages.len(),
            item_total(pages, n) <= u64::MAX,
            elements == (|i: PageItem| is_element(i)),
            lives == (|i: PageItem| is_live(i)),
            deads == (|i: PageItem| is_deleted(i)),
            rowless == (|i: PageItem| is_rowless(i)),
            c.total == count_pages(pages, elements, p as int),
            c.live == count_pages(pages, lives, p as int),
            c.deleted == count_pages(pages, deads, p as int),
            c.invalid == count_pages(pages, rowless, p as int),
            c.total == c.live + c.deleted + c.invalid,
            c.total <= item_total(pages, p as int),
        decreases pages.len() - p,
    {
        let page: &StoredPage = &graph.pages[p];
        let ghost items = page.items@;
        let ghost start = c;
        proof {
            lemma_item_total(pages, p + 1, n);
        }
        let mut i: usize = 0;
        while i < page.items.len()
            invariant
                i <= items.len(),
                items == page.items@,
                elements == (|i: PageItem| is_element(i)),
                lives == (|i: PageItem| is_live(i)),
                deads == (|i: PageItem| is_deleted(i)),
                rowless == (|i: PageItem| is_rowless(i)),
                c.total == start.total + count_items(items, elements, i as int),
                c.live == start.live + count_items(items, lives, i as int),
                c.deleted == start.deleted + count_items(items, deads, i as int),
                c.invalid == start.invalid + count_items(items, rowless, i as int),
                c.total == c.live + c.deleted + c.invalid,
                c.total <= start.total + i,
                start.total + items.len() <= u64::MAX,
            decreases items.len() - i,
        {
            match &page.items[i] {
                PageItem::Element { tuple } => {
                    c.total = c.total + 1;
                    if tuple.deleted != 0 {
                        c.deleted = c.deleted + 1;
                    } else if tuple.heaptid.block_number != item_pointer::INVALID_BLOCK_NUMBER {
                        c.live = c.live + 1;
                    } else {
                        c.invalid = c.invalid + 1;
                    }
                },
                PageItem::Neighbors { .. } => {},
            }
            i = i + 1;
        }
        p = p + 1;
    }
    c
}

/// The element at an address, and its neighbors.
#[derive(Debug)]
pub struct Loaded<'a> {
    pub element: &'a ElementTuple,
    pub neighbors: &'a NeighborTuple,
}

/// The element at an address.
pub open spec fn element_at(pages: Seq<StoredPage>, tid: ItemPointer) -> ElementTuple {
    stored::item_at(pages, tid)->0->Element_tuple
}

/// The neighbors of the element at an address.
pub open spec fn neighbors_at(pages: Seq<StoredPage>, tid: ItemPointer) -> NeighborTuple {
    stored::item_at(pages, element_at(pages, tid).neighbortid)->0->Neighbors_tuple
}

/// Why the element at an address cannot be loaded, if it cannot.
pub open spec fn load_error(pages: Seq<StoredPage>, tid: ItemPointer) -> Option<WalkError> {
    match stored::item_at(pages, tid) {
        Some(PageItem::Element { tuple }) => if tuple.deleted != 0 {
            Some(WalkError::Deleted)
        } else {
            match stored::item_at(pages, tuple.neighbortid) {
                Some(PageItem::Neighbors { tuple }) => None,
                _ => Some(WalkError::Missing),
            }
        },
        _ => Some(WalkError::Missing),
    }
}

impl StoredGraph {
    /// Load the element at an address, with its neighbors.
    pub fn load(&self, tid: ItemPointer) -> (r: Result<Loaded<'_>, WalkError>)
        ensures
            r is Ok <==> load_error(self.pages@, tid) is None,
            r is Err ==> load_error(self.pages@, tid) == Some(r->Err_0),
            r is Ok ==> *r->Ok_0.element == element_at(self.pages@, tid) && *r->Ok_0.neighbors
                == neighbors_at(self.pages@, tid),
    {
        match self.find_item(tid) {
            Some(PageItem::Element { tuple }) => {
                if tuple.deleted != 0 {
                    return Err(WalkError::Deleted);
                }
                match self.find_item(tuple.neighbortid) {
                    Some(PageItem::Neighbors { tuple: neighbors }) => Ok(
                        Loaded { element: tuple, neighbors },
                    ),
                    _ => Err(WalkError::Missing),
                }
            },
            _ => Err(WalkError::Missing),
        }
    }
}

/// Whether the neighbors of an element can be read: they are of its version,
/// and as many as it has.
pub open spec fn is_readable(pages: Seq<StoredPage>, m: int, tid: ItemPointer) -> bool {
    let e = element_at(pages, tid);
    let n = neighbors_at(pages, tid);
    n.version == e.version && n.count() == (e.level + 2) * m
}

/// The addresses that an element lists at the bottom layer.
pub open spec fn listed(pages: Seq<StoredPage>, m: int, tid: ItemPointer) -> Seq<ItemPointer> {
    if load_error(pages, tid) is None && is_readable(pages, m, tid) {
        let place = tuple::layer_place(element_at(pages, tid).level as int, m, 0);
        let layer = neighbors_at(pages, tid).tids@.subrange(place, place + 2 * m);
        layer.take(tuple::valid_prefix(layer))
    } else {
        Seq::empty()
    }
}

/// Whether the element at `x` lists the address `y`.
pub open spec fn lists(pages: Seq<StoredPage>, m: int, x: ItemPointer, y: ItemPointer) -> bool {
    listed(pages, m, x).contains(y)
}

/// Whether an address can be reached from the entry point in at most `k`
/// steps.
pub open spec fn within(
    pages: Seq<StoredPage>,
    m: int,
    entry: ItemPointer,
    t: ItemPointer,
    k: nat,
) -> bool
    decreases k,
{
    if k == 0 {
        t == entry
    } else {
        within(pages, m, entry, t, (k - 1) as nat) || exists|x: ItemPointer|
            #[trigger] lists(pages, m, x, t) && within(pages, m, entry, x, (k - 1) as nat)
    }
}

/// Whether an address can be reached from the entry point.
pub open spec fn reachable(
    pages: Seq<StoredPage>,
    m: int,
    entry: ItemPointer,
    t: ItemPointer,
) -> bool {
    exists|k: nat| #[trigger] within(pages, m, entry, t, k)
}

/// What a walk of the graph finds.
#[derive(Clone, Copy, Debug, PartialEq, Eq, Structural)]
pub struct Reach {
    /// How many elements can be reached.
    pub reach: u64,
    /// Of how many of them the neighbors can be read.
    pub nlists: u64,
    /// How many neighbors an element lists at most.
    pub max_list: u64,
}

/// How many of the first `k` addresses have neighbors that can be read.
pub open spec fn readable_count(
    pages: Seq<StoredPage>,
    m: int,
    all: Seq<ItemPointer>,
    k: int,
) -> int
    decreases k,
{
    if k <= 0 {
        0
    } else {
        readable_count(pages, m, all, k - 1) + if is_readable(pages, m, all[k - 1]) {
            1int
        } else {
            0
        }
    }
}

/// How many addresses one of the first `k` lists at most.
pub open spec fn longest_list(
    pages: Seq<StoredPage>,
    m: int,
    all: Seq<ItemPointer>,
    k: int,
) -> int
    decreases k,
{
    if k <= 0 {
        0
    } else {
        let before = longest_list(pages, m, all, k - 1);
        let here = listed(pages, m, all[k - 1]).len() as int;
        if here > before {
            here
        } else {
            before
        }
    }
}

/// `all` are the addresses that can be reached, each once.
pub open spec fn are_reachable(
    pages: Seq<StoredPage>,
    m: int,
    entry: ItemPointer,
    all: Seq<ItemPointer>,
) -> bool {
    &&& all.no_duplicates()
    &&& forall|t: ItemPointer| #[trigger] all.contains(t) <==> reachable(pages, m, entry, t)
}

/// What the walk finds on a graph whose reachable addresses are `all`.
pub open spec fn is_reach(
    pages: Seq<StoredPage>,
    m: int,
    entry: ItemPointer,
    all: Seq<ItemPointer>,
    r: Reach,
) -> bool {
    &&& are_reachable(pages, m, entry, all)
    &&& r.reach == all.len()
    &&& r.nlists == readable_count(pages, m, all, all.len() as int)
    &&& r.max_list == longest_list(pages, m, all, all.len() as int)
}

/// What the walk finds.
pub open spec fn is_what_is_reached(
    pages: Seq<StoredPage>,
    m: int,
    entry: ItemPointer,
    r: Reach,
) -> bool {
    exists|all: Seq<ItemPointer>| #[trigger] is_reach(pages, m, entry, all, r)
}

proof fn lemma_step(
    pages: Seq<StoredPage>,
    m: int,
    entry: ItemPointer,
    x: ItemPointer,
    y: ItemPointer,
)
    requires
        reachable(pages, m, entry, x),
        lists(pages, m, x, y),
    ensures
        reachable(pages, m, entry, y),
{
    let k = choose|k: nat| #[trigger] within(pages, m, entry, x, k);
    assert(within(pages, m, entry, y, k + 1));
}

/// A set that holds the entry point and what its members list holds all that
/// can be reached.
proof fn lemma_closed(
    pages: Seq<StoredPage>,
    m: int,
    entry: ItemPointer,
    all: Seq<ItemPointer>,
    t: ItemPointer,
    k: nat,
)
    requires
        all.contains(entry),
        forall|i: int, y: ItemPointer|
            0 <= i < all.len() && #[trigger] lists(pages, m, all[i], y) ==> all.contains(y),
        within(pages, m, entry, t, k),
    ensures
        all.contains(t),
    decreases k,
{
    if k > 0 {
        if within(pages, m, entry, t, (k - 1) as nat) {
            lemma_closed(pages, m, entry, all, t, (k - 1) as nat);
        } else {
            let x = choose|x: ItemPointer|
                #[trigger] lists(pages, m, x, t) && within(pages, m, entry, x, (k - 1) as nat);
            lemma_closed(pages, m, entry, all, x, (k - 1) as nat);
            let i = choose|i: int| 0 <= i < all.len() && all[i] == x;
            assert(lists(pages, m, all[i], t));
        }
    }
}

proof fn lemma_prefix_counts(
    pages: Seq<StoredPage>,
    m: int,
    a: Seq<ItemPointer>,
    b: Seq<ItemPointer>,
    k: int,
)
    requires
        forall|i: int| 0 <= i < k ==> #[trigger] a[i] == b[i],
    ensures
        readable_count(pages, m, a, k) == readable_count(pages, m, b, k),
        longest_list(pages, m, a, k) == longest_list(pages, m, b, k),
    decreases k,
{
    if k > 0 {
        lemma_prefix_counts(pages, m, a, b, k - 1);
        assert(a[k - 1] == b[k - 1]);
    }
}

/// `seen` are the keys of `all`.
pub open spec fn are_keys(seen: Set<u64>, all: Seq<ItemPointer>) -> bool {
    forall|key: u64| #[trigger]
        seen.contains(key) <==> exists|i: int|
            0 <= i < all.len() && types::tid_key(#[trigger] all[i]) == key
}

proof fn lemma_keys_push(seen: Set<u64>, all: Seq<ItemPointer>, t: ItemPointer)
    requires
        are_keys(seen, all),
    ensures
        are_keys(seen.insert(types::tid_key(t) as u64), all.push(t)),
        seen.contains(types::tid_key(t) as u64) <==> all.contains(t),
{
    let more = all.push(t);
    let key0 = types::tid_key(t) as u64;
    assert forall|key: u64| #[trigger] seen.insert(key0).contains(key) <==> exists|i: int|
        0 <= i < more.len() && types::tid_key(#[trigger] more[i]) == key by {
        if seen.contains(key) {
            let i = choose|i: int| 0 <= i < all.len() && types::tid_key(#[trigger] all[i]) == key;
            assert(types::tid_key(more[i]) == key);
        }
        if key == key0 {
            assert(types::tid_key(more[all.len() as int]) == key);
        }
        if exists|i: int| 0 <= i < more.len() && types::tid_key(#[trigger] more[i]) == key {
            let i = choose|i: int| 0 <= i < more.len() && types::tid_key(#[trigger] more[i]) == key;
            if i < all.len() {
                assert(types::tid_key(all[i]) == key);
            }
        }
    }
    if seen.contains(key0) {
        let i = choose|i: int| 0 <= i < all.len() && types::tid_key(#[trigger] all[i]) == key0;
        types::law_tid_key_is_injective(all[i], t);
    }
    if all.contains(t) {
        let i = choose|i: int| 0 <= i < all.len() && all[i] == t;
        assert(types::tid_key(all[i]) == key0);
    }
}

/// Add those of the first addresses of `layer`, up to an invalid one, that
/// were not met yet to `queue`; returns how many come before the invalid one.
fn enqueue_listed(layer: &Vec<ItemPointer>, queue: &mut Vec<ItemPointer>, seen: &mut Visited) -> (n:
    usize)
    requires
        are_keys(old(seen)@, old(queue)@),
        old(queue)@.no_duplicates(),
    ensures
        n == tuple::valid_prefix(layer@),
        n <= layer@.len(),
        are_keys(final(seen)@, final(queue)@),
        final(queue)@.no_duplicates(),
        final(queue)@.len() >= old(queue)@.len(),
        final(queue)@.take(old(queue)@.len() as int) == old(queue)@,
        forall|i: int|
            #![trigger final(queue)@[i]]
            old(queue)@.len() <= i < final(queue)@.len() ==> layer@.take(n as int).contains(
                final(queue)@[i],
            ),
        forall|i: int|
            #![trigger layer@[i]]
            0 <= i < n ==> final(queue)@.contains(layer@[i]),
{
    let mut i: usize = 0;
    let ghost q0 = queue@;
    assert(q0.take(q0.len() as int) =~= q0);
    while i < layer.len() && layer[i].block_number != item_pointer::INVALID_BLOCK_NUMBER
        invariant
            i <= layer@.len(),
            forall|j: int|
                #![trigger layer@[j]]
                0 <= j < i ==> layer@[j].block_number != item_pointer::INVALID_BLOCK_NUMBER,
            are_keys(seen@, queue@),
            queue@.no_duplicates(),
            queue@.len() >= q0.len(),
            queue@.take(q0.len() as int) == q0,
            forall|j: int|
                #![trigger queue@[j]]
                q0.len() <= j < queue@.len() ==> layer@.take(i as int).contains(queue@[j]),
            forall|j: int| #![trigger layer@[j]] 0 <= j < i ==> queue@.contains(layer@[j]),
        decreases layer@.len() - i,
    {
        let t: ItemPointer = layer[i];
        let ghost before = queue@;
        let ghost seen0 = seen@;
        proof {
            lemma_keys_push(seen@, queue@, t);
        }
        let found: bool = seen.insert(pack_tid(t));
        let ghost shorter = layer@.take(i as int);
        let ghost longer = layer@.take(i + 1);
        assert(longer =~= shorter.push(t));
        assert(longer[i as int] == t);
        assert forall|x: ItemPointer| shorter.contains(x) implies #[trigger] longer.contains(x) by {
            let j = choose|j: int| 0 <= j < shorter.len() && shorter[j] == x;
            assert(longer[j] == x);
        }
        if !found {
            queue.push(t);
            assert(queue@[before.len() as int] == t);
            assert(queue@.take(q0.len() as int) =~= before.take(q0.len() as int));
            assert forall|j: int| #![trigger layer@[j]] 0 <= j < i + 1 implies queue@.contains(
                layer@[j],
            ) by {
                if j < i {
                    let k = choose|k: int| 0 <= k < before.len() && before[k] == layer@[j];
                    assert(queue@[k] == layer@[j]);
                }
            }
            assert forall|j: int| #![trigger queue@[j]] q0.len() <= j < queue@.len() implies longer.contains(
                queue@[j],
            ) by {
                if j < before.len() {
                    assert(shorter.contains(before[j]));
                }
            }
        } else {
            assert(seen@ =~= seen0);
        }
        i = i + 1;
    }
    proof {
        tuple::lemma_valid_prefix(layer@, i as int);
    }
    i
}

impl StoredGraph {
    /// Walk the bottom layer from the entry point.
    pub fn walk(&self, entry: ItemPointer) -> (r: Result<Reach, WalkError>)
        requires
            self.m <= 0xffff,
        ensures
            r is Ok <==> forall|t: ItemPointer| #[trigger]
                reachable(self.pages@, self.m as int, entry, t) ==> load_error(self.pages@, t) is None,
            r is Ok ==> is_what_is_reached(self.pages@, self.m as int, entry, r->Ok_0),
            r is Err ==> exists|t: ItemPointer| #[trigger]
                reachable(self.pages@, self.m as int, entry, t) && load_error(self.pages@, t) == Some(
                    r->Err_0,
                ),
    {
        let ghost pages = self.pages@;
        let ghost m = self.m as int;
        let mut seen: Visited = Visited::new(0);
        let mut queue: Vec<ItemPointer> = Vec::new();
        assert(are_keys(seen@, queue@));
        proof {
            lemma_keys_push(seen@, queue@, entry);
        }
        let _ = seen.insert(pack_tid(entry));
        queue.push(entry);
        assert(queue@[0] == entry);
        assert(within(pages, m, entry, entry, 0));
        let mut head: usize = 0;
        let mut got: Reach = Reach { reach: 0, nlists: 0, max_list: 0 };
        while head < queue.len()
            invariant
                pages == self.pages@,
                m == self.m,
                m <= 0xffff,
                head <= queue@.len(),
                queue@.len() > 0,
                queue@[0] == entry,
                queue@.no_duplicates(),
                are_keys(seen@, queue@),
                forall|i: int|
                    #![trigger queue@[i]]
                    0 <= i < queue@.len() ==> reachable(pages, m, entry, queue@[i]),
                forall|i: int|
                    #![trigger queue@[i]]
                    0 <= i < head ==> load_error(pages, queue@[i]) is None,
                forall|i: int, y: ItemPointer|
                    0 <= i < head && #[trigger] lists(pages, m, queue@[i], y) ==> queue@.contains(
                        y,
                    ),
                got.reach == head,
                got.nlists == readable_count(pages, m, queue@, head as int),
                got.nlists <= head,
                got.max_list == longest_list(pages, m, queue@, head as int),
            decreases 0x1_0000_0000_0000 - head,
        {
            proof {
                types::lemma_addresses(queue@);
            }
            let p: ItemPointer = queue[head];
            let ghost before = queue@;
            match self.load(p) {
                Err(e) => {
                    assert(reachable(pages, m, entry, p) && load_error(pages, p) == Some(e));
                    return Err(e);
                },
                Ok(loaded) => {
                    got.reach = got.reach + 1;
                    proof {
                        let l = loaded.element.level as int;
                        assert(0 <= (l + 2) * m <= 257 * 0xffff) by (nonlinear_arith)
                            requires
                                0 <= l <= 255,
                                0 <= m <= 0xffff,
                        ;
                    }
                    match load_neighbor_tids(
                        loaded.neighbors,
                        loaded.element.version,
                        loaded.element.level,
                        self.m,
                        0,
                    ) {
                        Some(layer) => {
                            got.nlists = got.nlists + 1;
                            let n: usize = enqueue_listed(&layer, &mut queue, &mut seen);
                            assert(listed(pages, m, p) == layer@.take(n as int));
                            if n as u64 > got.max_list {
                                got.max_list = n as u64;
                            }
                        },
                        None => {},
                    }
                },
            }
            proof {
                let after = queue@;
                assert forall|i: int| 0 <= i < before.len() implies #[trigger] after[i]
                    == before[i] by {
                    if after != before {
                        assert(after.take(before.len() as int)[i] == before[i]);
                    }
                }
                lemma_prefix_counts(pages, m, before, after, head as int);
                assert(after[head as int] == p);
                assert forall|i: int| #![trigger after[i]] 0 <= i < after.len() implies reachable(
                    pages,
                    m,
                    entry,
                    after[i],
                ) by {
                    if i < before.len() {
                        assert(reachable(pages, m, entry, before[i]));
                    } else {
                        assert(listed(pages, m, p).contains(after[i]));
                        assert(lists(pages, m, p, after[i]));
                        assert(reachable(pages, m, entry, before[head as int]));
                        lemma_step(pages, m, entry, p, after[i]);
                    }
                }
                assert forall|i: int, y: ItemPointer|
                    0 <= i < head + 1 && #[trigger] lists(pages, m, after[i], y) implies after.contains(
                    y,
                ) by {
                    if i < head {
                        assert(lists(pages, m, before[i], y));
                        let k = choose|k: int| 0 <= k < before.len() && before[k] == y;
                        assert(after[k] == y);
                    } else {
                        let list = listed(pages, m, p);
                        let k = choose|k: int| 0 <= k < list.len() && list[k] == y;
                        assert(list[k] == y);
                    }
                }
                assert(readable_count(pages, m, after, head + 1) == readable_count(
                    pages,
                    m,
                    after,
                    head as int,
                ) + if is_readable(pages, m, p) {
                    1int
                } else {
                    0
                });
            }
            head = head + 1;
        }
        proof {
            let all = queue@;
            assert(all.contains(entry)) by {
                assert(all[0] == entry);
            }
            assert forall|t: ItemPointer| #[trigger] all.contains(t) <==> reachable(
                pages,
                m,
                entry,
                t,
            ) by {
                if all.contains(t) {
                    let i = choose|i: int| 0 <= i < all.len() && all[i] == t;
                    assert(reachable(pages, m, entry, all[i]));
                }
                if reachable(pages, m, entry, t) {
                    let k = choose|k: nat| #[trigger] within(pages, m, entry, t, k);
                    lemma_closed(pages, m, entry, all, t, k);
                }
            }
            assert(is_reach(pages, m, entry, all, got));
            assert forall|t: ItemPointer| #[trigger] reachable(pages, m, entry, t) implies load_error(
                pages,
                t,
            ) is None by {
                assert(all.contains(t));
                let i = choose|i: int| 0 <= i < all.len() && all[i] == t;
                assert(load_error(pages, all[i]) is None);
            }
        }
        Ok(got)
    }
}

/// The health of a stored graph.
#[derive(Clone, Copy, Debug, PartialEq, Eq, Structural)]
pub struct Diagnosis {
    pub counts: TupleCounts,
    /// The first page, or an invalid block where there is none.
    pub head: u32,
    pub entry: Option<ItemPointer>,
    pub reach: Reach,
}

/// Diagnose a stored graph: count its elements, and walk it from the entry
/// point, where there is one.
pub fn hnswsq2_diag(graph: &StoredGraph) -> (r: Result<Diagnosis, WalkError>)
    requires
        graph.m <= 0xffff,
        item_total(graph.pages@, graph.pages@.len() as int) <= u64::MAX,
    ensures
        r is Ok <==> graph.entry is None || forall|t: ItemPointer| #[trigger]
            reachable(graph.pages@, graph.m as int, graph.entry->0, t) ==> load_error(
                graph.pages@,
                t,
            ) is None,
        r is Err ==> exists|t: ItemPointer| #[trigger]
            reachable(graph.pages@, graph.m as int, graph.entry->0, t) && load_error(
                graph.pages@,
                t,
            ) == Some(r->Err_0),
        r is Ok ==> is_diagnosis(*graph, r->Ok_0),
{
    let counts: TupleCounts = count_tuples(graph);
    let head: u32 = if graph.pages.len() > 0 {
        graph.pages[0].blkno
    } else {
        item_pointer::INVALID_BLOCK_NUMBER
    };
    let reach: Reach = match graph.entry {
        None => Reach { reach: 0, nlists: 0, max_list: 0 },
        Some(e) => match graph.walk(e) {
            Ok(reach) => reach,
            Err(err) => {
                return Err(err);
            },
        },
    };
    Ok(Diagnosis { counts, head, entry: graph.entry, reach })
}

/// Whether `d` is what a diagnosis of the graph says.
pub open spec fn is_diagnosis(graph: StoredGraph, d: Diagnosis) -> bool {
    let pages = graph.pages@;
    let n = pages.len() as int;
    &&& d.counts.total == count_pages(pages, |i: PageItem| is_element(i), n)
    &&& d.counts.live == count_pages(pages, |i: PageItem| is_live(i), n)
    &&& d.counts.deleted == count_pages(pages, |i: PageItem| is_deleted(i), n)
    &&& d.counts.invalid == count_pages(pages, |i: PageItem| is_rowless(i), n)
    &&& d.head == if n > 0 {
        pages[0].blkno
    } else {
        item_pointer::INVALID_BLOCK_NUMBER
    }
    &&& d.entry == graph.entry
    &&& graph.entry is Some ==> is_what_is_reached(pages, graph.m as int, graph.entry->0, d.reach)
    &&& graph.entry is None ==> d.reach == (Reach { reach: 0, nlists: 0, max_list: 0 })
}

/// An element of a stored graph as it is listed.
#[derive(Debug)]
pub struct DumpRow {
    pub tid: ItemPointer,
    pub heaptid: ItemPointer,
    pub level: u8,
    pub neighbortid: ItemPointer,
    /// The addresses that it lists at the bottom layer, where its neighbors
    /// can be read.
    pub listed: Option<Vec<ItemPointer>>,
}

/// The bottom layer of the neighbors `n` of an element, where it can be read.
pub open spec fn bottom_list(e: ElementTuple, n: NeighborTuple, m: int) -> Option<
    Seq<ItemPointer>,
> {
    if n.version == e.version && n.count() == (e.level + 2) * m {
        let place = tuple::layer_place(e.level as int, m, 0);
        let layer = n.tids@.subrange(place, place + 2 * m);
        Some(layer.take(tuple::valid_prefix(layer)))
    } else {
        None
    }
}

/// Whether `row` lists the element `e` that is stored at `tid`.
pub open spec fn is_row(
    pages: Seq<StoredPage>,
    m: int,
    tid: ItemPointer,
    e: ElementTuple,
    row: DumpRow,
) -> bool {
    let list = match stored::item_at(pages, e.neighbortid) {
        Some(PageItem::Neighbors { tuple }) => bottom_list(e, tuple, m),
        _ => None,
    };
    &&& row.tid == tid
    &&& row.heaptid == e.heaptid
    &&& row.level == e.level
    &&& row.neighbortid == e.neighbortid
    &&& row.listed is Some <==> list is Some
    &&& row.listed is Some ==> row.listed->0@ == list->0
}

impl StoredGraph {
    /// List the element `e` that is stored at `tid`.
    fn dump_element(&self, tid: ItemPointer, e: &ElementTuple) -> (row: DumpRow)
        requires
            self.m <= 0xffff,
        ensures
            is_row(self.pages@, self.m as int, tid, *e, row),
    {
        proof {
            let l = e.level as int;
            let m = self.m as int;
            assert(0 <= (l + 2) * m <= 257 * 0xffff) by (nonlinear_arith)
                requires
                    0 <= l <= 255,
                    0 <= m <= 0xffff,
            ;
        }
        let listed: Option<Vec<ItemPointer>> = match self.find_item(e.neighbortid) {
            Some(PageItem::Neighbors { tuple }) => match load_neighbor_tids(
                tuple,
                e.version,
                e.level,
                self.m,
                0,
            ) {
                Some(layer) => Some(first_valid(layer)),
                None => None,
            },
            _ => None,
        };
        DumpRow { tid, heaptid: e.heaptid, level: e.level, neighbortid: e.neighbortid, listed }
    }

    /// List all elements, page by page.
    pub fn dump(&self) -> (rows: Vec<DumpRow>)
        requires
            self.m <= 0xffff,
            forall|p: int|
                #![trigger self.pages@[p]]
                0 <= p < self.pages@.len() ==> self.pages@[p].items@.len() < 0x1_0000,
        ensures
            are_rows(
                self.pages@,
                self.m as int,
                places(self.pages@, self.pages@.len() as int),
                rows@,
            ),
    {
        let ghost pages = self.pages@;
        let ghost m = self.m as int;
        let mut rows: Vec<DumpRow> = Vec::new();
        let mut p: usize = 0;
        while p < self.pages.len()
            invariant
                p <= pages.len(),
                pages == self.pages@,
                m == self.m,
                m <= 0xffff,
                forall|q: int|
                    #![trigger pages[q]]
                    0 <= q < pages.len() ==> pages[q].items@.len() < 0x1_0000,
                are_rows(pages, m, places(pages, p as int), rows@),
            decreases pages.len() - p,
        {
            let page: &StoredPage = &self.pages[p];
            assert(pages[p as int].items@.len() < 0x1_0000);
            let ghost before = places(pages, p as int);
            assert(before + item_places(pages, p as int, 0) =~= before);
            let mut i: usize = 0;
            while i < page.items.len()
                invariant
                    i <= page.items@.len(),
                    p < pages.len(),
                    page.items@.len() < 0x1_0000,
                    *page == pages[p as int],
                    pages == self.pages@,
                    m == self.m,
                    m <= 0xffff,
                    are_rows(pages, m, before + item_places(pages, p as int, i as int), rows@),
                decreases page.items@.len() - i,
            {
                let ghost done = before + item_places(pages, p as int, i as int);
                let ghost rows0 = rows@;
                match &page.items[i] {
                    PageItem::Element { tuple } => {
                        let tid: ItemPointer = ItemPointer::new(page.blkno, (i + 1) as u16);
                        let row: DumpRow = self.dump_element(tid, tuple);
                        rows.push(row);
                        proof {
                            let place = Place { page: p as int, item: i as int };
                            let next = before + item_places(pages, p as int, i + 1);
                            assert(next =~= done.push(place));
                            assert forall|k: int| #![trigger rows@[k]] 0 <= k
                                < rows@.len() implies is_row(
                                pages,
                                m,
                                next[k].tid(pages),
                                next[k].element(pages),
                                rows@[k],
                            ) by {
                                if k < rows0.len() {
                                    assert(rows@[k] == rows0[k]);
                                    assert(next[k] == done[k]);
                                }
                            }
                        }
                    },
                    PageItem::Neighbors { .. } => {
                        assert(before + item_places(pages, p as int, i + 1) =~= done);
                    },
                }
                i = i + 1;
            }
            p = p + 1;
        }
        rows
    }
}

/// The addresses up to the first invalid one.
fn first_valid(layer: Vec<ItemPointer>) -> (out: Vec<ItemPointer>)
    ensures
        out@ == layer@.take(tuple::valid_prefix(layer@)),
{
    let mut n: usize = 0;
    while n < layer.len() && layer[n].block_number != item_pointer::INVALID_BLOCK_NUMBER
        invariant
            n <= layer@.len(),
            forall|j: int|
                #![trigger layer@[j]]
                0 <= j < n ==> layer@[j].block_number != item_pointer::INVALID_BLOCK_NUMBER,
        decreases layer@.len() - n,
    {
        n = n + 1;
    }
    proof {
        tuple::lemma_valid_prefix(layer@, n as int);
    }
    let mut out: Vec<ItemPointer> = layer;
    out.truncate(n);
    assert(out@ =~= layer@.take(n as int));
    out
}

/// A place of an item: its page and its place on the page.
pub struct Place {
    pub page: int,
    pub item: int,
}

impl Place {
    /// The address.
    pub open spec fn tid(&self, pages: Seq<StoredPage>) -> ItemPointer {
        ItemPointer { block_number: pages[self.page].blkno, offset: (self.item + 1) as u16 }
    }

    /// The element there.
    pub open spec fn element(&self, pages: Seq<StoredPage>) -> ElementTuple {
        pages[self.page].items@[self.item]->Element_tuple
    }
}

/// The places of the elements among the first `k` items of page `p`.
pub open spec fn item_places(pages: Seq<StoredPage>, p: int, k: int) -> Seq<Place>
    decreases k,
{
    if k <= 0 {
        Seq::empty()
    } else {
        let before = item_places(pages, p, k - 1);
        if pages[p].items@[k - 1] is Element {
            before.push(Place { page: p, item: k - 1 })
        } else {
            before
        }
    }
}

/// The places of the elements of the first `k` pages.
pub open spec fn places(pages: Seq<StoredPage>, k: int) -> Seq<Place>
    decreases k,
{
    if k <= 0 {
        Seq::empty()
    } else {
        places(pages, k - 1) + item_places(pages, k - 1, pages[k - 1].items@.len() as int)
    }
}

/// `rows` list the elements at `all`.
pub open spec fn are_rows(
    pages: Seq<StoredPage>,
    m: int,
    all: Seq<Place>,
    rows: Seq<DumpRow>,
) -> bool {
    &&& rows.len() == all.len()
    &&& forall|k: int|
        #![trigger rows[k]]
        0 <= k < rows.len() ==> is_row(
            pages,
            m,
            all[k].tid(pages),
            all[k].element(pages),
            rows[k],
        )
}

} // verus!
