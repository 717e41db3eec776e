//! Search of one layer of an HNSW graph.
use vstd::prelude::*;

verus! {

/// A candidate of a search.
#[derive(Clone, Copy, Debug, PartialEq, Eq, Structural)]
pub struct SearchCandidate {
    /// The element, by the caller's handle.
    pub element: usize,
    /// Order key of the distance to the query.
    pub distance: i32,
    /// What ties are broken by.
    pub key: u64,
}

/// Candidates are ordered by distance; ties are broken by key.
pub open spec fn le(a: SearchCandidate, b: SearchCandidate) -> bool {
    a.distance < b.distance || (a.distance == b.distance && a.key <= b.key)
}

fn is_le(a: &SearchCandidate, b: &SearchCandidate) -> (r: bool)
    ensures
        r == le(*a, *b),
{
    a.distance < b.distance || (a.distance == b.distance && a.key <= b.key)
}

/// Nearest first.
pub open spec fn ascending(s: Seq<SearchCandidate>) -> bool {
    forall|i: int, j: int| #![trigger s[i], s[j]] 0 <= i <= j < s.len() ==> le(s[i], s[j])
}

/// Furthest first.
pub open spec fn descending(s: Seq<SearchCandidate>) -> bool {
    forall|i: int, j: int| #![trigger s[i], s[j]] 0 <= i <= j < s.len() ==> le(s[j], s[i])
}

/// `s` with `c` at its place in the order, nearest first.
pub open spec fn placed_ascending(s: Seq<SearchCandidate>, c: SearchCandidate) -> Seq<
    SearchCandidate,
>
    decreases s.len(),
{
    if s.len() == 0 || le(s.last(), c) {
        s.push(c)
    } else {
        placed_ascending(s.drop_last(), c).push(s.last())
    }
}

/// `s` with `c` at its place in the order, furthest first.
pub open spec fn placed_descending(s: Seq<SearchCandidate>, c: SearchCandidate) -> Seq<
    SearchCandidate,
>
    decreases s.len(),
{
    if s.len() == 0 || le(c, s.last()) {
        s.push(c)
    } else {
        placed_descending(s.drop_last(), c).push(s.last())
    }
}

proof fn lemma_placed_ascending(s: Seq<SearchCandidate>, c: SearchCandidate, p: int)
    requires
        0 <= p <= s.len(),
        p > 0 ==> le(s[p - 1], c),
        forall|j: int| #![trigger s[j]] p <= j < s.len() ==> !le(s[j], c),
    ensures
        placed_ascending(s, c) == s.insert(p, c),
    decreases s.len(),
{
    if p < s.len() {
        assert(!le(s[s.len() - 1], c));
        lemma_placed_ascending(s.drop_last(), c, p);
    }
    assert(placed_ascending(s, c) =~= s.insert(p, c));
}

proof fn lemma_placed_descending(s: Seq<SearchCandidate>, c: SearchCandidate, p: int)
    requires
        0 <= p <= s.len(),
        p > 0 ==> le(c, s[p - 1]),
        forall|j: int| #![trigger s[j]] p <= j < s.len() ==> !le(c, s[j]),
    ensures
        placed_descending(s, c) == s.insert(p, c),
    decreases s.len(),
{
    if p < s.len() {
        assert(!le(c, s[s.len() - 1]));
        lemma_placed_descending(s.drop_last(), c, p);
    }
    assert(placed_descending(s, c) =~= s.insert(p, c));
}

/// Put `c` at its place in the order, nearest first.
fn insert_ascending(s: &mut Vec<SearchCandidate>, c: SearchCandidate)
    requires
        ascending(old(s)@),
    ensures
        ascending(final(s)@),
        final(s)@ == placed_ascending(old(s)@, c),
        final(s)@.len() == old(s)@.len() + 1,
        exists|p: int| 0 <= p <= old(s)@.len() && final(s)@ == #[trigger] old(s)@.insert(p, c),
{
    let mut p: usize = s.len();
    while p > 0 && !is_le(&s[p - 1], &c)
        invariant
            p <= s.len(),
            s@ == old(s)@,
            forall|j: int| #![trigger s@[j]] p <= j < s@.len() ==> !le(s@[j], c),
        decreases p,
    {
        p = p - 1;
    }
    let ghost before = s@;
    s.insert(p, c);
    proof {
        let t = s@;
        assert forall|i: int, j: int| #![trigger t[i], t[j]] 0 <= i <= j < t.len() implies le(
            t[i],
            t[j],
        ) by {
            let i2 = if i < p {
                i
            } else {
                i - 1
            };
            let j2 = if j < p {
                j
            } else {
                j - 1
            };
            if i == p && j > p {
                assert(!le(before[j2], c));
            } else if j == p && i < p {
                assert(le(before[i2], before[p - 1]));
            } else if i != p && j != p {
                assert(le(before[i2], before[j2]));
            }
        }
        assert(t == before.insert(p as int, c));
        lemma_placed_ascending(before, c, p as int);
    }
}

/// Put `c` at its place in the order, furthest first.
fn insert_descending(s: &mut Vec<SearchCandidate>, c: SearchCandidate)
    requires
        descending(old(s)@),
    ensures
        descending(final(s)@),
        final(s)@ == placed_descending(old(s)@, c),
        final(s)@.len() == old(s)@.len() + 1,
        exists|p: int| 0 <= p <= old(s)@.len() && final(s)@ == #[trigger] old(s)@.insert(p, c),
{
    let mut p: usize = s.len();
    while p > 0 && !is_le(&c, &s[p - 1])
        invariant
            p <= s.len(),
            s@ == old(s)@,
            forall|j: int| #![trigger s@[j]] p <= j < s@.len() ==> !le(c, s@[j]),
        decreases p,
    {
        p = p - 1;
    }
    let ghost before = s@;
    s.insert(p, c);
    proof {
        let t = s@;
        assert forall|i: int, j: int| #![trigger t[i], t[j]] 0 <= i <= j < t.len() implies le(
            t[j],
            t[i],
        ) by {
            let i2 = if i < p {
                i
            } else {
                i - 1
            };
            let j2 = if j < p {
                j
            } else {
                j - 1
            };
            if i == p && j > p {
                assert(!le(c, before[j2]));
            } else if j == p && i < p {
                assert(le(before[p - 1], before[i2]));
            } else if i != p && j != p {
                assert(le(before[j2], before[i2]));
            }
        }
        assert(t == before.insert(p as int, c));
        lemma_placed_descending(before, c, p as int);
    }
}

/// `t` is `s` with `c` put in somewhere.
pub open spec fn with_one(s: Seq<SearchCandidate>, c: SearchCandidate, t: Seq<SearchCandidate>) -> bool {
    exists|p: int| 0 <= p <= s.len() && t == #[trigger] s.insert(p, c)
}

/// Where the search of a layer stands: the candidates that are yet to be
/// expanded, furthest first; the best ones found, nearest first; how many
/// counted towards the limit; and those that were turned away.
pub struct Frontier {
    pub c: Seq<SearchCandidate>,
    pub w: Seq<SearchCandidate>,
    pub wlen: int,
    pub discarded: Seq<SearchCandidate>,
}

impl Frontier {
    /// Whether nothing is left to be expanded, or all of it lies further than
    /// everything found.
    pub open spec fn is_over(self) -> bool {
        !(self.c.len() > 0 && self.c.last().distance <= self.w.last().distance)
    }

    /// With an entry point added.
    pub open spec fn after_entry(self, sc: SearchCandidate, counted: bool) -> Frontier {
        Frontier {
            c: placed_descending(self.c, sc),
            w: placed_ascending(self.w, sc),
            wlen: self.wlen + if counted {
                1int
            } else {
                0
            },
            discarded: self.discarded,
        }
    }

    /// After an element was offered: it is turned away where `ef` were counted
    /// and it is no nearer than the furthest found, and dropped where it is not
    /// on the layer; else it is taken up, and the furthest is turned away where
    /// one more than `ef` was counted.
    pub open spec fn after_offer(
        self,
        ef: int,
        sc: SearchCandidate,
        on_layer: bool,
        counted: bool,
    ) -> Frontier {
        if self.wlen >= ef && sc.distance >= self.w.last().distance {
            Frontier { discarded: self.discarded.push(sc), ..self }
        } else if !on_layer {
            self
        } else {
            let taken = self.after_entry(sc, counted);
            if counted && taken.wlen > ef {
                Frontier {
                    w: taken.w.drop_last(),
                    discarded: taken.discarded.push(taken.w.last()),
                    ..taken
                }
            } else {
                taken
            }
        }
    }
}

/// The state of the search of one layer: the candidates that are yet to be
/// expanded, and the best ones found.
#[derive(Debug)]
pub struct LayerSearch {
    /// How many results are asked for.
    pub ef: usize,
    /// The layer.
    pub lc: usize,
    /// Whether elements without a row do not count towards `ef` (vacuum).
    pub skipping: bool,
    /// How many candidates counted towards `ef` so far.
    pub wlen: usize,
    /// To be expanded; furthest first, so that the nearest is at hand.
    pub c: Vec<SearchCandidate>,
    /// The best so far; nearest first, so that the furthest is at hand.
    pub w: Vec<SearchCandidate>,
    /// Whether candidates that are turned away are kept.
    pub track_discarded: bool,
    pub discarded: Vec<SearchCandidate>,
}

impl LayerSearch {
    /// The candidates are in order, and something was found as long as
    /// something is to be expanded.
    pub open spec fn wf(&self) -> bool {
        &&& descending(self.c@)
        &&& ascending(self.w@)
        &&& self.c@.len() > 0 ==> self.w@.len() > 0
        &&& !self.track_discarded ==> self.discarded@.len() == 0
    }

    /// Whether the search stands at `f`.
    pub open spec fn is_at(&self, f: Frontier) -> bool {
        &&& self.c@ == f.c
        &&& self.w@ == f.w
        &&& self.wlen == f.wlen
        &&& self.track_discarded ==> self.discarded@ == f.discarded
    }

    /// Whether nothing but the candidates differs.
    pub open spec fn same_task(&self, other: &LayerSearch) -> bool {
        &&& self.ef == other.ef
        &&& self.lc == other.lc
        &&& self.skipping == other.skipping
        &&& self.track_discarded == other.track_discarded
    }

    /// Whether an element counts towards `ef`: all do, except that elements
    /// without a row do not where they are skipped.
    pub open spec fn counts(&self, has_row: bool) -> bool {
        !self.skipping || has_row
    }

    /// Whether a candidate at this distance is taken up: there is room, or it
    /// is nearer than the furthest found.
    pub open spec fn admits(&self, distance: i32) -> bool {
        self.wlen < self.ef || (self.w@.len() > 0 && distance < self.w@.last().distance)
    }

    /// What offering an element leads to: one that is not admitted is turned
    /// away, one that is not on the layer is dropped, any other is taken up,
    /// and the furthest drops out once more than `ef` were counted.
    pub open spec fn offered(
        &self,
        sc: SearchCandidate,
        level: u8,
        has_row: bool,
        next: &LayerSearch,
    ) -> bool {
        &&& next.same_task(self)
        &&& if !self.admits(sc.distance) {
            &&& next.c@ == self.c@
            &&& next.w@ == self.w@
            &&& next.wlen == self.wlen
            &&& next.discarded@ == if self.track_discarded {
                self.discarded@.push(sc)
            } else {
                self.discarded@
            }
        } else if level < self.lc {
            &&& next.c@ == self.c@
            &&& next.w@ == self.w@
            &&& next.wlen == self.wlen
            &&& next.discarded@ == self.discarded@
        } else {
            &&& with_one(self.c@, sc, next.c@)
            &&& next.wlen == self.wlen + if self.counts(has_row) {
                1int
            } else {
                0
            }
            &&& took_up(
                self.w@,
                sc,
                self.counts(has_row) && self.wlen + 1 > self.ef,
                next.w@,
                self.discarded@,
                next.discarded@,
                self.track_discarded,
            )
        }
    }

    /// Whether an element counts towards `ef`.
    pub fn count_element(&self, has_row: bool) -> (r: bool)
        ensures
            r == self.counts(has_row),
    {
        !self.skipping || has_row
    }

    /// A search that was given no entry point yet.
    pub fn new(ef: usize, lc: usize, skipping: bool, track_discarded: bool) -> (s: LayerSearch)
        ensures
            s.wf(),
            s.ef == ef,
            s.lc == lc,
            s.skipping == skipping,
            s.track_discarded == track_discarded,
            s.wlen == 0,
            s.c@.len() == 0,
            s.w@.len() == 0,
            s.discarded@.len() == 0,
    {
        LayerSearch {
            ef,
            lc,
            skipping,
            wlen: 0,
            c: Vec::new(),
            w: Vec::new(),
            track_discarded,
            discarded: Vec::new(),
        }
    }

    /// Add an entry point.
    pub fn add_entry(&mut self, sc: SearchCandidate, has_row: bool)
        requires
            old(self).wf(),
            old(self).wlen < usize::MAX,
        ensures
            final(self).wf(),
            final(self).same_task(old(self)),
            final(self).discarded@ == old(self).discarded@,
            with_one(old(self).c@, sc, final(self).c@),
            with_one(old(self).w@, sc, final(self).w@),
            forall|f: Frontier| #[trigger]
                old(self).is_at(f) ==> final(self).is_at(
                    f.after_entry(sc, old(self).counts(has_row)),
                ),
            final(self).wlen == old(self).wlen + if old(self).counts(has_row) {
                1int
            } else {
                0
            },
    {
        insert_descending(&mut self.c, sc);
        insert_ascending(&mut self.w, sc);
        if self.count_element(has_row) {
            self.wlen = self.wlen + 1;
        }
    }

    /// The next candidate to expand: the nearest one, unless it lies further
    /// than everything found, in which case the search is over.
    pub fn next_expansion(&mut self) -> (r: Option<SearchCandidate>)
        requires
            old(self).wf(),
        ensures
            final(self).wf(),
            final(self).same_task(old(self)),
            final(self).wlen == old(self).wlen,
            final(self).w@ == old(self).w@,
            final(self).discarded@ == old(self).discarded@,
            r is Some <==> old(self).c@.len() > 0 && old(self).c@.last().distance <= old(
                self,
            ).w@.last().distance,
            r is Some ==> r->0 == old(self).c@.last(),
            old(self).c@.len() > 0 ==> final(self).c@ == old(self).c@.drop_last(),
            old(self).c@.len() == 0 ==> final(self).c@ == old(self).c@,
    {
        match self.c.pop() {
            Some(sc) => {
                assert(self.c@ =~= old(self).c@.drop_last());
                if sc.distance > self.w[self.w.len() - 1].distance {
                    None
                } else {
                    Some(sc)
                }
            },
            None => None,
        }
    }

    /// The distance from which on a candidate need not be loaded.
    pub fn max_distance(&self) -> (d: Option<i32>)
        ensures
            d is None <==> self.wlen < self.ef || self.track_discarded || self.w@.len() == 0,
            d is Some ==> d->0 == self.w@.last().distance,
    {
        if self.wlen < self.ef || self.track_discarded || self.w.len() == 0 {
            None
        } else {
            Some(self.w[self.w.len() - 1].distance)
        }
    }

    /// Offer an element that was met for the first time.
    pub fn offer(&mut self, sc: SearchCandidate, level: u8, has_row: bool)
        requires
            old(self).wf(),
            old(self).wlen < usize::MAX,
            old(self).w@.len() > 0,
        ensures
            final(self).wf(),
            old(self).offered(sc, level, has_row, final(self)),
            forall|f: Frontier| #[trigger]
                old(self).is_at(f) ==> final(self).is_at(
                    f.after_offer(
                        old(self).ef as int,
                        sc,
                        level >= old(self).lc,
                        old(self).counts(has_row),
                    ),
                ),
            final(self).w@.len() > 0,
    {
        let f: SearchCandidate = self.w[self.w.len() - 1];
        let always_add: bool = self.wlen < self.ef;
        if !(sc.distance < f.distance || always_add) {
            if self.track_discarded {
                self.discarded.push(sc);
            }
            return;
        }
        if (level as usize) < self.lc {
            return;
        }
        insert_descending(&mut self.c, sc);
        insert_ascending(&mut self.w, sc);
        let ghost grown = self.w@;
        if self.count_element(has_row) {
            self.wlen = self.wlen + 1;
            if self.wlen > self.ef {
                match self.w.pop() {
                    Some(d) => {
                        assert(self.w@ =~= grown.drop_last());
                        if self.track_discarded {
                            self.discarded.push(d);
                        }
                    },
                    None => {},
                }
            }
        }
        assert(with_one(old(self).w@, sc, grown));
    }

    /// The results, furthest first.
    pub fn finish(self) -> (out: Vec<SearchCandidate>)
        requires
            self.wf(),
        ensures
            out@ == self.w@.reverse(),
            descending(out@),
    {
        let ghost all = self.w@;
        let mut w: Vec<SearchCandidate> = self.w;
        let mut out: Vec<SearchCandidate> = Vec::new();
        while w.len() > 0
            invariant
                w@.len() + out@.len() == all.len(),
                w@ == all.take(w@.len() as int),
                out@ == all.reverse().take(out@.len() as int),
            decreases w@.len(),
        {
            let ghost n = w@.len();
            match w.pop() {
                Some(sc) => {
                    out.push(sc);
                },
                None => {},
            }
            assert(w@ =~= all.take(n - 1));
            assert(out@ =~= all.reverse().take(out@.len() as int));
        }
        assert(out@ =~= all.reverse());
        out
    }
}

/// How the best candidates change when `sc` is taken up: it is put in, and
/// where one is `over` the limit the furthest drops out.
pub open spec fn took_up(
    w: Seq<SearchCandidate>,
    sc: SearchCandidate,
    over: bool,
    new_w: Seq<SearchCandidate>,
    discarded: Seq<SearchCandidate>,
    new_discarded: Seq<SearchCandidate>,
    track: bool,
) -> bool {
    exists|grown: Seq<SearchCandidate>|
        {
            &&& #[trigger] with_one(w, sc, grown)
            &&& ascending(grown)
            &&& new_w == if over {
                grown.drop_last()
            } else {
                grown
            }
            &&& new_discarded == if over && track {
                discarded.push(grown.last())
            } else {
                discarded
            }
        }
}

} // verus!
