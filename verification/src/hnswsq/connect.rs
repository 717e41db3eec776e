//! Connections between elements.
use crate::hnswsq::select;
use crate::hnswsq::select::{select_neighbors, Selection};
use crate::hnswsq::types::{Candidate, NeighborArray};
use vstd::prelude::*;

verus! {

/// Append `neighbors` to the array.
pub fn add_connections(array: &mut NeighborArray, neighbors: &Vec<Candidate>)
    ensures
        final(array).items@ == old(array).items@ + neighbors@,
        final(array).closer_set == old(array).closer_set,
{
    let mut i: usize = 0;
    while i < neighbors.len()
        invariant
            i <= neighbors@.len(),
            array.items@ == old(array).items@ + neighbors@.take(i as int),
            array.closer_set == old(array).closer_set,
        decreases neighbors@.len() - i,
    {
        assert(neighbors@.take(i + 1) =~= neighbors@.take(i as int).push(neighbors@[i as int]));
        array.items.push(neighbors[i]);
        i = i + 1;
    }
    assert(neighbors@.take(neighbors@.len() as int) =~= neighbors@);
}

/// How a connection update changed an array.
#[derive(Clone, Copy, Debug, PartialEq, Eq, Structural)]
pub enum ConnectionUpdate {
    /// The new candidate was appended.
    Appended,
    /// The new candidate took this place.
    Replaced { place: usize },
    /// The new candidate was pruned.
    Unchanged,
}

/// Whether no element occurs twice.
pub open spec fn distinct(c: Seq<Candidate>) -> bool {
    forall|i: int, j: int|
        #![trigger c[i], c[j]]
        0 <= i < j < c.len() ==> c[i].element != c[j].element
}

/// Whether `i` is the first place of element `e`.
pub open spec fn is_first_place(c: Seq<Candidate>, e: usize, i: int) -> bool {
    &&& 0 <= i < c.len()
    &&& c[i].element == e
    &&& forall|j: int| #![trigger c[j]] 0 <= j < i ==> c[j].element != e
}

/// Whether the cached flags of the array can be used: it is full, and they
/// say which of its candidates are kept.
pub open spec fn cache_ok(
    pair: spec_fn(usize, usize) -> i32,
    array: NeighborArray,
    lm: int,
) -> bool {
    array.closer_set ==> {
        &&& array.items@.len() == lm
        &&& forall|order: Seq<int>| #[trigger]
            select::is_order(array.items@, true, order) ==> select::cache_holds(
                pair,
                array.items@,
                None,
                order,
            )
    }
}

/// The new candidate.
pub open spec fn candidate_for(new_element: usize, distance: i32) -> Candidate {
    Candidate { element: new_element, distance, closer: false }
}

/// What updating a full array leads to: the candidates with the new one,
/// `all`, become `after` by a selection, and the new one takes the place of
/// the one that is pruned.
pub open spec fn shrunk(
    all: Seq<Candidate>,
    after: Seq<Candidate>,
    s: Selection,
    items: Seq<Candidate>,
    update: ConnectionUpdate,
) -> bool {
    let n = all.len() - 1;
    let pruned = all[s.pruned->0 as int].element;
    match update {
        ConnectionUpdate::Appended => false,
        ConnectionUpdate::Replaced { place } => is_first_place(all.take(n), pruned, place as int)
            && items == after.take(n).update(place as int, after[n]),
        ConnectionUpdate::Unchanged => {
            &&& forall|i: int| #![trigger all[i]] 0 <= i < n ==> all[i].element != pruned
            &&& items == after.take(n)
        },
    }
}

/// What connecting a new candidate leads to: it is appended while there is
/// room; a full array shrinks.
pub open spec fn is_connected(
    pair: spec_fn(usize, usize) -> i32,
    before: NeighborArray,
    new_candidate: Candidate,
    lm: int,
    after: NeighborArray,
    update: ConnectionUpdate,
) -> bool {
    if before.items@.len() < lm {
        &&& update == ConnectionUpdate::Appended
        &&& after.items@ == before.items@.push(new_candidate)
        &&& after.closer_set == before.closer_set
    } else {
        &&& after.items@.len() == before.items@.len()
        &&& after.closer_set
        &&& exists|order: Seq<int>, changed: Seq<Candidate>, s: Selection|
            shrunk_by(pair, before, new_candidate, lm, order, changed, s, after.items@, update)
    }
}

/// Connecting a candidate adds no other, and keeps within the limit.
pub proof fn law_connecting_adds_nothing_else(
    pair: spec_fn(usize, usize) -> i32,
    before: NeighborArray,
    new_candidate: Candidate,
    lm: int,
    after: NeighborArray,
    update: ConnectionUpdate,
    i: int,
)
    requires
        is_connected(pair, before, new_candidate, lm, after, update),
        0 <= i < after.items@.len(),
    ensures
        after.items@[i].element == new_candidate.element || exists|j: int|
            0 <= j < before.items@.len() && #[trigger] before.items@[j].element
                == after.items@[i].element,
        before.items@.len() <= lm ==> after.items@.len() <= lm,
{
    let n = before.items@.len() as int;
    if n < lm {
        if i < n {
            assert(before.items@[i].element == after.items@[i].element);
        }
    } else {
        let all = before.items@.push(new_candidate);
        let (order, changed, s) = choose|order: Seq<int>, changed: Seq<Candidate>, s: Selection|
            shrunk_by(pair, before, new_candidate, lm, order, changed, s, after.items@, update);
        assert(changed.take(n)[i] == changed[i]);
        let x = match update {
            ConnectionUpdate::Replaced { place } => if i == place {
                n
            } else {
                i
            },
            _ => i,
        };
        assert(after.items@[i] == changed[x]);
        assert(all[x].element == changed[x].element);
        if x < n {
            assert(before.items@[x].element == after.items@[i].element);
        }
    }
}

/// Connect a new element at `distance`: it is appended while there is room;
/// otherwise one of the candidates is pruned, and the new one takes its place
/// unless it was pruned itself.
pub fn update_connection<F: Fn(usize, usize) -> i32>(
    array: &mut NeighborArray,
    new_element: usize,
    distance: i32,
    lm: usize,
    pair: &F,
) -> (update: ConnectionUpdate)
    requires
        select::is_pair_distance(
            *pair,
            old(array).items@.push(candidate_for(new_element, distance)),
        ),
    ensures
        is_connected(
            select::pairs_of(*pair),
            *old(array),
            candidate_for(new_element, distance),
            lm as int,
            *final(array),
            update,
        ),
{
    let new_candidate: Candidate = Candidate { element: new_element, distance, closer: false };
    if array.items.len() < lm {
        array.items.push(new_candidate);
        return ConnectionUpdate::Appended;
    }
    let n: usize = array.items.len();
    let mut c: Vec<Candidate> = Vec::new();
    let mut i: usize = 0;
    while i < n
        invariant
            i <= n,
            n == array.items@.len(),
            c@ == array.items@.take(i as int),
        decreases n - i,
    {
        assert(array.items@.take(i + 1) =~= array.items@.take(i as int).push(
            array.items@[i as int],
        ));
        c.push(array.items[i]);
        i = i + 1;
    }
    assert(array.items@.take(n as int) =~= array.items@);
    c.push(new_candidate);
    let ghost all = c@;
    let mut closer_set: bool = array.closer_set;
    let s: Selection = select_neighbors(&mut c, lm, pair, &mut closer_set, Some(n), true);
    array.closer_set = closer_set;
    let ghost after = c@;
    let ghost order = choose|order: Seq<int>|
        {
            &&& #[trigger] select::is_order(all, true, order)
            &&& !old(array).closer_set || select::cache_holds(
                select::pairs_of(*pair),
                all,
                Some(n),
                order,
            ) ==> select::selected_in_order(
                select::pairs_of(*pair),
                all,
                lm as int,
                order,
                after,
                s,
            )
        };
    let new_after: Candidate = c[n];
    let mut items: Vec<Candidate> = c;
    items.truncate(n);
    assert(items@ =~= after.take(n as int));
    let pruned: usize = match s.pruned {
        Some(p) => p,
        None => n,
    };
    let pruned_element: usize = if pruned < n {
        array.items[pruned].element
    } else {
        new_element
    };
    assert(pruned_element == all[s.pruned->0 as int].element);
    let mut place: usize = 0;
    while place < n && items[place].element != pruned_element
        invariant
            place <= n,
            n == items@.len(),
            items@ == after.take(n as int),
            n + 1 == all.len(),
            select::same_candidates(all, after),
            forall|j: int| #![trigger all[j]] 0 <= j < place ==> all[j].element != pruned_element,
        decreases n - place,
    {
        assert(items@[place as int] == after[place as int]);
        place = place + 1;
    }
    let update: ConnectionUpdate = if place < n {
        assert(after[place as int].element == pruned_element);
        assert(all[place as int].element == pruned_element);
        assert(all.take(n as int)[place as int] == all[place as int]);
        assert forall|j: int| #![trigger all.take(n as int)[j]] 0 <= j < place implies all.take(
            n as int,
        )[j].element != pruned_element by {
            assert(all[j].element != pruned_element);
        }
        items.set(place, new_after);
        ConnectionUpdate::Replaced { place }
    } else {
        ConnectionUpdate::Unchanged
    };
    array.items = items;
    assert(shrunk_by(
        select::pairs_of(*pair),
        *old(array),
        candidate_for(new_element, distance),
        lm as int,
        order,
        after,
        s,
        array.items@,
        update,
    ));
    update
}

/// How a full array shrinks, by the selection in `order` where the cached
/// flags can be used or are not.
pub open spec fn shrunk_by(
    pair: spec_fn(usize, usize) -> i32,
    array: NeighborArray,
    new_candidate: Candidate,
    lm: int,
    order: Seq<int>,
    after: Seq<Candidate>,
    s: Selection,
    items: Seq<Candidate>,
    update: ConnectionUpdate,
) -> bool {
    let all = array.items@.push(new_candidate);
    &&& select::is_order(all, true, order)
    &&& select::same_candidates(all, after)
    &&& select::is_some_selection(all.len() as int, lm, s)
    &&& !array.closer_set || select::cache_holds(
        pair,
        all,
        Some(array.items@.len() as usize),
        order,
    ) ==> select::selected_in_order(pair, all, lm, order, after, s)
    &&& shrunk(all, after, s, items, update)
}

} // verus!
