//! What codes, nodes and caches hold, told by their fields.
use crate::labels::LabelSet;
use crate::rabitq::cache;
use crate::rabitq::codes;
use crate::rabitq::node;
use crate::rabitq::node::RabitqNode;
use crate::rabitq::quantize;
use crate::rabitq::quantize::RabitqCode;
use crate::rabitq::rotation;
use crate::rabitq::storage;
use crate::util::float_bits;
use crate::util::item_pointer::{IndexPointer, ItemPointer};
use crate::util::lru;
use crate::util::lru::LruItem;
use vstd::prelude::*;

verus! {

/// The distance of two codes is that of their bytes together. Codes of eight bits
/// are compared as signed bytes, those of four bits as two signed halves each.
pub proof fn law_distances_add_up(a: Seq<u8>, b: Seq<u8>, x: u8, y: u8)
    requires
        a.len() == b.len(),
    ensures
        codes::l1(Seq::empty(), Seq::empty(), 8, 0) == 0,
        codes::l1(Seq::empty(), Seq::empty(), 4, 0) == 0,
        codes::l1(a.push(x), b.push(y), 8, a.len() as int + 1) == codes::l1(a, b, 8, a.len() as int)
            + absolute(signed(x as int, 128) - signed(y as int, 128)),
        codes::l1(a.push(x), b.push(y), 4, a.len() as int + 1) == codes::l1(a, b, 4, a.len() as int)
            + absolute(signed((x & 15) as int, 8) - signed((y & 15) as int, 8)) + absolute(
            signed((x >> 4u8) as int, 8) - signed((y >> 4u8) as int, 8),
        ),
{
    lemma_l1_of_prefix(a, b, x, y, 8, a.len() as int);
    lemma_l1_of_prefix(a, b, x, y, 4, a.len() as int);
    lemma_halves(x);
    lemma_halves(y);
}

/// The number that a code in two's complement stands for, where `half` is the
/// first that stands for a negative one.
pub open spec fn signed(code: int, half: int) -> int {
    if code < half {
        code
    } else {
        code - 2 * half
    }
}

/// How far a number is from zero.
pub open spec fn absolute(n: int) -> int {
    if n < 0 {
        -n
    } else {
        n
    }
}

proof fn lemma_halves(x: u8)
    by (bit_vector)
    ensures
        x & 15 == x % 16,
        x >> 4u8 == x / 16,
{
}

proof fn lemma_l1_of_prefix(a: Seq<u8>, b: Seq<u8>, x: u8, y: u8, num_bits: u8, n: int)
    requires
        a.len() == b.len(),
        0 <= n <= a.len(),
    ensures
        codes::l1(a.push(x), b.push(y), num_bits, n) == codes::l1(a, b, num_bits, n),
    decreases n,
{
    if n > 0 {
        lemma_l1_of_prefix(a, b, x, y, num_bits, n - 1);
    }
}

/// The product of two codes is that of their places together: each code stands for
/// its distance from the middle of the scale, doubled.
pub proof fn law_products_add_up(a: Seq<u8>, b: Seq<u8>, x: u8, y: u8)
    requires
        a.len() == b.len(),
    ensures
        codes::dot(Seq::empty(), Seq::empty(), 8, 0) == 0,
        codes::dot(Seq::empty(), Seq::empty(), 4, 0) == 0,
        codes::dot(a.push(x), b.push(y), 8, a.len() as int + 1) == codes::dot(a, b, 8, a.len() as int) + (
        x + x - 255) * (y + y - 255),
        codes::dot(a.push(x), b.push(y), 4, a.len() as int + 1) == codes::dot(a, b, 4, a.len() as int) + ((
        x & 15) + (x & 15) - 15) * ((y & 15) + (y & 15) - 15) + ((x >> 4u8) + (x >> 4u8) - 15) * ((
        y >> 4u8) + (y >> 4u8) - 15),
{
    lemma_dot_of_prefix(a, b, x, y, 8, a.len() as int);
    lemma_dot_of_prefix(a, b, x, y, 4, a.len() as int);
    lemma_halves(x);
    lemma_halves(y);
    assert(2 * (x as int) - 255 == x + x - 255);
    assert(2 * (y as int) - 255 == y + y - 255);
    assert(2 * (x as int % 16) - 15 == (x & 15) + (x & 15) - 15);
    assert(2 * (y as int % 16) - 15 == (y & 15) + (y & 15) - 15);
    assert(2 * (x as int / 16) - 15 == (x >> 4u8) + (x >> 4u8) - 15);
    assert(2 * (y as int / 16) - 15 == (y >> 4u8) + (y >> 4u8) - 15);
}

proof fn lemma_dot_of_prefix(a: Seq<u8>, b: Seq<u8>, x: u8, y: u8, num_bits: u8, n: int)
    requires
        a.len() == b.len(),
        0 <= n <= a.len(),
    ensures
        codes::dot(a.push(x), b.push(y), num_bits, n) == codes::dot(a, b, num_bits, n),
    decreases n,
{
    if n > 0 {
        lemma_dot_of_prefix(a, b, x, y, num_bits, n - 1);
    }
}

/// The neighbors of a node are its addresses before the first one without a block,
/// all of them if there is none.
pub proof fn law_neighbors_end_at_the_first_gap(pointers: Seq<ItemPointer>)
    ensures
        ({
            let listed = node::listed_neighbors(pointers);
            let n = listed.len();
            &&& n == node::count_neighbors(pointers)
            &&& n <= pointers.len()
            &&& forall|i: int|
                #![trigger pointers[i]]
                0 <= i < n ==> listed[i] == pointers[i] && pointers[i].block_number != 0xFFFF_FFFF
            &&& n < pointers.len() ==> pointers[n as int].block_number == 0xFFFF_FFFF
        }),
    decreases pointers.len(),
{
    if pointers.len() > 0 && pointers[0].block_number != 0xFFFF_FFFF {
        let rest = pointers.skip(1);
        law_neighbors_end_at_the_first_gap(rest);
        let listed = node::listed_neighbors(pointers);
        let n = listed.len() as int;
        assert forall|i: int| #![trigger pointers[i]] 0 <= i < n implies listed[i] == pointers[i]
            && pointers[i].block_number != 0xFFFF_FFFF by {
            if i > 0 {
                assert(rest[i - 1] == pointers[i]);
            }
        }
        if n < pointers.len() {
            assert(rest[n - 1] == pointers[n]);
        }
    }
}

/// Writing neighbors replaces the first addresses, puts a gap behind them where the
/// node has room for more, and leaves the others as they are.
pub proof fn law_neighbors_are_written_from_the_front(
    pointers: Seq<ItemPointer>,
    neighbors: Seq<ItemPointer>,
    num_neighbors: u32,
    i: int,
)
    requires
        neighbors.len() <= pointers.len(),
        neighbors.len() < num_neighbors ==> neighbors.len() < pointers.len(),
        0 <= i < pointers.len(),
    ensures
        ({
            let written = node::with_neighbors(pointers, neighbors, num_neighbors);
            &&& written.len() == pointers.len()
            &&& i < neighbors.len() ==> written[i] == neighbors[i]
            &&& i == neighbors.len() < num_neighbors ==> written[i].block_number == 0xFFFF_FFFF
                && written[i].offset == 0
            &&& i > neighbors.len() || num_neighbors <= neighbors.len() <= i ==> written[i]
                == pointers[i]
        }),
{
}

/// A place is taken exactly if nothing is asked for, if nothing is left out, or if
/// its labels share one with those asked for; the places come in order.
pub proof fn law_taken_share_a_label(
    query: Option<LabelSet>,
    labels: Seq<Option<LabelSet>>,
    no_filter: bool,
    n: int,
)
    requires
        0 <= n <= labels.len(),
        labels.len() <= usize::MAX,
    ensures
        ({
            let out = storage::taken(query, labels, no_filter, n);
            &&& forall|i: int|
                #![trigger labels[i]]
                0 <= i < n ==> (out.contains(i as usize) <==> query is None || no_filter || (
                labels[i] is Some && exists|a: int, b: int|
                    #![trigger query->0.labels@[a], labels[i]->0.labels@[b]]
                    0 <= a < query->0.labels@.len() && 0 <= b < labels[i]->0.labels@.len()
                        && query->0.labels@[a] == labels[i]->0.labels@[b]))
            &&& forall|a: int| #![trigger out[a]] 0 <= a < out.len() ==> out[a] < n
            &&& forall|a: int, b: int|
                #![trigger out[a], out[b]]
                0 <= a < b < out.len() ==> out[a] < out[b]
        }),
    decreases n,
{
    if n > 0 {
        law_taken_share_a_label(query, labels, no_filter, n - 1);
        let before = storage::taken(query, labels, no_filter, n - 1);
        let out = storage::taken(query, labels, no_filter, n);
        assert forall|i: int| #![trigger labels[i]] 0 <= i < n implies (out.contains(i as usize)
            <==> query is None || no_filter || (labels[i] is Some && exists|a: int, b: int|
            #![trigger query->0.labels@[a], labels[i]->0.labels@[b]]
            0 <= a < query->0.labels@.len() && 0 <= b < labels[i]->0.labels@.len()
                && query->0.labels@[a] == labels[i]->0.labels@[b])) by {
            if query is Some && labels[i] is Some {
                lemma_common(query->0, labels[i]->0);
            }
            if before.contains(i as usize) {
                let a = choose|a: int| 0 <= a < before.len() && before[a] == i as usize;
                assert(out[a] == before[a]);
                assert(before[a] < n - 1);
            }
            if out.contains(i as usize) && i < n - 1 {
                let a = choose|a: int| 0 <= a < out.len() && out[a] == i as usize;
                if a < before.len() {
                    assert(out[a] == before[a]);
                }
            }
            if i == n - 1 && out.len() > before.len() {
                assert(out[before.len() as int] == i as usize);
            }
        }
    }
}

proof fn lemma_common(q: LabelSet, l: LabelSet)
    ensures
        q.have_common(l) <==> exists|a: int, b: int|
            #![trigger q.labels@[a], l.labels@[b]]
            0 <= a < q.labels@.len() && 0 <= b < l.labels@.len() && q.labels@[a] == l.labels@[b],
{
    if q.have_common(l) {
        let a = choose|i: int|
            0 <= i < q.labels@.len() && l.labels@.contains(#[trigger] q.labels@[i]);
        let b = choose|b: int| 0 <= b < l.labels@.len() && l.labels@[b] == q.labels@[a];
        assert(q.labels@[a] == l.labels@[b]);
    }
    if exists|a: int, b: int|
        #![trigger q.labels@[a], l.labels@[b]]
        0 <= a < q.labels@.len() && 0 <= b < l.labels@.len() && q.labels@[a] == l.labels@[b] {
        let (a, b) = choose|a: int, b: int|
            #![trigger q.labels@[a], l.labels@[b]]
            0 <= a < q.labels@.len() && 0 <= b < l.labels@.len() && q.labels@[a] == l.labels@[b];
        assert(l.labels@.contains(q.labels@[a]));
    }
}

/// Every node that was not met yet is visited.
pub proof fn law_unmet_nodes_are_visited(
    pointers: Seq<ItemPointer>,
    met: Set<u64>,
    n: int,
    i: int,
)
    requires
        0 <= i < n <= pointers.len(),
        !met.contains((pointers[i].block_number * 0x1_0000 + pointers[i].offset) as u64),
    ensures
        storage::first_met(pointers, met, n).contains(pointers[i]),
    decreases n,
{
    let before = storage::first_met(pointers, met, n - 1);
    let out = storage::first_met(pointers, met, n);
    if i < n - 1 {
        law_unmet_nodes_are_visited(pointers, met, n - 1, i);
        lemma_still_among(before, out, pointers[i]);
    } else {
        let p = pointers[i];
        if storage::met_after(pointers, met, n - 1).contains(
            (p.block_number * 0x1_0000 + p.offset) as u64,
        ) {
            let j = lemma_met_by(pointers, met, n - 1, p);
            assert(pointers[j] == p);
            law_unmet_nodes_are_visited(pointers, met, n - 1, j);
            lemma_still_among(before, out, p);
        } else {
            assert(out[out.len() - 1] == p);
        }
    }
}

proof fn lemma_still_among(before: Seq<ItemPointer>, after: Seq<ItemPointer>, p: ItemPointer)
    requires
        before.contains(p),
        after == before || exists|q: ItemPointer| after == #[trigger] before.push(q),
    ensures
        after.contains(p),
{
    let i = choose|i: int| 0 <= i < before.len() && before[i] == p;
    assert(after[i] == p);
}

proof fn lemma_met_by(pointers: Seq<ItemPointer>, met: Set<u64>, n: int, p: ItemPointer) -> (j: int)
    requires
        0 <= n <= pointers.len(),
        !met.contains((p.block_number * 0x1_0000 + p.offset) as u64),
        storage::met_after(pointers, met, n).contains(
            (p.block_number * 0x1_0000 + p.offset) as u64,
        ),
    ensures
        0 <= j < n,
        pointers[j] == p,
    decreases n,
{
    if n <= 0 {
        0
    } else {
        let q = pointers[n - 1];
        if (q.block_number * 0x1_0000 + q.offset) as u64 == (p.block_number * 0x1_0000 + p.offset)
            as u64 {
            assert(q.block_number * 0x1_0000 + q.offset == p.block_number * 0x1_0000 + p.offset);
            assert(q.block_number == p.block_number && q.offset == p.offset);
            n - 1
        } else {
            lemma_met_by(pointers, met, n - 1, p)
        }
    }
}

/// The code of a value is its level where it is not negative; that of its negative
/// mirrors it on the scale.
pub proof fn law_negative_values_are_mirrored(bits: u32, level: int)
    requires
        0 < bits <= 0x7F80_0000,
    ensures
        quantize::folded(bits, level, 3) == level,
        quantize::folded(bits, level, 7) == level,
        quantize::folded(float_bits::negated(bits), level, 3) == 7 - level,
        quantize::folded(float_bits::negated(bits), level, 7) == 127 - level,
        quantize::folded(0, level, 3) == level,
        quantize::folded(0x8000_0000, level, 3) == level,
        quantize::folded(0, level, 7) == level,
        quantize::folded(0x8000_0000, level, 7) == level,
        quantize::is_not_negative(bits),
        !quantize::is_not_negative(float_bits::negated(bits)),
        quantize::is_not_negative(0),
        quantize::is_not_negative(0x8000_0000),
{
    assert(bits ^ 0x8000_0000 == bits + 0x8000_0000) by (bit_vector)
        requires
            bits <= 0x7F80_0000,
    ;
}

/// The sign of dimension `i` stands in bit `i % 64` of word `i / 64`, and its code,
/// of three bits, in half `i % 2` of byte `i / 2`.
pub proof fn law_signs_and_codes_stand_in_the_bits(words: Seq<u64>, packed: Seq<u8>, i: int)
    requires
        0 <= i,
    ensures
        quantize::sign_bit(words, i) <==> (words[i / 64] >> ((i % 64) as u64)) & 1 == 1,
        quantize::ex_code_at(packed, 3, i) == (packed[i / 2] >> ((4 * (i % 2)) as u8)) & 15,
        quantize::ex_code_at(packed, 7, i) == packed[i],
{
    crate::quantization::packing::law_digits_are_packed_from_the_low_bits(packed, i);
}

/// The input of a rotation is the vector, filled up with zeros.
pub proof fn law_rotation_input_is_padded(input: Seq<u32>, dim: int)
    requires
        input.len() <= dim,
    ensures
        rotation::rotation_input(input, dim).take(input.len() as int) == input,
        rotation::rotation_input(input, dim).skip(input.len() as int) == Seq::new(
            (dim - input.len()) as nat,
            |i: int| 0u32,
        ),
{
    let out = rotation::rotation_input(input, dim);
    assert(out.take(input.len() as int) =~= input);
    assert(out.skip(input.len() as int) =~= Seq::new(
        (dim - input.len()) as nat,
        |i: int| 0u32,
    ));
}

/// A cache hands out the value it holds for an address, and the one that was read
/// where it holds none.
pub proof fn law_cache_hands_out_what_was_read<R: Fn(IndexPointer) -> RabitqCode>(
    read: R,
    before: Seq<LruItem<RabitqCode>>,
    capacity: usize,
    p: IndexPointer,
    mid: Seq<LruItem<RabitqCode>>,
    code: RabitqCode,
    after: Seq<LruItem<RabitqCode>>,
    i: int,
)
    requires
        capacity > 0,
        before.len() <= capacity,
        forall|a: int, b: int|
            #![trigger before[a], before[b]]
            0 <= a < b < before.len() ==> before[a].key != before[b].key,
        cache::is_taken_in(read, before, capacity, p, mid),
        cache::is_handed_out(
            mid,
            (p.block_number * 0x1_0000 + p.offset) as u64,
            code,
            after,
        ),
    ensures
        0 <= i < before.len() && before[i].key == p.block_number * 0x1_0000 + p.offset ==> code
            == before[i].value,
        (forall|a: int|
            #![trigger before[a]]
            0 <= a < before.len() ==> before[a].key != p.block_number * 0x1_0000 + p.offset)
            ==> call_ensures(read, (p,), code),
        after.len() > 0,
        after.last().key == p.block_number * 0x1_0000 + p.offset,
        after.last().value == code,
        after.len() <= capacity,
{
    let key = (p.block_number * 0x1_0000 + p.offset) as u64;
    assert(key == p.block_number * 0x1_0000 + p.offset);
    assert(cache::key_of(p) == key);
    let j = choose|j: int|
        #![trigger lru::used(mid, j)]
        0 <= j < mid.len() && mid[j].key == key && code == mid[j].value && after == lru::used(
            mid,
            j,
        );
    if lru::has_key(before, key) {
        let a = choose|a: int| 0 <= a < before.len() && (#[trigger] before[a]).key == key;
        if 0 <= i < before.len() && before[i].key == key {
            if i < j {
                assert(before[i].key != before[j].key);
            } else if j < i {
                assert(before[j].key != before[i].key);
            }
        }
    } else {
        let read_code = choose|c: RabitqCode| #[trigger]
            call_ensures(read, (p,), c) && mid == lru::pushed(
                before,
                capacity,
                LruItem { key, value: c },
            );
        if j < mid.len() - 1 {
            if before.len() == capacity {
                assert(mid[j] == before[j + 1]);
            } else {
                assert(mid[j] == before[j]);
            }
        }
        assert(j == mid.len() - 1);
    }
}

/// A cache has room for as many entries as fit into its budget, and at least for
/// the least number.
pub proof fn law_capacity_fills_the_budget(budget: int, size: int, least: int)
    requires
        0 <= budget,
        0 < size,
        0 <= least,
    ensures
        ({
            let c = cache::capacity_of(budget, size, least);
            &&& c >= least
            &&& c > least ==> c * size <= budget
            &&& (c + 1) * size > budget
        }),
{
    let fitting = budget / size;
    vstd::arithmetic::div_mod::lemma_fundamental_div_mod(budget, size);
    assert(fitting * size <= budget < (fitting + 1) * size) by (nonlinear_arith)
        requires
            budget == size * fitting + budget % size,
            0 <= budget % size < size,
    ;
    let c = cache::capacity_of(budget, size, least);
    assert((c + 1) * size >= (fitting + 1) * size) by (nonlinear_arith)
        requires
            c >= fitting,
            size > 0,
    ;
}

/// An entry takes sixteen bytes for each word of the code, or one for each byte,
/// and a fixed number besides.
pub proof fn law_entries_grow_with_the_code(n: int)
    ensures
        cache::code_entry_size(0) == 72,
        cache::code_entry_size(n + 1) - cache::code_entry_size(n) == 16,
        cache::vector_entry_size(0) == 44,
        cache::vector_entry_size(n + 1) - cache::vector_entry_size(n) == 1,
{
}

/// Taking in addresses one by one keeps the latest, within the capacity.
pub proof fn law_the_latest_address_is_cached<R: Fn(IndexPointer) -> RabitqCode>(
    read: R,
    before: Seq<LruItem<RabitqCode>>,
    capacity: usize,
    pointers: Seq<IndexPointer>,
    k: int,
    after: Seq<LruItem<RabitqCode>>,
)
    requires
        capacity > 0,
        before.len() <= capacity,
        0 <= k <= pointers.len(),
        cache::are_taken_in(read, before, capacity, pointers, k, after),
    ensures
        k == 0 ==> after == before,
        k > 0 ==> exists|i: int|
            0 <= i < after.len() && (#[trigger] after[i]).key == pointers[k - 1].block_number
                * 0x1_0000 + pointers[k - 1].offset,
        after.len() <= capacity,
    decreases k,
{
    if k > 0 {
        let mid = choose|mid: Seq<LruItem<RabitqCode>>| #[trigger]
            cache::is_taken_in(read, mid, capacity, pointers[k - 1], after) && cache::are_taken_in(
                read,
                before,
                capacity,
                pointers,
                k - 1,
                mid,
            );
        law_the_latest_address_is_cached(read, before, capacity, pointers, k - 1, mid);
        let p = pointers[k - 1];
        let key = cache::key_of(p);
        assert(key == p.block_number * 0x1_0000 + p.offset);
        if lru::has_key(mid, key) {
            let i = choose|i: int| 0 <= i < mid.len() && (#[trigger] mid[i]).key == key;
            assert(after[i].key == key);
        } else {
            assert(after[after.len() - 1].key == key);
        }
    }
}

/// A new node holds what it was made of and has no neighbors yet.
pub proof fn law_new_nodes_have_no_neighbors(
    n: RabitqNode,
    heap_pointer: ItemPointer,
    num_neighbors: int,
    has_labels: bool,
    code: Seq<u8>,
    l1_of_rotated: u32,
    sum_of_x2: u32,
    cent_dot: u32,
    labels: Option<LabelSet>,
)
    requires
        0 <= num_neighbors,
        n.is_new(
            heap_pointer,
            num_neighbors,
            has_labels,
            code,
            l1_of_rotated,
            sum_of_x2,
            cent_dot,
            labels,
        ),
    ensures
        n.pointers().len() == num_neighbors,
        node::listed_neighbors(n.pointers()).len() == 0,
        n.heap_pointer() == heap_pointer,
        n is Labeled <==> has_labels,
        n is Classic ==> n->Classic_0.code@ == code && n->Classic_0.neighbor_index_pointers@.len()
            == num_neighbors && n->Classic_0.heap_item_pointer == heap_pointer,
        n is Labeled ==> n->Labeled_0.code@ == code && n->Labeled_0.neighbor_index_pointers@.len()
            == num_neighbors && n->Labeled_0.heap_item_pointer == heap_pointer,
        n is Labeled && labels is Some ==> n->Labeled_0.labels.labels@ == labels->0.labels@,
        n is Labeled && labels is None ==> n->Labeled_0.labels.labels@.len() == 0,
{
    law_neighbors_end_at_the_first_gap(n.pointers());
    let listed = node::listed_neighbors(n.pointers());
    if listed.len() > 0 {
        assert(n.pointers()[0].block_number == 0xFFFF_FFFF);
    }
}

/// Writing neighbors keeps the row, the code and the labels of a node.
pub proof fn law_written_nodes_keep_the_rest(a: RabitqNode, b: RabitqNode)
    requires
        node::agree_but_for_neighbors(a, b),
    ensures
        a is Labeled <==> b is Labeled,
        a.heap_pointer() == b.heap_pointer(),
        a is Classic ==> a->Classic_0.code == b->Classic_0.code && a->Classic_0.l1_of_rotated
            == b->Classic_0.l1_of_rotated && a->Classic_0.sum_of_x2 == b->Classic_0.sum_of_x2
            && a->Classic_0.cent_dot == b->Classic_0.cent_dot,
        a is Labeled ==> a->Labeled_0.code == b->Labeled_0.code && a->Labeled_0.l1_of_rotated
            == b->Labeled_0.l1_of_rotated && a->Labeled_0.sum_of_x2 == b->Labeled_0.sum_of_x2
            && a->Labeled_0.cent_dot == b->Labeled_0.cent_dot && a->Labeled_0.labels
            == b->Labeled_0.labels,
{
}

/// Codes of three bits stand two to a byte, those of seven one.
pub proof fn law_codes_fill_their_bytes(dim: int)
    requires
        0 <= dim,
    ensures
        2 * quantize::ex_packed_len(dim, 3) - 1 <= dim <= 2 * quantize::ex_packed_len(dim, 3),
        quantize::ex_packed_len(dim, 7) == dim,
{
}

/// The sign bits of the rounds stand one after the other, each in whole bytes.
pub proof fn law_rounds_have_their_own_signs(signs: Seq<u8>, dim: int, round: int, i: int)
    requires
        0 <= dim,
        0 <= round < 4,
        signs.len() == 4 * ((dim + 7) / 8),
        0 <= i < (dim + 7) / 8,
    ensures
        rotation::round_signs(signs, dim, round).len() == (dim + 7) / 8,
        rotation::round_signs(signs, dim, round)[i] == signs[round * ((dim + 7) / 8) + i],
{
    let n = (dim + 7) / 8;
    assert(crate::util::math::groups_of(dim, 8) == n);
    assert(0 <= round * n && (round + 1) * n <= 4 * n && (round + 1) * n - round * n == n)
        by (nonlinear_arith)
        requires
            0 <= round < 4,
            0 <= n,
    ;
}

/// The neighbors of a node are loaded before it.
pub proof fn law_neighbors_are_loaded_first(neighbors: Seq<ItemPointer>, p: ItemPointer)
    ensures
        storage::preloaded(neighbors, p).drop_last() == neighbors,
        storage::preloaded(neighbors, p).last() == p,
{
    assert(storage::preloaded(neighbors, p).drop_last() =~= neighbors);
}

} // verus!
