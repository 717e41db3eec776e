//! How a graph search and a graph build use the nodes of a RaBitQ index.
use crate::hnswsq::types;
use crate::hnswsq::types::{pack_tid, Visited};
use crate::labels::LabelSet;
use crate::quantization::rabitq;
use crate::quantization::rabitq::{code_hamming, padded_dim, RabitqVector};
use crate::rabitq::node;
use crate::rabitq::node::{
    ArchivedMutRabitqNode, ArchivedRabitqNode, RabitqNode, WritableRabitqNode,
};
use crate::util::item_pointer::{HeapPointer, IndexPointer, ItemPointer};
use crate::util::page::PageType;
use vstd::prelude::*;

verus! {

/// What the storage of an index knows of it.
#[derive(Clone, Copy, Debug, PartialEq, Eq, Structural)]
pub struct RabitqSpeedupStorage {
    pub num_bits: u8,
    pub has_labels: bool,
    /// The number of neighbors that a node has places for.
    pub num_neighbors: u32,
}

/// The pointers of `pointers[..n]` that were not met before, each once, in
/// order.
pub open spec fn first_met(pointers: Seq<ItemPointer>, met: Set<u64>, n: int) -> Seq<ItemPointer>
    decreases n,
{
    if n <= 0 {
        Seq::empty()
    } else {
        let before = first_met(pointers, met, n - 1);
        let p = pointers[n - 1];
        if met_after(pointers, met, n - 1).contains(types::tid_key(p) as u64) {
            before
        } else {
            before.push(p)
        }
    }
}

/// The keys that were met once `pointers[..n]` have been looked at.
pub open spec fn met_after(pointers: Seq<ItemPointer>, met: Set<u64>, n: int) -> Set<u64>
    decreases n,
{
    if n <= 0 {
        met
    } else {
        met_after(pointers, met, n - 1).insert(types::tid_key(pointers[n - 1]) as u64)
    }
}

/// A query without labels takes every node, and so does a search that does not
/// filter.  Otherwise a node must share a label with the query.
pub open spec fn takes(query: Option<LabelSet>, node: Option<LabelSet>, no_filter: bool) -> bool {
    match query {
        None => true,
        Some(q) => no_filter || (node is Some && q.have_common(node->Some_0)),
    }
}

/// Which of the first `n` nodes a search takes.
pub open spec fn taken(
    query: Option<LabelSet>,
    labels: Seq<Option<LabelSet>>,
    no_filter: bool,
    n: int,
) -> Seq<usize>
    decreases n,
{
    if n <= 0 {
        Seq::empty()
    } else {
        let before = taken(query, labels, no_filter, n - 1);
        if takes(query, labels[n - 1], no_filter) {
            before.push((n - 1) as usize)
        } else {
            before
        }
    }
}

/// The neighbors and the node itself: what has to be in the cache before the
/// node is locked.
pub open spec fn preloaded(neighbors: Seq<ItemPointer>, index_pointer: ItemPointer) -> Seq<ItemPointer> {
    neighbors.push(index_pointer)
}

impl RabitqSpeedupStorage {
    pub fn page_type() -> (t: PageType)
        ensures
            t == PageType::RabitqNode,
    {
        PageType::RabitqNode
    }

    /// Bytes of a 1-bit code for vectors of `num_dimensions` dimensions.
    pub fn rabitq_vec_len(num_dimensions: u32) -> (n: usize)
        requires
            num_dimensions <= u32::MAX / 2 + 1,
        ensures
            exists|p: int|
                rabitq::is_power_of_two(p) && p >= num_dimensions && (p == 1 || p < 2
                    * num_dimensions) && n == #[trigger] (p / 8),
    {
        let p: usize = padded_dim(num_dimensions as usize);
        assert(p as int / 8 == p / 8);
        p / 8
    }

    pub fn quantizer_num_bits(&self) -> (n: u8)
        ensures
            n == self.num_bits,
    {
        self.num_bits
    }

    pub fn get_has_labels(&self) -> (b: bool)
        ensures
            b == self.has_labels,
    {
        self.has_labels
    }

    /// The node of a vector that was just quantized.
    pub fn create_node(
        &self,
        qv: &RabitqVector,
        labels: Option<LabelSet>,
        heap_pointer: HeapPointer,
    ) -> (node: RabitqNode)
        ensures
            node.is_new(
                heap_pointer,
                self.num_neighbors as int,
                self.has_labels,
                qv.packed_code@,
                qv.l1_of_rotated,
                qv.sum_of_x2,
                qv.cent_dot,
                labels,
            ),
    {
        RabitqNode::with_meta(
            heap_pointer,
            self.num_neighbors,
            self.has_labels,
            &qv.packed_code,
            qv.l1_of_rotated,
            qv.sum_of_x2,
            qv.cent_dot,
            labels,
        )
    }

    /// What to load before the neighbors of a node are written.
    pub fn preload_order(
        neighbors: &Vec<ItemPointer>,
        index_pointer: IndexPointer,
    ) -> (order: Vec<ItemPointer>)
        ensures
            order@ == preloaded(neighbors@, index_pointer),
    {
        let mut order: Vec<ItemPointer> = neighbors.clone();
        assert(order@ =~= neighbors@);
        order.push(index_pointer);
        order
    }

    /// Write the neighbors of a node.
    pub fn set_neighbors_on_disk(
        &self,
        node: RabitqNode,
        neighbors: &Vec<ItemPointer>,
    ) -> (written: RabitqNode)
        requires
            neighbors@.len() <= node.pointers().len(),
            neighbors@.len() < self.num_neighbors ==> neighbors@.len() < node.pointers().len(),
        ensures
            node::agree_but_for_neighbors(node, written),
            written.pointers() == node::with_neighbors(
                node.pointers(),
                neighbors@,
                self.num_neighbors,
            ),
    {
        let mut writable: WritableRabitqNode = node.modify();
        let mut archived: ArchivedMutRabitqNode<'_> = writable.get_archived_node();
        archived.set_neighbors(neighbors, self.num_neighbors);
        writable.commit()
    }

    /// Write the neighbors of a node when its graph is complete.
    pub fn finalize_node_at_end_of_build(
        &self,
        node: RabitqNode,
        neighbors: &Vec<ItemPointer>,
    ) -> (written: RabitqNode)
        requires
            neighbors@.len() <= node.pointers().len(),
            neighbors@.len() < self.num_neighbors ==> neighbors@.len() < node.pointers().len(),
        ensures
            node::agree_but_for_neighbors(node, written),
            written.pointers() == node::with_neighbors(
                node.pointers(),
                neighbors@,
                self.num_neighbors,
            ),
    {
        self.set_neighbors_on_disk(node, neighbors)
    }

    /// The neighbors of a visited node that the search meets for the first time.
    /// They are then met, whether or not the search takes them.
    pub fn unmet_neighbors(node: &ArchivedRabitqNode<'_>, met: &mut Visited) -> (out: Vec<
        ItemPointer,
    >)
        ensures
            ({
                let neighbors = node::listed_neighbors(node.pointers());
                &&& out@ == first_met(neighbors, old(met)@, neighbors.len() as int)
                &&& final(met)@ == met_after(neighbors, old(met)@, neighbors.len() as int)
            }),
    {
        let neighbors: Vec<ItemPointer> = node.get_index_pointer_to_neighbors();
        let mut out: Vec<ItemPointer> = Vec::new();
        let mut i: usize = 0;
        while i < neighbors.len()
            invariant
                i <= neighbors@.len(),
                out@ == first_met(neighbors@, old(met)@, i as int),
                met@ == met_after(neighbors@, old(met)@, i as int),
            decreases neighbors.len() - i,
        {
            if !met.insert(pack_tid(neighbors[i])) {
                out.push(neighbors[i]);
            }
            i = i + 1;
        }
        out
    }

    /// Which of the nodes that were read a search takes: their places, in
    /// order.
    pub fn visit_lsn(
        query: &Option<LabelSet>,
        labels: &Vec<Option<LabelSet>>,
        no_filter: bool,
    ) -> (out: Vec<usize>)
        requires
            query is Some && !no_filter ==> forall|i: int|
                #![trigger labels@[i]]
                0 <= i < labels@.len() ==> labels@[i] is Some,
        ensures
            out@ == taken(*query, labels@, no_filter, labels@.len() as int),
    {
        let mut out: Vec<usize> = Vec::new();
        let mut i: usize = 0;
        while i < labels.len()
            invariant
                i <= labels@.len(),
                out@ == taken(*query, labels@, no_filter, i as int),
            decreases labels.len() - i,
        {
            let take: bool = match query {
                None => true,
                Some(q) => no_filter || match &labels[i] {
                    Some(l) => q.overlaps(l),
                    None => false,
                },
            };
            if take {
                out.push(i);
            }
            i = i + 1;
        }
        out
    }

    /// Whether the search starts from a node: it does where it has not met it.
    /// The node is then met.
    pub fn create_lsn_for_start_node(index_pointer: ItemPointer, met: &mut Visited) -> (start: bool)
        ensures
            start == !old(met)@.contains(types::tid_key(index_pointer) as u64),
            final(met)@ == old(met)@.insert(types::tid_key(index_pointer) as u64),
    {
        !met.insert(pack_tid(index_pointer))
    }

    /// The row that a node of the result stands for.
    pub fn return_lsn(node: &ArchivedRabitqNode<'_>) -> (p: HeapPointer)
        ensures
            p == node.heap_pointer(),
    {
        node.get_heap_item_pointer()
    }

    /// The labels of a node, where the index has labels.
    pub fn get_labels(&self, node: &ArchivedRabitqNode<'_>) -> (labels: Option<LabelSet>)
        ensures
            labels is Some <==> self.has_labels && node is Labeled,
            labels is Some ==> labels->Some_0.labels@ == node->Labeled_0.labels.labels@,
    {
        if !self.has_labels {
            return None;
        }
        match node.get_labels() {
            Some(set) => Some(set.copied()),
            None => None,
        }
    }

    /// How far two 1-bit codes agree, out of `8 * len` dimensions: the number of
    /// equal signs less the number of different ones.
    pub fn sign_agreement(a: &Vec<u8>, b: &Vec<u8>) -> (m: i64)
        requires
            16 * a@.len() <= i64::MAX,
            16 * a@.len() <= usize::MAX,
        ensures
            m == 8 * a@.len() - 2 * rabitq::hamming(a@, b@, rabitq::shorter(a@, b@)),
    {
        8 * (a.len() as i64) - 2 * (code_hamming(a, b) as i64)
    }
}

proof fn lemma_met_after(pointers: Seq<ItemPointer>, met: Set<u64>, n: int)
    requires
        0 <= n <= pointers.len(),
    ensures
        forall|k: u64|
            #![trigger met_after(pointers, met, n).contains(k)]
            met_after(pointers, met, n).contains(k) <==> met.contains(k) || exists|i: int|
                #![trigger pointers[i]]
                0 <= i < n && types::tid_key(pointers[i]) as u64 == k,
    decreases n,
{
    if n > 0 {
        lemma_met_after(pointers, met, n - 1);
        let now = met_after(pointers, met, n);
        let before = met_after(pointers, met, n - 1);
        assert forall|k: u64| #![trigger now.contains(k)] now.contains(k) <==> met.contains(k)
            || exists|i: int|
            #![trigger pointers[i]]
            0 <= i < n && types::tid_key(pointers[i]) as u64 == k by {
            if before.contains(k) {
                if !met.contains(k) {
                    let i = choose|i: int|
                        #![trigger pointers[i]]
                        0 <= i < n - 1 && types::tid_key(pointers[i]) as u64 == k;
                    assert(0 <= i < n && types::tid_key(pointers[i]) as u64 == k);
                }
            }
            if types::tid_key(pointers[n - 1]) as u64 == k {
                assert(now.contains(k));
            }
        }
    }
}

/// A search looks at every node once: what it is handed was not met before, no
/// node is handed out twice, and afterwards every one of the neighbors is met.
pub proof fn law_nodes_are_visited_once(pointers: Seq<ItemPointer>, met: Set<u64>, n: int)
    requires
        0 <= n <= pointers.len(),
    ensures
        ({
            let out = first_met(pointers, met, n);
            &&& forall|i: int|
                #![trigger out[i]]
                0 <= i < out.len() ==> !met.contains(types::tid_key(out[i]) as u64)
                    && met_after(pointers, met, n).contains(types::tid_key(out[i]) as u64)
            &&& forall|i: int, j: int|
                #![trigger out[i], out[j]]
                0 <= i < j < out.len() ==> out[i] != out[j]
            &&& forall|i: int|
                #![trigger pointers[i]]
                0 <= i < n ==> met_after(pointers, met, n).contains(
                    types::tid_key(pointers[i]) as u64,
                )
        }),
    decreases n,
{
    lemma_met_after(pointers, met, n);
    if n > 0 {
        law_nodes_are_visited_once(pointers, met, n - 1);
        lemma_met_after(pointers, met, n - 1);
        let before = first_met(pointers, met, n - 1);
        let out = first_met(pointers, met, n);
        let p = pointers[n - 1];
        assert forall|i: int| #![trigger out[i]] 0 <= i < out.len() implies !met.contains(
            types::tid_key(out[i]) as u64,
        ) && met_after(pointers, met, n).contains(types::tid_key(out[i]) as u64) by {
            if i < before.len() {
                assert(out[i] == before[i]);
            }
        }
        assert forall|i: int, j: int|
            #![trigger out[i], out[j]]
            0 <= i < j < out.len() implies out[i] != out[j] by {
            assert(out[i] == before[i]);
            if j < before.len() {
                assert(out[j] == before[j]);
            } else {
                assert(out[j] == p);
            }
        }
    }
}

} // verus!
