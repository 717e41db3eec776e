//! Nodes of a RaBitQ-compressed graph index.
use crate::labels::LabelSet;
use crate::util::item_pointer;
use crate::util::item_pointer::{
    HeapPointer, ItemPointer, INVALID_BLOCK_NUMBER, INVALID_OFFSET_NUMBER,
};
use vstd::prelude::*;

verus! {

/// The quantized payload of a node: the packed code and the factors of the
/// estimator, as bits.
#[derive(Clone, Copy, Debug)]
pub struct RabitqNodeData<'a> {
    pub code: &'a Vec<u8>,
    pub l1_of_rotated: u32,
    pub sum_of_x2: u32,
    pub cent_dot: u32,
}

/// A node of an index without labels.
pub struct ClassicRabitqNode {
    pub heap_item_pointer: HeapPointer,
    pub code: Vec<u8>,
    pub l1_of_rotated: u32,
    pub sum_of_x2: u32,
    pub cent_dot: u32,
    pub neighbor_index_pointers: Vec<ItemPointer>,
}

/// A node of an index with labels.
pub struct LabeledRabitqNode {
    pub heap_item_pointer: HeapPointer,
    pub code: Vec<u8>,
    pub l1_of_rotated: u32,
    pub sum_of_x2: u32,
    pub cent_dot: u32,
    pub neighbor_index_pointers: Vec<ItemPointer>,
    pub labels: LabelSet,
}

/// A node in a RaBitQ-compressed index.
pub enum RabitqNode {
    Classic(ClassicRabitqNode),
    Labeled(LabeledRabitqNode),
}

/// The number of neighbors in a list: those before the first pointer without a
/// block.
pub open spec fn count_neighbors(pointers: Seq<ItemPointer>) -> int
    decreases pointers.len(),
{
    if pointers.len() == 0 || pointers[0].block_number == INVALID_BLOCK_NUMBER {
        0
    } else {
        1 + count_neighbors(pointers.skip(1))
    }
}

/// The neighbors in a list.
pub open spec fn listed_neighbors(pointers: Seq<ItemPointer>) -> Seq<ItemPointer> {
    pointers.take(count_neighbors(pointers))
}

/// `n` neighbors stand before the first pointer without a block.
pub proof fn lemma_count_neighbors(pointers: Seq<ItemPointer>, n: int)
    requires
        0 <= n <= pointers.len(),
        forall|i: int|
            #![trigger pointers[i]]
            0 <= i < n ==> pointers[i].block_number != INVALID_BLOCK_NUMBER,
        n < pointers.len() ==> pointers[n].block_number == INVALID_BLOCK_NUMBER,
    ensures
        count_neighbors(pointers) == n,
    decreases n,
{
    if n > 0 {
        let rest = pointers.skip(1);
        assert(pointers[0].block_number != INVALID_BLOCK_NUMBER);
        assert forall|i: int| #![trigger rest[i]] 0 <= i < n - 1 implies rest[i].block_number
            != INVALID_BLOCK_NUMBER by {
            assert(rest[i] == pointers[i + 1]);
        }
        lemma_count_neighbors(rest, n - 1);
    }
}

fn count(pointers: &Vec<ItemPointer>) -> (n: usize)
    ensures
        n == count_neighbors(pointers@),
        n <= pointers@.len(),
{
    let mut n: usize = 0;
    while n < pointers.len() && pointers[n].block_number != INVALID_BLOCK_NUMBER
        invariant
            n <= pointers@.len(),
            forall|i: int|
                #![trigger pointers@[i]]
                0 <= i < n ==> pointers@[i].block_number != INVALID_BLOCK_NUMBER,
        decreases pointers.len() - n,
    {
        n = n + 1;
    }
    proof {
        lemma_count_neighbors(pointers@, n as int);
    }
    n
}

fn first_pointers(pointers: &Vec<ItemPointer>, n: usize) -> (out: Vec<ItemPointer>)
    requires
        n <= pointers@.len(),
    ensures
        out@ == pointers@.take(n as int),
{
    let mut out: Vec<ItemPointer> = Vec::new();
    let mut i: usize = 0;
    while i < n
        invariant
            i <= n <= pointers@.len(),
            out@ == pointers@.take(i as int),
        decreases n - i,
    {
        out.push(pointers[i]);
        i = i + 1;
    }
    out
}

/// A list over whose start `neighbors` were written; where they do not fill
/// `num_neighbors` places, a pointer that addresses nothing ends them.
pub open spec fn with_neighbors(
    pointers: Seq<ItemPointer>,
    neighbors: Seq<ItemPointer>,
    num_neighbors: u32,
) -> Seq<ItemPointer> {
    let written = neighbors + pointers.skip(neighbors.len() as int);
    if neighbors.len() < num_neighbors {
        written.update(neighbors.len() as int, item_pointer::invalid_pointer())
    } else {
        written
    }
}

fn write_neighbors(
    pointers: &mut Vec<ItemPointer>,
    neighbors: &Vec<ItemPointer>,
    num_neighbors: u32,
)
    requires
        neighbors@.len() <= old(pointers)@.len(),
        neighbors@.len() < num_neighbors ==> neighbors@.len() < old(pointers)@.len(),
    ensures
        final(pointers)@ == with_neighbors(old(pointers)@, neighbors@, num_neighbors),
{
    let mut i: usize = 0;
    while i < neighbors.len()
        invariant
            i <= neighbors@.len() <= old(pointers)@.len(),
            pointers@ == neighbors@.take(i as int) + old(pointers)@.skip(i as int),
        decreases neighbors.len() - i,
    {
        pointers[i] = neighbors[i];
        i = i + 1;
        assert(pointers@ =~= neighbors@.take(i as int) + old(pointers)@.skip(i as int));
    }
    assert(pointers@ =~= neighbors@ + old(pointers)@.skip(neighbors@.len() as int));
    if neighbors.len() < num_neighbors as usize {
        pointers[neighbors.len()] = ItemPointer::new_invalid();
    }
}

impl ClassicRabitqNode {
    /// Whether the node was deleted.
    pub fn is_deleted(&self) -> (r: bool)
        ensures
            r == (self.heap_item_pointer.offset == INVALID_OFFSET_NUMBER),
    {
        self.heap_item_pointer.offset == INVALID_OFFSET_NUMBER
    }

    /// Mark the node as deleted: it points to no row any more.
    pub fn delete(&mut self)
        ensures
            *final(self) == (ClassicRabitqNode {
                heap_item_pointer: item_pointer::invalid_pointer(),
                ..*old(self)
            }),
    {
        self.heap_item_pointer = ItemPointer::new_invalid();
    }

    pub fn get_heap_item_pointer(&self) -> (p: HeapPointer)
        ensures
            p == self.heap_item_pointer,
    {
        self.heap_item_pointer
    }

    /// All places of the neighbor list, those behind its end too.
    pub fn get_index_pointer_to_neighbors(&self) -> (out: Vec<ItemPointer>)
        ensures
            out@ == self.neighbor_index_pointers@,
    {
        first_pointers(&self.neighbor_index_pointers, self.neighbor_index_pointers.len())
    }
}

impl LabeledRabitqNode {
    /// Whether the node was deleted.
    pub fn is_deleted(&self) -> (r: bool)
        ensures
            r == (self.heap_item_pointer.offset == INVALID_OFFSET_NUMBER),
    {
        self.heap_item_pointer.offset == INVALID_OFFSET_NUMBER
    }

    /// Mark the node as deleted: it points to no row any more.
    pub fn delete(&mut self)
        ensures
            *final(self) == (LabeledRabitqNode {
                heap_item_pointer: item_pointer::invalid_pointer(),
                ..*old(self)
            }),
    {
        self.heap_item_pointer = ItemPointer::new_invalid();
    }

    pub fn get_heap_item_pointer(&self) -> (p: HeapPointer)
        ensures
            p == self.heap_item_pointer,
    {
        self.heap_item_pointer
    }

    /// All places of the neighbor list, those behind its end too.
    pub fn get_index_pointer_to_neighbors(&self) -> (out: Vec<ItemPointer>)
        ensures
            out@ == self.neighbor_index_pointers@,
    {
        first_pointers(&self.neighbor_index_pointers, self.neighbor_index_pointers.len())
    }
}

impl RabitqNode {
    /// The places of the neighbor list.
    pub open spec fn pointers(self) -> Seq<ItemPointer> {
        match self {
            RabitqNode::Classic(node) => node.neighbor_index_pointers@,
            RabitqNode::Labeled(node) => node.neighbor_index_pointers@,
        }
    }

    /// The row that the node stands for.
    pub open spec fn heap_pointer(self) -> HeapPointer {
        match self {
            RabitqNode::Classic(node) => node.heap_item_pointer,
            RabitqNode::Labeled(node) => node.heap_item_pointer,
        }
    }

    /// A node with room for the neighbors that the index is made for.
    pub fn with_meta(
        heap_pointer: HeapPointer,
        num_neighbors: u32,
        has_labels: bool,
        code: &Vec<u8>,
        l1_of_rotated: u32,
        sum_of_x2: u32,
        cent_dot: u32,
        labels: Option<LabelSet>,
    ) -> (node: RabitqNode)
        ensures
            node.is_new(
                heap_pointer,
                num_neighbors as int,
                has_labels,
                code@,
                l1_of_rotated,
                sum_of_x2,
                cent_dot,
                labels,
            ),
    {
        Self::new(
            heap_pointer,
            num_neighbors as usize,
            has_labels,
            code,
            l1_of_rotated,
            sum_of_x2,
            cent_dot,
            labels,
        )
    }

    /// A node as it is when it is made: it has `num_neighbors` places for
    /// neighbors, none of which is taken, so that its size never changes; it has
    /// labels exactly where the index has them.
    pub open spec fn is_new(
        self,
        heap_pointer: HeapPointer,
        num_neighbors: int,
        has_labels: bool,
        code: Seq<u8>,
        l1_of_rotated: u32,
        sum_of_x2: u32,
        cent_dot: u32,
        labels: Option<LabelSet>,
    ) -> bool {
        &&& self.pointers() == Seq::new(
            num_neighbors as nat,
            |i: int| item_pointer::invalid_pointer(),
        )
        &&& match self {
            RabitqNode::Classic(node) => {
                &&& !has_labels
                &&& node.heap_item_pointer == heap_pointer
                &&& node.code@ == code
                &&& node.l1_of_rotated == l1_of_rotated
                &&& node.sum_of_x2 == sum_of_x2
                &&& node.cent_dot == cent_dot
            },
            RabitqNode::Labeled(node) => {
                &&& has_labels
                &&& node.heap_item_pointer == heap_pointer
                &&& node.code@ == code
                &&& node.l1_of_rotated == l1_of_rotated
                &&& node.sum_of_x2 == sum_of_x2
                &&& node.cent_dot == cent_dot
                &&& node.labels.labels@ == match labels {
                    Some(set) => set.labels@,
                    None => Seq::<u16>::empty(),
                }
            },
        }
    }

    fn new(
        heap_pointer: HeapPointer,
        num_neighbors: usize,
        has_labels: bool,
        code: &Vec<u8>,
        l1_of_rotated: u32,
        sum_of_x2: u32,
        cent_dot: u32,
        labels: Option<LabelSet>,
    ) -> (node: RabitqNode)
        ensures
            node.is_new(
                heap_pointer,
                num_neighbors as int,
                has_labels,
                code@,
                l1_of_rotated,
                sum_of_x2,
                cent_dot,
                labels,
            ),
    {
        let mut neighbor_index_pointers: Vec<ItemPointer> = Vec::new();
        let mut i: usize = 0;
        while i < num_neighbors
            invariant
                i <= num_neighbors,
                neighbor_index_pointers@ == Seq::new(
                    i as nat,
                    |j: int| item_pointer::invalid_pointer(),
                ),
            decreases num_neighbors - i,
        {
            neighbor_index_pointers.push(ItemPointer::new_invalid());
            i = i + 1;
            assert(neighbor_index_pointers@ =~= Seq::new(
                i as nat,
                |j: int| item_pointer::invalid_pointer(),
            ));
        }
        let own_code: Vec<u8> = code.clone();
        assert(own_code@ =~= code@);
        if has_labels {
            let labels: LabelSet = match labels {
                Some(set) => set,
                None => LabelSet::default(),
            };
            RabitqNode::Labeled(
                LabeledRabitqNode {
                    heap_item_pointer: heap_pointer,
                    code: own_code,
                    l1_of_rotated,
                    sum_of_x2,
                    cent_dot,
                    neighbor_index_pointers,
                    labels,
                },
            )
        } else {
            RabitqNode::Classic(
                ClassicRabitqNode {
                    heap_item_pointer: heap_pointer,
                    code: own_code,
                    l1_of_rotated,
                    sum_of_x2,
                    cent_dot,
                    neighbor_index_pointers,
                },
            )
        }
    }
}

impl RabitqNode {
    /// The node, as one that was read from a page.
    pub fn read(&self) -> (node: ReadableRabitqNode<'_>)
        ensures
            node == match self {
                RabitqNode::Classic(n) => ReadableRabitqNode::Classic(n),
                RabitqNode::Labeled(n) => ReadableRabitqNode::Labeled(n),
            },
    {
        match self {
            RabitqNode::Classic(n) => ReadableRabitqNode::Classic(n),
            RabitqNode::Labeled(n) => ReadableRabitqNode::Labeled(n),
        }
    }

    /// The node, as one that is being changed.
    pub fn modify(self) -> (node: WritableRabitqNode)
        ensures
            node.node() == self,
    {
        match self {
            RabitqNode::Classic(n) => WritableRabitqNode::Classic(n),
            RabitqNode::Labeled(n) => WritableRabitqNode::Labeled(n),
        }
    }
}

/// A node that was read from a page.
pub enum ReadableRabitqNode<'a> {
    Classic(&'a ClassicRabitqNode),
    Labeled(&'a LabeledRabitqNode),
}

impl<'a> ReadableRabitqNode<'a> {
    pub fn get_archived_node(&self) -> (node: ArchivedRabitqNode<'a>)
        ensures
            node == match self {
                ReadableRabitqNode::Classic(n) => ArchivedRabitqNode::Classic(*n),
                ReadableRabitqNode::Labeled(n) => ArchivedRabitqNode::Labeled(*n),
            },
    {
        match self {
            ReadableRabitqNode::Classic(n) => ArchivedRabitqNode::Classic(*n),
            ReadableRabitqNode::Labeled(n) => ArchivedRabitqNode::Labeled(*n),
        }
    }
}

/// A stored node, to be read.
pub enum ArchivedRabitqNode<'a> {
    Classic(&'a ClassicRabitqNode),
    Labeled(&'a LabeledRabitqNode),
}

impl<'a> ArchivedRabitqNode<'a> {
    /// The places of the neighbor list.
    pub open spec fn pointers(self) -> Seq<ItemPointer> {
        match self {
            ArchivedRabitqNode::Classic(node) => node.neighbor_index_pointers@,
            ArchivedRabitqNode::Labeled(node) => node.neighbor_index_pointers@,
        }
    }

    pub fn num_neighbors(&self) -> (n: usize)
        ensures
            n == count_neighbors(self.pointers()),
    {
        match self {
            ArchivedRabitqNode::Classic(node) => count(&node.neighbor_index_pointers),
            ArchivedRabitqNode::Labeled(node) => count(&node.neighbor_index_pointers),
        }
    }

    /// The neighbors, in the order of the list.
    pub fn iter_neighbors(&self) -> (out: Vec<ItemPointer>)
        ensures
            out@ == listed_neighbors(self.pointers()),
    {
        match self {
            ArchivedRabitqNode::Classic(node) => first_pointers(
                &node.neighbor_index_pointers,
                count(&node.neighbor_index_pointers),
            ),
            ArchivedRabitqNode::Labeled(node) => first_pointers(
                &node.neighbor_index_pointers,
                count(&node.neighbor_index_pointers),
            ),
        }
    }

    pub fn get_index_pointer_to_neighbors(&self) -> (out: Vec<ItemPointer>)
        ensures
            out@ == listed_neighbors(self.pointers()),
    {
        self.iter_neighbors()
    }

    pub fn get_rabitq_data(&self) -> (data: RabitqNodeData<'a>)
        ensures
            data == match self {
                ArchivedRabitqNode::Classic(node) => (RabitqNodeData {
                    code: &node.code,
                    l1_of_rotated: node.l1_of_rotated,
                    sum_of_x2: node.sum_of_x2,
                    cent_dot: node.cent_dot,
                }),
                ArchivedRabitqNode::Labeled(node) => (RabitqNodeData {
                    code: &node.code,
                    l1_of_rotated: node.l1_of_rotated,
                    sum_of_x2: node.sum_of_x2,
                    cent_dot: node.cent_dot,
                }),
            },
    {
        match self {
            ArchivedRabitqNode::Classic(node) => RabitqNodeData {
                code: &node.code,
                l1_of_rotated: node.l1_of_rotated,
                sum_of_x2: node.sum_of_x2,
                cent_dot: node.cent_dot,
            },
            ArchivedRabitqNode::Labeled(node) => RabitqNodeData {
                code: &node.code,
                l1_of_rotated: node.l1_of_rotated,
                sum_of_x2: node.sum_of_x2,
                cent_dot: node.cent_dot,
            },
        }
    }

    /// The row that the node stands for.
    pub open spec fn heap_pointer(self) -> HeapPointer {
        match self {
            ArchivedRabitqNode::Classic(node) => node.heap_item_pointer,
            ArchivedRabitqNode::Labeled(node) => node.heap_item_pointer,
        }
    }

    pub fn get_heap_item_pointer(&self) -> (p: HeapPointer)
        ensures
            p == self.heap_pointer(),
    {
        match self {
            ArchivedRabitqNode::Classic(node) => node.heap_item_pointer,
            ArchivedRabitqNode::Labeled(node) => node.heap_item_pointer,
        }
    }

    /// Whether the node was deleted.
    pub fn is_deleted(&self) -> (r: bool)
        ensures
            r == (self.heap_pointer().offset == INVALID_OFFSET_NUMBER),
    {
        match self {
            ArchivedRabitqNode::Classic(node) => node.is_deleted(),
            ArchivedRabitqNode::Labeled(node) => node.is_deleted(),
        }
    }

    /// The labels of the node, where the index has labels.
    pub fn get_labels(&self) -> (labels: Option<&'a LabelSet>)
        ensures
            labels == match self {
                ArchivedRabitqNode::Classic(_) => None::<&'a LabelSet>,
                ArchivedRabitqNode::Labeled(node) => Some(&node.labels),
            },
    {
        match self {
            ArchivedRabitqNode::Classic(_) => None,
            ArchivedRabitqNode::Labeled(node) => Some(&node.labels),
        }
    }
}

/// A stored node, to be changed in place.
pub enum ArchivedMutRabitqNode<'a> {
    Classic(&'a mut ClassicRabitqNode),
    Labeled(&'a mut LabeledRabitqNode),
}

/// Two nodes agree in all but their neighbor lists.
pub open spec fn agree_but_for_neighbors(a: RabitqNode, b: RabitqNode) -> bool {
    match (a, b) {
        (RabitqNode::Classic(x), RabitqNode::Classic(y)) => y == (ClassicRabitqNode {
            neighbor_index_pointers: y.neighbor_index_pointers,
            ..x
        }),
        (RabitqNode::Labeled(x), RabitqNode::Labeled(y)) => y == (LabeledRabitqNode {
            neighbor_index_pointers: y.neighbor_index_pointers,
            ..x
        }),
        _ => false,
    }
}

impl<'a> ArchivedMutRabitqNode<'a> {
    /// The node as it is now.
    pub open spec fn node(self) -> RabitqNode {
        match self {
            ArchivedMutRabitqNode::Classic(node) => RabitqNode::Classic(*node),
            ArchivedMutRabitqNode::Labeled(node) => RabitqNode::Labeled(*node),
        }
    }

    /// Write the neighbor list.
    pub fn set_neighbors(&mut self, neighbors: &Vec<ItemPointer>, num_neighbors: u32)
        requires
            neighbors@.len() <= old(self).node().pointers().len(),
            neighbors@.len() < num_neighbors ==> neighbors@.len() < old(
                self,
            ).node().pointers().len(),
        ensures
            agree_but_for_neighbors(old(self).node(), final(self).node()),
            final(self).node().pointers() == with_neighbors(
                old(self).node().pointers(),
                neighbors@,
                num_neighbors,
            ),
            match (*old(self), *final(self)) {
                (ArchivedMutRabitqNode::Classic(a), ArchivedMutRabitqNode::Classic(b)) => *final(a)
                    == *final(b),
                (ArchivedMutRabitqNode::Labeled(a), ArchivedMutRabitqNode::Labeled(b)) => *final(a)
                    == *final(b),
                _ => false,
            },
    {
        match self {
            ArchivedMutRabitqNode::Classic(node) => write_neighbors(
                &mut node.neighbor_index_pointers,
                neighbors,
                num_neighbors,
            ),
            ArchivedMutRabitqNode::Labeled(node) => write_neighbors(
                &mut node.neighbor_index_pointers,
                neighbors,
                num_neighbors,
            ),
        }
    }

    pub fn num_neighbors(&self) -> (n: usize)
        ensures
            n == count_neighbors(self.node().pointers()),
    {
        match self {
            ArchivedMutRabitqNode::Classic(node) => count(&node.neighbor_index_pointers),
            ArchivedMutRabitqNode::Labeled(node) => count(&node.neighbor_index_pointers),
        }
    }

    /// The neighbors, in the order of the list.
    pub fn iter_neighbors(&self) -> (out: Vec<ItemPointer>)
        ensures
            out@ == listed_neighbors(self.node().pointers()),
    {
        match self {
            ArchivedMutRabitqNode::Classic(node) => first_pointers(
                &node.neighbor_index_pointers,
                count(&node.neighbor_index_pointers),
            ),
            ArchivedMutRabitqNode::Labeled(node) => first_pointers(
                &node.neighbor_index_pointers,
                count(&node.neighbor_index_pointers),
            ),
        }
    }

    pub fn get_index_pointer_to_neighbors(&self) -> (out: Vec<ItemPointer>)
        ensures
            out@ == listed_neighbors(self.node().pointers()),
    {
        self.iter_neighbors()
    }

    pub fn get_heap_item_pointer(&self) -> (p: HeapPointer)
        ensures
            p == self.node().heap_pointer(),
    {
        match self {
            ArchivedMutRabitqNode::Classic(node) => node.heap_item_pointer,
            ArchivedMutRabitqNode::Labeled(node) => node.heap_item_pointer,
        }
    }

    /// Whether the node was deleted.
    pub fn is_deleted(&self) -> (r: bool)
        ensures
            r == (self.node().heap_pointer().offset == INVALID_OFFSET_NUMBER),
    {
        self.get_heap_item_pointer().offset == INVALID_OFFSET_NUMBER
    }
}

/// A node that is being changed.
pub enum WritableRabitqNode {
    Classic(ClassicRabitqNode),
    Labeled(LabeledRabitqNode),
}

impl WritableRabitqNode {
    /// The node as it is now.
    pub open spec fn node(self) -> RabitqNode {
        match self {
            WritableRabitqNode::Classic(node) => RabitqNode::Classic(node),
            WritableRabitqNode::Labeled(node) => RabitqNode::Labeled(node),
        }
    }

    /// The node, to be changed in place.
    pub fn get_archived_node(&mut self) -> (archived: ArchivedMutRabitqNode<'_>)
        ensures
            archived.node() == old(self).node(),
            final(self).node() == match archived {
                ArchivedMutRabitqNode::Classic(node) => RabitqNode::Classic(*final(node)),
                ArchivedMutRabitqNode::Labeled(node) => RabitqNode::Labeled(*final(node)),
            },
    {
        match self {
            WritableRabitqNode::Classic(node) => ArchivedMutRabitqNode::Classic(node),
            WritableRabitqNode::Labeled(node) => ArchivedMutRabitqNode::Labeled(node),
        }
    }

    /// The changed node, to be written.
    pub fn commit(self) -> (node: RabitqNode)
        ensures
            node == self.node(),
    {
        match self {
            WritableRabitqNode::Classic(node) => RabitqNode::Classic(node),
            WritableRabitqNode::Labeled(node) => RabitqNode::Labeled(node),
        }
    }
}

/// A neighbor list reads back as it was written, where the index is made for as
/// many neighbors as the node has places.
pub proof fn law_written_neighbors_read_back(
    pointers: Seq<ItemPointer>,
    neighbors: Seq<ItemPointer>,
    num_neighbors: u32,
)
    requires
        pointers.len() == num_neighbors,
        neighbors.len() <= num_neighbors,
        forall|i: int|
            #![trigger neighbors[i]]
            0 <= i < neighbors.len() ==> neighbors[i].block_number != INVALID_BLOCK_NUMBER,
    ensures
        listed_neighbors(with_neighbors(pointers, neighbors, num_neighbors)) == neighbors,
{
    let written = with_neighbors(pointers, neighbors, num_neighbors);
    assert forall|i: int| #![trigger written[i]] 0 <= i < neighbors.len() implies written[i]
        == neighbors[i] by {}
    lemma_count_neighbors(written, neighbors.len() as int);
    assert(listed_neighbors(written) =~= neighbors);
}

} // verus!
