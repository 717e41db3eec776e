//! A cache that drops what was used longest ago.
use vstd::prelude::*;

verus! {

/// A value and its key.
pub struct LruItem<V> {
    pub key: u64,
    pub value: V,
}

/// A cache of at most `capacity` values.  The items are in the order of their
/// last use, the latest at the end.
pub struct LruCache<V> {
    pub capacity: usize,
    pub items: Vec<LruItem<V>>,
}

/// Some item has the key.
pub open spec fn has_key<V>(items: Seq<LruItem<V>>, key: u64) -> bool {
    exists|i: int| 0 <= i < items.len() && (#[trigger] items[i]).key == key
}

/// The items once one more was taken in, as the latest: a full cache drops the
/// one that was used longest ago.
pub open spec fn pushed<V>(
    items: Seq<LruItem<V>>,
    capacity: usize,
    item: LruItem<V>,
) -> Seq<LruItem<V>> {
    if items.len() == capacity {
        items.skip(1).push(item)
    } else {
        items.push(item)
    }
}

/// The items once the one at place `i` was used: it is the latest.
pub open spec fn used<V>(items: Seq<LruItem<V>>, i: int) -> Seq<LruItem<V>> {
    items.remove(i).push(items[i])
}

impl<V> LruCache<V> {
    /// No key has two items, and there are no more than fit.
    pub open spec fn wf(self) -> bool {
        &&& self.capacity > 0
        &&& self.items@.len() <= self.capacity
        &&& forall|i: int, j: int|
            #![trigger self.items@[i], self.items@[j]]
            0 <= i < j < self.items@.len() ==> self.items@[i].key != self.items@[j].key
    }

    /// An empty cache.
    pub fn new(capacity: usize) -> (c: LruCache<V>)
        requires
            capacity > 0,
        ensures
            c.wf(),
            c.capacity == capacity,
            c.items@ == Seq::<LruItem<V>>::empty(),
    {
        LruCache { capacity, items: Vec::new() }
    }

    fn find(&self, key: u64) -> (place: Option<usize>)
        ensures
            place is Some <==> has_key(self.items@, key),
            place is Some ==> place->Some_0 < self.items@.len()
                && self.items@[place->Some_0 as int].key == key,
    {
        let mut i: usize = 0;
        while i < self.items.len()
            invariant
                i <= self.items@.len(),
                forall|j: int| 0 <= j < i ==> (#[trigger] self.items@[j]).key != key,
            decreases self.items.len() - i,
        {
            if self.items[i].key == key {
                return Some(i);
            }
            i = i + 1;
        }
        None
    }

    /// Whether there is a value for the key.
    pub fn contains(&self, key: u64) -> (r: bool)
        ensures
            r == has_key(self.items@, key),
    {
        match self.find(key) {
            Some(_) => true,
            None => false,
        }
    }

    /// Take in a value for a key that has none.
    pub fn push(&mut self, key: u64, value: V)
        requires
            old(self).wf(),
            !has_key(old(self).items@, key),
        ensures
            final(self).wf(),
            final(self).capacity == old(self).capacity,
            final(self).items@ == pushed(
                old(self).items@,
                old(self).capacity,
                LruItem { key, value },
            ),
            has_key(final(self).items@, key),
    {
        if self.items.len() == self.capacity {
            let _ = self.items.remove(0);
            assert(self.items@ =~= old(self).items@.skip(1));
        }
        let ghost kept = self.items@;
        assert forall|i: int| 0 <= i < kept.len() implies (#[trigger] kept[i]).key != key by {
            if old(self).items@.len() == old(self).capacity {
                assert(kept[i] == old(self).items@[i + 1]);
            } else {
                assert(kept[i] == old(self).items@[i]);
            }
        }
        assert forall|i: int, j: int|
            #![trigger kept[i], kept[j]]
            0 <= i < j < kept.len() implies kept[i].key != kept[j].key by {
            if old(self).items@.len() == old(self).capacity {
                assert(kept[i] == old(self).items@[i + 1]);
                assert(kept[j] == old(self).items@[j + 1]);
            }
        }
        self.items.push(LruItem { key, value });
        assert(self.items@[kept.len() as int].key == key);
    }

    /// The value for a key that has one; it becomes the latest item.
    pub fn get(&mut self, key: u64) -> (value: &V)
        requires
            old(self).wf(),
            has_key(old(self).items@, key),
        ensures
            final(self).wf(),
            final(self).capacity == old(self).capacity,
            exists|i: int|
                #![trigger used(old(self).items@, i)]
                0 <= i < old(self).items@.len() && old(self).items@[i].key == key && *value == old(
                    self,
                ).items@[i].value && final(self).items@ == used(old(self).items@, i),
    {
        let place: usize = match self.find(key) {
            Some(i) => i,
            None => 0,
        };
        let ghost before = self.items@;
        let item: LruItem<V> = self.items.remove(place);
        let ghost kept = self.items@;
        assert forall|i: int| 0 <= i < kept.len() implies #[trigger] kept[i] == before[if i < place {
            i
        } else {
            i + 1
        }] by {}
        self.items.push(item);
        assert(self.wf()) by {
            assert forall|i: int, j: int|
                #![trigger self.items@[i], self.items@[j]]
                0 <= i < j < self.items@.len() implies self.items@[i].key != self.items@[j].key by {
                assert(self.items@[i] == kept[i]);
                if j < kept.len() {
                    assert(self.items@[j] == kept[j]);
                }
            }
        }
        let last: usize = self.items.len() - 1;
        assert(self.items@ == used(before, place as int));
        &self.items[last].value
    }
}

/// An item that is taken in comes last; where there is no room the first one goes,
/// and no other.
pub proof fn law_only_the_oldest_goes<V>(items: Seq<LruItem<V>>, capacity: usize, item: LruItem<V>)
    requires
        0 < capacity,
        items.len() <= capacity,
    ensures
        ({
            let after = pushed(items, capacity, item);
            &&& after.last() == item
            &&& items.len() < capacity ==> after.drop_last() == items
            &&& items.len() == capacity ==> after.len() == capacity && forall|i: int|
                #![trigger after[i]]
                0 <= i < capacity - 1 ==> after[i] == items[i + 1]
        }),
{
    let after = pushed(items, capacity, item);
    if items.len() < capacity {
        assert(after.drop_last() =~= items);
    }
}

/// An item that is used comes last, and the others keep their order.
pub proof fn law_used_items_come_last<V>(items: Seq<LruItem<V>>, i: int)
    requires
        0 <= i < items.len(),
    ensures
        ({
            let after = used(items, i);
            &&& after.len() == items.len()
            &&& after.last() == items[i]
            &&& after.drop_last() == items.take(i) + items.skip(i + 1)
        }),
{
    assert(used(items, i).drop_last() =~= items.take(i) + items.skip(i + 1));
}

} // verus!
