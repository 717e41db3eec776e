//! Labels of vectors, by which a search can be narrowed.
use vstd::prelude::*;

verus! {

/// The labels of a vector or a query.
#[derive(Clone, Debug, PartialEq, Eq)]
pub struct LabelSet {
    pub labels: Vec<u16>,
}

impl Default for LabelSet {
    fn default() -> (s: LabelSet)
        ensures
            s.labels@ == Seq::<u16>::empty(),
    {
        LabelSet { labels: Vec::new() }
    }
}

impl LabelSet {
    /// Some label is in both sets.
    pub open spec fn have_common(self, other: LabelSet) -> bool {
        exists|i: int|
            0 <= i < self.labels@.len() && other.labels@.contains(#[trigger] self.labels@[i])
    }

    fn has(&self, label: u16) -> (found: bool)
        ensures
            found == self.labels@.contains(label),
    {
        let mut i: usize = 0;
        while i < self.labels.len()
            invariant
                i <= self.labels@.len(),
                forall|j: int| 0 <= j < i ==> self.labels@[j] != label,
            decreases self.labels.len() - i,
        {
            if self.labels[i] == label {
                return true;
            }
            i = i + 1;
        }
        false
    }

    /// Whether some label is in both sets.
    pub fn overlaps(&self, other: &LabelSet) -> (found: bool)
        ensures
            found == self.have_common(*other),
    {
        let mut i: usize = 0;
        while i < self.labels.len()
            invariant
                i <= self.labels@.len(),
                forall|j: int|
                    0 <= j < i ==> !other.labels@.contains(#[trigger] self.labels@[j]),
            decreases self.labels.len() - i,
        {
            if other.has(self.labels[i]) {
                return true;
            }
            i = i + 1;
        }
        false
    }

    /// The same labels.
    pub fn copied(&self) -> (s: LabelSet)
        ensures
            s.labels@ == self.labels@,
    {
        let labels: Vec<u16> = self.labels.clone();
        assert(labels@ =~= self.labels@);
        LabelSet { labels }
    }
}

} // verus!
