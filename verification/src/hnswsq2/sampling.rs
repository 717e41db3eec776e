//! The sample that a calibration is trained on.
use crate::util::random::{draw_below, entropy_rng, seeded_rng};
use rand::rngs::SmallRng;
use vstd::prelude::*;

verus! {

/// A sample of the rows that came by; each row is a vector of numbers in
/// their binary form.
pub struct SampleState {
    pub sample: Vec<Vec<u32>>,
    pub sample_size: usize,
    pub nrows: usize,
    pub rng: SmallRng,
}

/// The sample once `row` came by and `j` was drawn: it is taken while there is
/// room, and else takes place `j`, where there is such a place.
pub open spec fn sample_with(
    sample: Seq<Vec<u32>>,
    sample_size: int,
    row: Vec<u32>,
    j: int,
) -> Seq<Vec<u32>> {
    if sample.len() < sample_size {
        sample.push(row)
    } else if j < sample_size {
        sample.update(j, row)
    } else {
        sample
    }
}

impl SampleState {
    /// The sample is never larger than it may be, and never smaller while
    /// there were rows.
    pub open spec fn wf(&self) -> bool {
        self.sample@.len() == if self.nrows < self.sample_size {
            self.nrows as int
        } else {
            self.sample_size as int
        }
    }

    /// An empty sample; the draws follow from `seed`, or from chance where it
    /// is negative.
    pub fn new(sample_size: usize, seed: i32) -> (s: SampleState)
        ensures
            s.wf(),
            s.sample@.len() == 0,
            s.sample_size == sample_size,
            s.nrows == 0,
    {
        let rng: SmallRng = if seed < 0 {
            entropy_rng()
        } else {
            seeded_rng(seed as u64)
        };
        SampleState { sample: Vec::new(), sample_size, nrows: 0, rng }
    }

    /// A row comes by, and `j` was drawn from `0..=nrows`.
    pub fn take(&mut self, row: Vec<u32>, j: usize)
        requires
            old(self).wf(),
            old(self).nrows < usize::MAX,
        ensures
            final(self).wf(),
            final(self).sample@ == sample_with(
                old(self).sample@,
                old(self).sample_size as int,
                row,
                j as int,
            ),
            final(self).sample_size == old(self).sample_size,
            final(self).nrows == old(self).nrows + 1,
    {
        if self.sample.len() < self.sample_size {
            self.sample.push(row);
        } else if j < self.sample_size {
            self.sample.set(j, row);
        }
        self.nrows = self.nrows + 1;
    }

    /// A row comes by.
    pub fn offer(&mut self, row: Vec<u32>)
        requires
            old(self).wf(),
            old(self).nrows < usize::MAX,
        ensures
            final(self).wf(),
            exists|j: int|
                0 <= j <= old(self).nrows && final(self).sample@ == #[trigger] sample_with(
                    old(self).sample@,
                    old(self).sample_size as int,
                    row,
                    j,
                ),
            final(self).sample_size == old(self).sample_size,
            final(self).nrows == old(self).nrows + 1,
    {
        let n: usize = self.nrows + 1;
        let j: usize = if self.sample.len() < self.sample_size {
            0
        } else {
            draw_below(&mut self.rng, n)
        };
        self.take(row, j);
        assert(self.sample@ == sample_with(
            old(self).sample@,
            old(self).sample_size as int,
            row,
            j as int,
        ));
    }
}

} // verus!
