//! A graph index on RaBitQ codes.
pub mod cache;
pub mod code_laws;
pub mod codes;
pub mod node;
pub mod quantize;
pub mod rotation;
pub mod storage;

use crate::quantization::rabitq as rabitq_codes;
use crate::quantization::rabitq::RabitqQuantizer;
use vstd::arithmetic::power2::*;
use vstd::prelude::*;

verus! {

/// What is kept of a quantizer on disk.
pub struct RabitqQuantizerMetadata {
    pub rotation_seed: u64,
    pub num_bits: u8,
    pub dim: u32,
    /// Bits of the center, or empty.
    pub center: Vec<u32>,
}

impl RabitqQuantizerMetadata {
    /// What to keep of a quantizer.
    pub fn store(quantizer: &RabitqQuantizer) -> (m: RabitqQuantizerMetadata)
        requires
            quantizer.dim <= u32::MAX,
        ensures
            m.rotation_seed == quantizer.rotation_seed,
            m.num_bits == quantizer.num_bits,
            m.dim == quantizer.dim,
            m.center@ == quantizer.center@,
    {
        let center: Vec<u32> = quantizer.center.clone();
        assert(center@ =~= quantizer.center@);
        RabitqQuantizerMetadata {
            rotation_seed: quantizer.rotation_seed,
            num_bits: quantizer.num_bits,
            dim: quantizer.dim as u32,
            center,
        }
    }

    /// The quantizer that was kept.  Its dimension comes back as it was, being a
    /// power of two.
    pub fn load(&self) -> (q: RabitqQuantizer)
        requires
            self.dim <= u32::MAX / 2 + 1,
        ensures
            q.rotation_seed == self.rotation_seed,
            q.num_bits == self.num_bits,
            q.center@ == self.center@,
            rabitq_codes::is_power_of_two(q.dim as int),
            q.dim >= self.dim,
            q.dim == 1 || q.dim < 2 * self.dim,
            rabitq_codes::is_power_of_two(self.dim as int) ==> q.dim == self.dim,
    {
        let center: Vec<u32> = self.center.clone();
        assert(center@ =~= self.center@);
        let q: RabitqQuantizer = RabitqQuantizer::new(
            self.num_bits,
            self.rotation_seed,
            self.dim as usize,
        );
        proof {
            if rabitq_codes::is_power_of_two(self.dim as int) {
                lemma_no_power_between(self.dim as int, q.dim as int);
            }
        }
        q.with_center(center)
    }
}

/// Between a power of two and its double there is no other.
proof fn lemma_no_power_between(a: int, b: int)
    requires
        rabitq_codes::is_power_of_two(a),
        rabitq_codes::is_power_of_two(b),
        a <= b,
        b == 1 || b < 2 * a,
    ensures
        a == b,
{
    let j = choose|j: nat| #[trigger] pow2(j) == a;
    let k = choose|k: nat| #[trigger] pow2(k) == b;
    lemma_pow2_pos(j);
    if j < k {
        if j + 1 < k {
            lemma_pow2_strictly_increases(j + 1, k);
        }
        lemma_pow2_unfold(j + 1);
    } else if k < j {
        lemma_pow2_strictly_increases(k, j);
    }
}

} // verus!
