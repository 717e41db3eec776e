//! Quantized vectors, whatever scheme made them.
pub mod code_laws;
pub mod packing;
pub mod rabitq;
pub mod rabitq_fastscan;

use crate::quantization::rabitq::RabitqVector;
use vstd::prelude::*;

verus! {

/// The quantization scheme of a vector or an index, kept on disk as a byte.
#[derive(Clone, Copy, Debug, PartialEq, Eq, Structural)]
pub enum QuantizerType {
    /// One sign bit per dimension.
    Sbq,
    /// Rotated codes with a norm-aware estimator.
    Rabitq,
}

impl Default for QuantizerType {
    fn default() -> (t: QuantizerType)
        ensures
            t == QuantizerType::Sbq,
    {
        QuantizerType::Sbq
    }
}

/// A byte that stands for no quantization scheme.
#[derive(Clone, Copy, Debug, PartialEq, Eq, Structural)]
pub struct InvalidQuantizerType {
    pub value: u8,
}

impl QuantizerType {
    /// The byte that stands for the scheme.
    pub open spec fn number(self) -> u8 {
        match self {
            QuantizerType::Sbq => 0,
            QuantizerType::Rabitq => 1,
        }
    }

    pub fn from_u8(value: u8) -> (t: Result<QuantizerType, InvalidQuantizerType>)
        ensures
            t is Ok <==> value <= 1,
            t matches Ok(kind) ==> kind.number() == value,
            t matches Err(e) ==> e.value == value,
    {
        if value == 0 {
            Ok(QuantizerType::Sbq)
        } else if value == 1 {
            Ok(QuantizerType::Rabitq)
        } else {
            Err(InvalidQuantizerType { value })
        }
    }
}

/// A quantized vector.
#[derive(Clone, Debug, PartialEq)]
pub enum QuantizedVector {
    /// Words of sign bits.
    Sbq(Vec<u64>),
    /// A RaBitQ code and its factors.
    Rabitq(RabitqVector),
}

impl QuantizedVector {
    pub fn quantizer_type(&self) -> (t: QuantizerType)
        ensures
            t == match self {
                QuantizedVector::Sbq(_) => QuantizerType::Sbq,
                QuantizedVector::Rabitq(_) => QuantizerType::Rabitq,
            },
    {
        match self {
            QuantizedVector::Sbq(_) => QuantizerType::Sbq,
            QuantizedVector::Rabitq(_) => QuantizerType::Rabitq,
        }
    }

    /// Size in bytes of what the vector holds.
    pub open spec fn size(self) -> int {
        match self {
            QuantizedVector::Sbq(code) => code@.len() as int * 8,
            QuantizedVector::Rabitq(v) => v.packed_code@.len() as int + 8,
        }
    }

    /// Size in bytes of the quantized representation.
    pub fn quantized_size_bytes(&self) -> (n: usize)
        requires
            self.size() <= usize::MAX,
        ensures
            n == self.size(),
    {
        match self {
            QuantizedVector::Sbq(code) => code.len() * 8,
            QuantizedVector::Rabitq(v) => v.quantized_size_bytes(),
        }
    }
}

/// What a quantizer keeps across sessions.
#[derive(Clone, Debug)]
pub struct QuantizerMetadata {
    pub quantizer_type: QuantizerType,
}

impl Default for QuantizerMetadata {
    fn default() -> (m: QuantizerMetadata)
        ensures
            m.quantizer_type == QuantizerType::Sbq,
    {
        QuantizerMetadata { quantizer_type: QuantizerType::default() }
    }
}

} // verus!
