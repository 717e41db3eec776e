use vstd::prelude::*;

pub mod hnswsq;
pub mod hnswsq2;
pub mod ivf;
pub mod labels;
pub mod quantization;
pub mod rabitq;
pub mod util;

verus! {

} // verus!
