pub mod bytes;
pub mod float_bits;
pub mod item_pointer;
pub mod lru;
pub mod math;
pub mod nearest;
pub mod page;
pub mod random;
