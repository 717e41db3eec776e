//! Options of an index.
use vstd::prelude::*;

verus! {

/// Neighbors per element at the upper layers; the bottom layer has twice as
/// many.
pub const DEFAULT_M: i32 = 16;

/// Search width of builds and inserts.
pub const DEFAULT_EF_CONSTRUCTION: i32 = 64;

/// Sample size of the calibration; 0 stands for the size below.
pub const DEFAULT_SAMPLE_SIZE_OPTION: i32 = 0;

/// Sample size of the calibration where none is given.
pub const DEFAULT_SAMPLE_SIZE: usize = 30000;

/// Search width of queries.
pub const DEFAULT_EF_SEARCH: i32 = 40;

/// How a scan goes on once its first results are used up.
#[derive(Clone, Copy, Debug, PartialEq, Eq, Structural)]
pub enum IterativeScanMode {
    Off,
    Relaxed,
    Strict,
}

pub const ITERATIVE_SCAN_OFF: i32 = 0;

pub const ITERATIVE_SCAN_RELAXED: i32 = 1;

pub const ITERATIVE_SCAN_STRICT: i32 = 2;

impl IterativeScanMode {
    /// The number of the mode.
    pub open spec fn number(&self) -> i32 {
        match self {
            IterativeScanMode::Off => ITERATIVE_SCAN_OFF,
            IterativeScanMode::Relaxed => ITERATIVE_SCAN_RELAXED,
            IterativeScanMode::Strict => ITERATIVE_SCAN_STRICT,
        }
    }

    /// The number of the mode.
    pub fn as_i32(self) -> (n: i32)
        ensures
            n == self.number(),
    {
        match self {
            IterativeScanMode::Off => 0,
            IterativeScanMode::Relaxed => 1,
            IterativeScanMode::Strict => 2,
        }
    }
}

impl Default for IterativeScanMode {
    fn default() -> (m: IterativeScanMode)
        ensures
            m == IterativeScanMode::Relaxed,
    {
        IterativeScanMode::Relaxed
    }
}

/// The options of an index.
#[derive(Clone, Copy, Debug, PartialEq, Eq, Structural)]
pub struct Hnsw2Options {
    pub m: i32,
    pub ef_construction: i32,
    pub sample_size: i32,
}

impl Hnsw2Options {
    /// The options of an index for which none were given.
    pub fn defaults() -> (o: Hnsw2Options)
        ensures
            o.m == DEFAULT_M,
            o.ef_construction == DEFAULT_EF_CONSTRUCTION,
            o.sample_size == DEFAULT_SAMPLE_SIZE_OPTION,
            o.wf(),
    {
        Hnsw2Options {
            m: DEFAULT_M,
            ef_construction: DEFAULT_EF_CONSTRUCTION,
            sample_size: DEFAULT_SAMPLE_SIZE_OPTION,
        }
    }

    /// Whether each option has one of the values that it may have.
    pub open spec fn wf(&self) -> bool {
        &&& 4 <= self.m <= 100
        &&& 4 <= self.ef_construction <= 1000
        &&& 0 <= self.sample_size <= 1000000
    }

    /// Whether each option has one of the values that it may have.
    pub fn is_valid(&self) -> (r: bool)
        ensures
            r == self.wf(),
    {
        4 <= self.m && self.m <= 100 && 4 <= self.ef_construction && self.ef_construction <= 1000
            && 0 <= self.sample_size && self.sample_size <= 1000000
    }

    /// Neighbors per element at the upper layers.
    pub fn get_m(&self) -> (m: u16)
        requires
            4 <= self.m <= 100,
        ensures
            m == self.m,
    {
        self.m as u16
    }

    /// Search width of builds and inserts.
    pub fn get_ef_construction(&self) -> (ef: u32)
        requires
            4 <= self.ef_construction <= 1000,
        ensures
            ef == self.ef_construction,
    {
        self.ef_construction as u32
    }

    /// Sample size of the calibration.
    pub fn get_sample_size(&self) -> (n: usize)
        requires
            0 <= self.sample_size <= 1000000,
        ensures
            n == if self.sample_size == 0 {
                DEFAULT_SAMPLE_SIZE as int
            } else {
                self.sample_size as int
            },
    {
        if self.sample_size == 0 {
            DEFAULT_SAMPLE_SIZE
        } else {
            self.sample_size as usize
        }
    }
}

} // verus!
