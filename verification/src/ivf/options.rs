//! Options of an IVF index.
use vstd::prelude::*;

verus! {

/// Default number of inverted lists (centroids).
pub const DEFAULT_LISTS: i32 = 100;

/// Fewest inverted lists.
pub const MIN_LISTS: i32 = 1;

/// Most inverted lists.
pub const MAX_LISTS: i32 = 32768;

/// An integer setting: what it is by default, and its bounds.
#[derive(Clone, Copy, Debug, PartialEq, Eq, Structural)]
pub struct IntSetting {
    pub default_value: i32,
    pub min: i32,
    pub max: i32,
}

impl IntSetting {
    /// Whether the setting takes the value.
    pub open spec fn allows(self, value: i32) -> bool {
        self.min <= value <= self.max
    }

    /// Whether the setting takes the value.
    pub fn accepts(&self, value: i32) -> (r: bool)
        ensures
            r == self.allows(value),
    {
        self.min <= value && value <= self.max
    }
}

/// The number of lists to probe in a search.
pub fn probes_setting() -> (s: IntSetting)
    ensures
        s == (IntSetting { default_value: 1, min: 1, max: 32768 }),
        s.allows(s.default_value),
{
    IntSetting { default_value: 1, min: 1, max: 32768 }
}

/// Whether scans are iterative.
pub fn iterative_scan_setting() -> (s: IntSetting)
    ensures
        s == (IntSetting { default_value: 0, min: 0, max: 1 }),
        s.allows(s.default_value),
{
    IntSetting { default_value: 0, min: 0, max: 1 }
}

/// The most probes of an iterative scan.
pub fn max_probes_setting() -> (s: IntSetting)
    ensures
        s == (IntSetting { default_value: 32768, min: 1, max: 32768 }),
        s.allows(s.default_value),
{
    IntSetting { default_value: 32768, min: 1, max: 32768 }
}

/// The number of top candidates kept per search.
pub fn top_k_setting() -> (s: IntSetting)
    ensures
        s == (IntSetting { default_value: 1000, min: 1, max: 1_000_000 }),
        s.allows(s.default_value),
{
    IntSetting { default_value: 1000, min: 1, max: 1_000_000 }
}

/// The number of inverted lists of an index.
pub fn lists_setting() -> (s: IntSetting)
    ensures
        s == (IntSetting { default_value: DEFAULT_LISTS, min: MIN_LISTS, max: MAX_LISTS }),
        s.allows(s.default_value),
{
    IntSetting { default_value: DEFAULT_LISTS, min: MIN_LISTS, max: MAX_LISTS }
}

/// Options of an index.
#[derive(Clone, Copy, Debug, PartialEq, Eq, Structural)]
pub struct TSVIvfOptions {
    pub lists: i32,
}

impl TSVIvfOptions {
    /// The options of an index that was created without any.
    pub fn defaults() -> (o: TSVIvfOptions)
        ensures
            o.lists == DEFAULT_LISTS,
    {
        TSVIvfOptions { lists: DEFAULT_LISTS }
    }

    /// Get the number of inverted lists.
    pub fn get_lists(&self) -> (n: i32)
        requires
            MIN_LISTS <= self.lists <= MAX_LISTS,
        ensures
            n == self.lists,
    {
        self.lists
    }
}

} // verus!
