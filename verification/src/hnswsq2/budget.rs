//! What a build may use, and when it goes on disk.
use crate::hnswsq::memory;
use crate::hnswsq::memory::{max_align, GraphMemory};
use vstd::prelude::*;

verus! {

/// How a row is inserted.
#[derive(Clone, Copy, Debug, PartialEq, Eq, Structural)]
pub enum InsertionPath {
    /// Into the graph in memory.
    InMemory,
    /// On disk, once the graph was written out.
    FlushFirst,
    /// On disk.
    OnDisk,
}

/// How a row is inserted: on disk once the graph was written out, and the
/// graph is written out as soon as the memory, less a margin, is used up.
pub fn insertion_path(flushed: bool, memory: &GraphMemory, margin: usize) -> (p: InsertionPath)
    requires
        memory.used + margin <= usize::MAX,
    ensures
        p == if flushed {
            InsertionPath::OnDisk
        } else if memory.used + margin >= memory.total {
            InsertionPath::FlushFirst
        } else {
            InsertionPath::InMemory
        },
{
    if flushed {
        InsertionPath::OnDisk
    } else if memory.used + margin >= memory.total {
        InsertionPath::FlushFirst
    } else {
        InsertionPath::InMemory
    }
}

/// The memory of a new graph: in the shared area the first eight bytes are
/// left out, since nothing may lie at its start.
pub fn graph_memory(shared: bool, total: usize, max_total: usize) -> (g: GraphMemory)
    ensures
        g.used == if shared {
            8int
        } else {
            0
        },
        g.total == if total < max_total {
            total
        } else {
            max_total
        },
{
    GraphMemory {
        used: if shared {
            max_align(1)
        } else {
            0
        },
        total: if total < max_total {
            total
        } else {
            max_total
        },
    }
}

/// The margin of an allocation in a segment of shared memory.
pub const CHUNK_MARGIN: usize = 64;

/// The space of a segment once room for `bytes` was asked for.
pub fn estimate_chunk(space: usize, bytes: usize) -> (r: usize)
    requires
        space + memory::aligned(bytes as int) + 64 <= usize::MAX,
    ensures
        r == space + memory::aligned(bytes as int) + 64,
{
    space + max_align(bytes) + CHUNK_MARGIN
}

/// What is left of the shared memory for other uses.
pub const OTHER_SHARED_BYTES: usize = 3145728;

/// The bytes of the shared area, of `work_mem` kilobytes: what others need is
/// left out, where this leaves anything, and it is no larger than a graph may
/// be.
pub fn shared_area_bytes(work_mem: usize, max_total: usize) -> (r: usize)
    ensures
        ({
            let all = if work_mem * 1024 > usize::MAX {
                usize::MAX as int
            } else {
                work_mem * 1024
            };
            let rest = if all > OTHER_SHARED_BYTES {
                all - OTHER_SHARED_BYTES
            } else {
                all
            };
            r == if rest < max_total {
                rest
            } else {
                max_total as int
            }
        }),
{
    let mut area: usize = match work_mem.checked_mul(1024) {
        Some(bytes) => bytes,
        None => usize::MAX,
    };
    if area > OTHER_SHARED_BYTES {
        area = area - OTHER_SHARED_BYTES;
    }
    if area < max_total {
        area
    } else {
        max_total
    }
}

/// How many workers help with a build: none where none are planned, else as
/// many as are allowed.
pub fn parallel_workers(planned: i32, allowed: i32) -> (n: i32)
    ensures
        n == if planned == 0 {
            0
        } else {
            allowed
        },
{
    if planned == 0 {
        0
    } else {
        allowed
    }
}

/// Why an index cannot be built.
#[derive(Clone, Copy, Debug, PartialEq, Eq, Structural)]
pub enum BuildError {
    /// The column has no fixed dimension.
    NoDimension,
    /// The column has more dimensions than an index may have.
    TooManyDimensions,
    /// The search width is less than twice the number of neighbors.
    EfTooSmall,
}

/// The number of dimensions of the indexed column, where the index can be
/// built with these parameters.
pub fn check_build_parameters(
    atttypmod: i32,
    max_dim: usize,
    m: usize,
    ef_construction: usize,
) -> (r: Result<usize, BuildError>)
    ensures
        r == if atttypmod < 1 {
            Err::<usize, BuildError>(BuildError::NoDimension)
        } else if atttypmod > max_dim {
            Err(BuildError::TooManyDimensions)
        } else if ef_construction / 2 < m {
            Err(BuildError::EfTooSmall)
        } else {
            Ok(atttypmod as usize)
        },
{
    if atttypmod < 1 {
        return Err(BuildError::NoDimension);
    }
    let dimensions: usize = atttypmod as usize;
    if dimensions > max_dim {
        return Err(BuildError::TooManyDimensions);
    }
    if ef_construction / 2 < m {
        return Err(BuildError::EfTooSmall);
    }
    Ok(dimensions)
}

} // verus!
