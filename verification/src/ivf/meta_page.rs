//! The meta page of an IVF index: global metadata and pointers to the
//! centroids, the list directory, the quantizer metadata and the free list.
use crate::ivf::free_list;
use crate::ivf::free_list::{IvfFreeList, IvfFreeRange};
use crate::util::item_pointer;
use crate::util::item_pointer::ItemPointer;
use vstd::prelude::*;

verus! {

/// Magic number of an IVF meta page ("IVF\\0").
pub const IVF_MAGIC_NUMBER: u32 = 0x4956_4600;

/// Version of the IVF page layout.
pub const IVF_VERSION: u32 = 2;

/// First key of the advisory locks of all IVF indexes.
pub const IVF_ADVISORY_KEY: i64 = 0x4956_4630;

/// Advisory-lock keys for the read-burst (shared) / reclamation (exclusive)
/// protocol: a fixed magic, so that other users of advisory locks are never
/// met, and the index OID.
pub fn advisory_keys(oid: u32) -> (keys: (i64, i64))
    ensures
        keys.0 == 0x4956_4630,
        keys.1 == oid,
{
    (IVF_ADVISORY_KEY, oid as i64)
}

/// Whether `semver::Version::parse` accepts `text`.
pub uninterp spec fn is_semver(text: Seq<char>) -> bool;

/// Parses `text` with `semver::Version::parse` and prints the version back
/// with its `Display` impl.  Trusted: whether the parse succeeds depends on
/// the text alone, and a version prints as the text it was parsed from (no
/// part of the text is dropped or rewritten: leading zeros are refused, and
/// pre-release and build identifiers are kept as they stand).
#[verifier::external_body]
fn canonical_version(text: &str) -> (v: Option<String>)
    ensures
        v is Some <==> is_semver(text@),
        v is Some ==> v->0@ == text@,
{
    match semver::Version::parse(text) {
        Ok(version) => Some(version.to_string()),
        Err(_) => None,
    }
}

/// What an index is built with.
#[derive(Clone, Copy, Debug)]
pub struct IvfBuildParameters {
    pub num_dimensions: u32,
    /// Number of the distance type.
    pub distance_type: u16,
    /// Number of inverted lists.
    pub lists: u16,
    /// Number of the storage type.
    pub storage_type: u8,
    pub bq_num_bits_per_dimension: u8,
    pub rotation_seed: u64,
}

/// Metadata about an entire IVF index: the only item of its meta page.
#[derive(Debug, PartialEq)]
pub struct IvfMetaPage {
    /// Magic number for sanity check.
    pub magic_number: u32,
    /// Version of the layout.
    pub version: u32,
    /// Version of the extension when the index was built.
    pub extension_version_when_built: String,
    pub distance_type: u16,
    pub num_dimensions: u32,
    pub storage_type: u8,
    pub lists: u16,
    pub bq_num_bits_per_dimension: u8,
    /// Seed of the deterministic random rotation.
    pub rotation_seed: u64,
    pub centroids_pointer: ItemPointer,
    pub list_directory_pointer: ItemPointer,
    pub quantizer_metadata: ItemPointer,
    /// Pointer to the free block list (writer-only).
    pub free_list: ItemPointer,
    /// Number of contiguous blocks the free-list item occupies (0 = unknown).
    pub free_list_blocks: u32,
    /// Monotonic generation counter (bumped on compaction).
    pub generation: u64,
}

/// A pointer, where it addresses an item.
pub open spec fn pointer_if_valid(p: ItemPointer) -> Option<ItemPointer> {
    if p.valid() {
        Some(p)
    } else {
        None
    }
}

fn if_valid(p: ItemPointer) -> (r: Option<ItemPointer>)
    ensures
        r == pointer_if_valid(p),
{
    if p.is_valid() {
        Some(p)
    } else {
        None
    }
}

impl IvfMetaPage {
    /// Whether this is a meta page of the current layout.
    pub open spec fn is_current(&self) -> bool {
        self.magic_number == IVF_MAGIC_NUMBER && self.version == IVF_VERSION
    }

    /// Whether this is the meta page of an index that was just created.
    pub open spec fn is_fresh(&self, version: Seq<char>, p: IvfBuildParameters) -> bool {
        &&& self.is_current()
        &&& self.extension_version_when_built@ == version
        &&& self.distance_type == p.distance_type
        &&& self.num_dimensions == p.num_dimensions
        &&& self.storage_type == p.storage_type
        &&& self.lists == p.lists
        &&& self.bq_num_bits_per_dimension == p.bq_num_bits_per_dimension
        &&& self.rotation_seed == p.rotation_seed
        &&& self.centroids_pointer == item_pointer::invalid_pointer()
        &&& self.list_directory_pointer == item_pointer::invalid_pointer()
        &&& self.quantizer_metadata == item_pointer::invalid_pointer()
        &&& self.free_list == item_pointer::invalid_pointer()
        &&& self.free_list_blocks == 0
        &&& self.generation == 0
    }

    /// Check the magic number and the version of the layout.
    pub fn verify(&self) -> (ok: bool)
        ensures
            ok == self.is_current(),
    {
        self.magic_number == IVF_MAGIC_NUMBER && self.version == IVF_VERSION
    }

    /// Get the number of dimensions in the vectors.
    pub fn get_num_dimensions(&self) -> (r: u32)
        ensures
            r == self.num_dimensions,
    {
        self.num_dimensions
    }

    /// Get the number of the distance type.
    pub fn get_distance_type(&self) -> (r: u16)
        ensures
            r == self.distance_type,
    {
        self.distance_type
    }

    /// Get the number of the storage type.
    pub fn get_storage_type(&self) -> (r: u8)
        ensures
            r == self.storage_type,
    {
        self.storage_type
    }

    /// Get the number of inverted lists (centroids).
    pub fn get_lists(&self) -> (r: u16)
        ensures
            r == self.lists,
    {
        self.lists
    }

    /// Get the number of bits per dimension for quantization.
    pub fn get_bq_num_bits_per_dimension(&self) -> (r: u8)
        ensures
            r == self.bq_num_bits_per_dimension,
    {
        self.bq_num_bits_per_dimension
    }

    /// Get the RaBitQ rotation seed.
    pub fn get_rotation_seed(&self) -> (r: u64)
        ensures
            r == self.rotation_seed,
    {
        self.rotation_seed
    }

    /// Get pointer to centroids page.
    pub fn get_centroids_pointer(&self) -> (r: Option<ItemPointer>)
        ensures
            r == pointer_if_valid(self.centroids_pointer),
    {
        if_valid(self.centroids_pointer)
    }

    /// Get pointer to list directory page.
    pub fn get_list_directory_pointer(&self) -> (r: Option<ItemPointer>)
        ensures
            r == pointer_if_valid(self.list_directory_pointer),
    {
        if_valid(self.list_directory_pointer)
    }

    /// Get pointer to quantizer metadata page.
    pub fn get_quantizer_metadata_pointer(&self) -> (r: Option<ItemPointer>)
        ensures
            r == pointer_if_valid(self.quantizer_metadata),
    {
        if_valid(self.quantizer_metadata)
    }

    /// Get the reclamation generation counter.
    pub fn get_generation(&self) -> (r: u64)
        ensures
            r == self.generation,
    {
        self.generation
    }

    /// Set pointer to centroids page.
    pub fn set_centroids_pointer(&mut self, pointer: ItemPointer)
        ensures
            *final(self) == (IvfMetaPage { centroids_pointer: pointer, ..*old(self) }),
    {
        self.centroids_pointer = pointer;
    }

    /// Set pointer to list directory page.
    pub fn set_list_directory_pointer(&mut self, pointer: ItemPointer)
        ensures
            *final(self) == (IvfMetaPage { list_directory_pointer: pointer, ..*old(self) }),
    {
        self.list_directory_pointer = pointer;
    }

    /// Set pointer to quantizer metadata page.
    pub fn set_quantizer_metadata_pointer(&mut self, pointer: ItemPointer)
        ensures
            *final(self) == (IvfMetaPage { quantizer_metadata: pointer, ..*old(self) }),
    {
        self.quantizer_metadata = pointer;
    }

    /// Get the free-list pointer.
    pub fn get_free_list_pointer(&self) -> (r: Option<ItemPointer>)
        ensures
            r == pointer_if_valid(self.free_list),
    {
        if_valid(self.free_list)
    }

    /// Get the free-list item's block count (0 = unknown).
    pub fn get_free_list_blocks(&self) -> (r: u32)
        ensures
            r == self.free_list_blocks,
    {
        self.free_list_blocks
    }

    /// The meta page of a new index, built by version `version` of the
    /// extension.
    pub fn with_version(version: String, p: IvfBuildParameters) -> (meta: IvfMetaPage)
        ensures
            meta.is_fresh(version@, p),
    {
        IvfMetaPage {
            magic_number: IVF_MAGIC_NUMBER,
            version: IVF_VERSION,
            extension_version_when_built: version,
            distance_type: p.distance_type,
            num_dimensions: p.num_dimensions,
            storage_type: p.storage_type,
            lists: p.lists,
            bq_num_bits_per_dimension: p.bq_num_bits_per_dimension,
            rotation_seed: p.rotation_seed,
            centroids_pointer: ItemPointer::new_invalid(),
            list_directory_pointer: ItemPointer::new_invalid(),
            quantizer_metadata: ItemPointer::new_invalid(),
            free_list: ItemPointer::new_invalid(),
            free_list_blocks: 0,
            generation: 0,
        }
    }

    /// Create the meta page of a new index.  `None` where `package_version` is
    /// no semantic version.
    pub fn create(package_version: &str, p: IvfBuildParameters) -> (meta: Option<IvfMetaPage>)
        ensures
            meta is Some <==> is_semver(package_version@),
            meta is Some ==> meta->0.is_fresh(package_version@, p),
    {
        match canonical_version(package_version) {
            Some(version) => Some(IvfMetaPage::with_version(version, p)),
            None => None,
        }
    }

    /// Record where the free list was republished.
    pub fn republish_free_list(&mut self, pointer: ItemPointer, blocks: u32)
        ensures
            *final(self) == (IvfMetaPage {
                free_list: pointer,
                free_list_blocks: blocks,
                ..*old(self)
            }),
    {
        self.free_list = pointer;
        self.free_list_blocks = blocks;
    }

    /// Append retired block ranges to the free list.  Returns whether the list
    /// has to be republished.
    pub fn reclaim_ranges(list: &mut IvfFreeList, ranges: &Vec<IvfFreeRange>) -> (changed: bool)
        requires
            free_list::ranges_ok(old(list).ranges@),
            free_list::ranges_ok(ranges@),
        ensures
            changed == (ranges@.len() > 0),
            ranges@.len() == 0 ==> final(list).ranges@ == old(list).ranges@,
            ranges@.len() > 0 ==> free_list::is_coalesced(
                old(list).ranges@ + ranges@,
                final(list).ranges@,
            ),
            free_list::ranges_ok(final(list).ranges@),
            free_list::blocks(final(list).ranges@) == free_list::blocks(old(list).ranges@).union(
                free_list::blocks(ranges@),
            ),
    {
        list.extend(ranges)
    }

    /// Reserve a free range of at least `need` blocks for reuse, returning its
    /// start block (the range is split if larger than `need`).  Returns `None`
    /// if there is no free list yet or no range is large enough (callers fall
    /// back to relation extension).
    pub fn allocate_range(&self, list: &mut IvfFreeList, need: u32) -> (start: Option<u32>)
        requires
            free_list::ranges_ok(old(list).ranges@),
        ensures
            start is Some <==> need > 0 && self.free_list.valid() && exists|i: int|
                0 <= i < old(list).ranges@.len() && (#[trigger] old(list).ranges@[i]).num_blocks
                    >= need,
            start is None ==> final(list).ranges@ == old(list).ranges@,
            start is Some ==> exists|i: int|
                {
                    let range = #[trigger] old(list).ranges@[i];
                    &&& free_list::is_first_fit(old(list).ranges@, need, i)
                    &&& start->0 == range.start_block
                    &&& free_list::is_coalesced(
                        free_list::without_head(old(list).ranges@, i, need),
                        final(list).ranges@,
                    )
                },
            free_list::ranges_ok(final(list).ranges@),
    {
        if need == 0 || !self.free_list.is_valid() {
            return None;
        }
        list.take(need)
    }

    /// Return an unused reserved range to the free list.  Returns whether the
    /// list has to be republished.
    pub fn push_back_range(list: &mut IvfFreeList, start_block: u32, num_blocks: u32) -> (changed:
        bool)
        requires
            free_list::ranges_ok(old(list).ranges@),
            start_block + num_blocks <= u32::MAX,
        ensures
            changed == (num_blocks > 0),
            num_blocks == 0 ==> final(list).ranges@ == old(list).ranges@,
            num_blocks > 0 ==> free_list::is_coalesced(
                old(list).ranges@.push(IvfFreeRange { start_block, num_blocks }),
                final(list).ranges@,
            ),
            free_list::ranges_ok(final(list).ranges@),
            free_list::blocks(final(list).ranges@) == free_list::blocks(old(list).ranges@).union(
                free_list::blocks_of(IvfFreeRange { start_block, num_blocks }),
            ),
    {
        list.give_back(start_block, num_blocks)
    }
}

} // verus!
