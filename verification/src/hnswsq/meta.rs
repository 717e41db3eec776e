//! The metapage of a stored graph.
use crate::hnswsq::vacuum::Point;
use crate::util::item_pointer;
use crate::util::item_pointer::ItemPointer;
use vstd::prelude::*;

verus! {

/// The metapage.
#[derive(Clone, Copy, Debug, PartialEq, Eq, Structural)]
pub struct MetaPage {
    pub magic_number: u32,
    pub version: u32,
    pub dimensions: u32,
    pub m: u16,
    pub ef_construction: u16,
    pub precision: u8,
    pub entry_blkno: u32,
    pub entry_offno: u16,
    pub entry_level: i16,
    pub insert_page: u32,
    pub graph_head: u32,
    pub calibration_blkno: u32,
    pub calibration_offno: u16,
}

/// When the entry point is updated.
#[derive(Clone, Copy, Debug, PartialEq, Eq, Structural)]
pub enum EntryUpdate {
    /// Never.
    Keep,
    /// Where the new one lies higher.
    IfHigher,
    /// In any case.
    Always,
}

/// The index is not valid.
#[derive(Clone, Copy, Debug, PartialEq, Eq, Structural)]
pub struct BadMagic;

impl MetaPage {
    /// Whether the level of the entry point can be stored: it is none, or that
    /// of an element.
    pub open spec fn wf(&self) -> bool {
        self.entry_blkno != item_pointer::INVALID_BLOCK_NUMBER ==> 0 <= self.entry_level
            <= u8::MAX
    }

    /// The entry point, where there is one.
    pub open spec fn entry_of(&self) -> Option<Point> {
        if self.entry_blkno == item_pointer::INVALID_BLOCK_NUMBER {
            None
        } else {
            Some(
                Point {
                    blkno: self.entry_blkno,
                    offno: self.entry_offno,
                    level: self.entry_level as u8,
                },
            )
        }
    }

    /// Where the calibration is stored.
    pub open spec fn calibration_of(&self) -> ItemPointer {
        ItemPointer { block_number: self.calibration_blkno, offset: self.calibration_offno }
    }

    /// Whether the entry point becomes `p`.
    pub open spec fn takes_entry(&self, update: EntryUpdate, p: Point) -> bool {
        match update {
            EntryUpdate::Keep => false,
            EntryUpdate::IfHigher => p.level > self.entry_level,
            EntryUpdate::Always => true,
        }
    }

    /// Check that this is a metapage.
    pub fn verify(&self, magic_number: u32) -> (r: Result<(), BadMagic>)
        ensures
            r is Ok <==> self.magic_number == magic_number,
    {
        if self.magic_number == magic_number {
            Ok(())
        } else {
            Err(BadMagic)
        }
    }

    /// The entry point, where there is one.
    fn entry_point(&self) -> (p: Option<Point>)
        requires
            self.wf(),
        ensures
            p == self.entry_of(),
    {
        if self.entry_blkno == item_pointer::INVALID_BLOCK_NUMBER {
            None
        } else {
            Some(
                Point {
                    blkno: self.entry_blkno,
                    offno: self.entry_offno,
                    level: self.entry_level as u8,
                },
            )
        }
    }
}

/// The metapage of an empty graph.
pub fn create_meta_page(
    magic_number: u32,
    version: u32,
    dimensions: u32,
    m: u16,
    ef_construction: u16,
    precision: u8,
    calibration: ItemPointer,
) -> (page: MetaPage)
    ensures
        page == (MetaPage {
            magic_number,
            version,
            dimensions,
            m,
            ef_construction,
            precision,
            entry_blkno: item_pointer::INVALID_BLOCK_NUMBER,
            entry_offno: item_pointer::INVALID_OFFSET_NUMBER,
            entry_level: (-1) as i16,
            insert_page: item_pointer::INVALID_BLOCK_NUMBER,
            graph_head: item_pointer::INVALID_BLOCK_NUMBER,
            calibration_blkno: calibration.block_number,
            calibration_offno: calibration.offset,
        }),
        page.entry_of() is None,
{
    MetaPage {
        magic_number,
        version,
        dimensions,
        m,
        ef_construction,
        precision,
        entry_blkno: item_pointer::INVALID_BLOCK_NUMBER,
        entry_offno: item_pointer::INVALID_OFFSET_NUMBER,
        entry_level: -1,
        insert_page: item_pointer::INVALID_BLOCK_NUMBER,
        graph_head: item_pointer::INVALID_BLOCK_NUMBER,
        calibration_blkno: calibration.block_number,
        calibration_offno: calibration.offset,
    }
}

/// The number of connections and the entry point of a stored graph.
pub fn get_meta_page_info(page: &MetaPage, magic_number: u32) -> (r: Result<
    (u16, Option<Point>),
    BadMagic,
>)
    requires
        page.wf(),
    ensures
        r is Ok <==> page.magic_number == magic_number,
        r is Ok ==> r->Ok_0 == (page.m, page.entry_of()),
{
    match page.verify(magic_number) {
        Ok(_) => Ok((page.m, page.entry_point())),
        Err(e) => Err(e),
    }
}

/// The entry point of a stored graph, where there is one.
pub fn get_entry_point(page: &MetaPage, magic_number: u32) -> (r: Result<Option<Point>, BadMagic>)
    requires
        page.wf(),
    ensures
        r is Ok <==> page.magic_number == magic_number,
        r is Ok ==> r->Ok_0 == page.entry_of(),
{
    match get_meta_page_info(page, magic_number) {
        Ok(info) => Ok(info.1),
        Err(e) => Err(e),
    }
}

/// The precision, the dimensions and where the calibration is stored.
pub fn meta_page_layout(page: &MetaPage, magic_number: u32) -> (r: Result<
    (u8, u32, ItemPointer),
    BadMagic,
>)
    ensures
        r is Ok <==> page.magic_number == magic_number,
        r is Ok ==> r->Ok_0 == (page.precision, page.dimensions, page.calibration_of()),
{
    match page.verify(magic_number) {
        Ok(_) => Ok(
            (
                page.precision,
                page.dimensions,
                ItemPointer::new(page.calibration_blkno, page.calibration_offno),
            ),
        ),
        Err(e) => Err(e),
    }
}

/// Record where the calibration is stored.
pub fn set_meta_calibration(page: &mut MetaPage, p: ItemPointer)
    ensures
        *final(page) == (MetaPage {
            calibration_blkno: p.block_number,
            calibration_offno: p.offset,
            ..*old(page)
        }),
{
    page.calibration_blkno = p.block_number;
    page.calibration_offno = p.offset;
}

/// Update the entry point, unless it is kept, and the page for new
/// elements, unless that is invalid. Without a new entry point there is
/// none afterwards; a new one takes its place where it lies higher, or in
/// any case.
pub fn update_meta_page(
    page: &mut MetaPage,
    update: EntryUpdate,
    entry: Option<Point>,
    insert_page: u32,
)
    ensures
        ({
            let next = if update == EntryUpdate::Keep {
                *old(page)
            } else if entry is None {
                MetaPage {
                    entry_blkno: item_pointer::INVALID_BLOCK_NUMBER,
                    entry_offno: item_pointer::INVALID_OFFSET_NUMBER,
                    entry_level: (-1) as i16,
                    ..*old(page)
                }
            } else if old(page).takes_entry(update, entry->0) {
                MetaPage {
                    entry_blkno: entry->0.blkno,
                    entry_offno: entry->0.offno,
                    entry_level: entry->0.level as i16,
                    ..*old(page)
                }
            } else {
                *old(page)
            };
            *final(page) == if insert_page != item_pointer::INVALID_BLOCK_NUMBER {
                MetaPage { insert_page, ..next }
            } else {
                next
            }
        }),
        old(page).wf() ==> final(page).wf(),
{
    match update {
        EntryUpdate::Keep => {},
        _ => {
            match entry {
                None => {
                    page.entry_blkno = item_pointer::INVALID_BLOCK_NUMBER;
                    page.entry_offno = item_pointer::INVALID_OFFSET_NUMBER;
                    page.entry_level = -1;
                },
                Some(p) => {
                    let always: bool = match update {
                        EntryUpdate::Always => true,
                        _ => false,
                    };
                    if p.level as i16 > page.entry_level || always {
                        page.entry_blkno = p.blkno;
                        page.entry_offno = p.offno;
                        page.entry_level = p.level as i16;
                    }
                },
            }
        },
    }
    if insert_page != item_pointer::INVALID_BLOCK_NUMBER {
        page.insert_page = insert_page;
    }
}

/// An update never lowers the entry point unless it is made in any case.
pub proof fn law_entry_only_rises(page: MetaPage, p: Point)
    requires
        page.wf(),
        page.takes_entry(EntryUpdate::IfHigher, p),
        page.entry_of() is Some,
    ensures
        p.level > page.entry_of()->0.level,
{
}

/// An entry point is taken on where it always is, and where it is higher than the
/// one before or there is none; it is then the one that is given.
pub proof fn law_higher_entries_are_taken_on(page: MetaPage, p: Point)
    ensures
        page.takes_entry(EntryUpdate::Always, p),
        !page.takes_entry(EntryUpdate::Keep, p),
        page.takes_entry(EntryUpdate::IfHigher, p) <==> page.entry_level < p.level,
        page.entry_level == -1 ==> page.takes_entry(EntryUpdate::IfHigher, p),
        page.entry_of() is None <==> page.entry_blkno == 0xFFFF_FFFF,
        ({
            let after = MetaPage {
                entry_blkno: p.blkno,
                entry_offno: p.offno,
                entry_level: p.level as i16,
                ..page
            };
            p.blkno != 0xFFFF_FFFF ==> after.entry_of() == Some(p)
        }),
{
}

} // verus!
