//! The order of the steps in which a vacuum repairs a stored graph.
//!
//! The repair alternates with work outside: locks are taken and released, the
//! entry point, the neighbor lists and the pages are read, elements are repaired
//! and the entry point is updated.  A pass says what is to be done next, and is
//! told what came of it.
use crate::hnswsq::meta::EntryUpdate;
use crate::hnswsq::repair;
use crate::hnswsq::repair::EntryRepair;
use crate::hnswsq::stored::StoredPage;
use crate::hnswsq::tuple::NeighborTuple;
use crate::hnswsq::vacuum::{PageItem, Point, VacuumState, VacuumView};
use crate::util::item_pointer;
use vstd::prelude::*;

verus! {

/// What is to be done next.
#[derive(Clone, Copy, Debug, PartialEq, Eq, Structural)]
pub enum RepairAction {
    /// Take the update lock: alone, or together with inserts.
    Lock { exclusive: bool },
    /// Release the update lock.
    Unlock,
    /// Read the entry point.
    ReadEntry,
    /// Read the neighbor list of an element.
    ReadList { element: Point },
    /// Find the neighbors of an element anew, starting from another one, and
    /// store them.
    Repair { element: Point, from: Option<Point> },
    /// Update the entry point of the meta page.
    UpdateEntry { update: EntryUpdate, entry: Option<Point> },
    /// Read a page, and which page comes after it.
    ReadPage { blkno: u32 },
    /// Nothing: the graph is repaired.
    Finish,
}

/// What came of it.
#[derive(Debug)]
pub enum RepairEvent {
    /// It was done.
    Performed,
    /// The entry point was read.
    Entry { entry: Option<Point> },
    /// The neighbor list was read.
    List { tuple: NeighborTuple },
    /// The page was read.
    Page { page: StoredPage, next: u32 },
}

/// Where a pass stands: each phase waits for one action.
#[derive(Clone, Copy, Debug, PartialEq, Eq, Structural)]
pub enum RepairPhase {
    /// Inserts that have begun may refer to elements that are to be deleted:
    /// the lock is taken once to wait for them.
    WaitLock,
    WaitUnlock,
    /// The point to repair from is repaired first, among inserts.
    PointLock,
    PointEntry,
    PointList { point: Point, entry: Option<Point> },
    PointRepair { point: Point, entry: Option<Point> },
    PointUnlock { point: Option<Point> },
    /// Then the entry point, alone.
    EntryLock { point: Option<Point> },
    EntryRead { point: Option<Point> },
    EntryReplace { with: Option<Point> },
    EntryList { entry: Point, from: Option<Point> },
    EntryRepair { entry: Point, from: Option<Point> },
    EntryUnlock,
    /// Then, page by page, every live element.
    PageRead { blkno: u32 },
    ElementList,
    ElementLock { exclusive: bool },
    ElementEntry { exclusive: bool },
    /// An element that may become the entry point is repaired alone.
    ElementRelease,
    ElementRepair { exclusive: bool, entry: Option<Point> },
    ElementUpdate,
    ElementUnlock { exclusive: bool },
    Finished,
}

/// A repair of a stored graph.
#[derive(Debug)]
pub struct RepairPass {
    pub phase: RepairPhase,
    /// The live elements of the page that was read last.
    pub elements: Vec<Point>,
    /// How many of them are dealt with.
    pub at: usize,
    /// The page to be read next.
    pub next: u32,
}

/// What is known of a pass.
#[verifier::ext_equal]
pub struct PassView {
    pub phase: RepairPhase,
    pub elements: Seq<Point>,
    pub at: int,
    pub next: u32,
}

impl View for RepairPass {
    type V = PassView;

    open spec fn view(&self) -> PassView {
        PassView {
            phase: self.phase,
            elements: self.elements@,
            at: self.at as int,
            next: self.next,
        }
    }
}

/// The live ones among the first `n` items of a page, in order.
pub open spec fn live_elements(blkno: u32, items: Seq<PageItem>, n: int) -> Seq<Point>
    decreases n,
{
    if n <= 0 {
        Seq::empty()
    } else {
        let before = live_elements(blkno, items, n - 1);
        if repair::is_live(items[n - 1]) {
            before.push(
                Point {
                    blkno,
                    offno: n as u16,
                    level: items[n - 1]->Element_tuple.level,
                },
            )
        } else {
            before
        }
    }
}

/// The live elements of a page.
pub open spec fn live_elements_of(page: StoredPage) -> Seq<Point> {
    live_elements(page.blkno, page.items@, page.items@.len() as int)
}

/// The live elements of a page.
fn find_live_elements(page: &StoredPage) -> (out: Vec<Point>)
    requires
        page.items@.len() < 0x1_0000,
    ensures
        out@ == live_elements_of(*page),
{
    let mut out: Vec<Point> = Vec::new();
    let mut i: usize = 0;
    while i < page.items.len()
        invariant
            i <= page.items@.len(),
            page.items@.len() < 0x1_0000,
            out@ == live_elements(page.blkno, page.items@, i as int),
        decreases page.items@.len() - i,
    {
        match &page.items[i] {
            PageItem::Element { tuple } => {
                if tuple.deleted == 0 && tuple.heaptid.block_number
                    != item_pointer::INVALID_BLOCK_NUMBER {
                    out.push(
                        Point { blkno: page.blkno, offno: (i + 1) as u16, level: tuple.level },
                    );
                }
            },
            PageItem::Neighbors { .. } => {},
        }
        i = i + 1;
    }
    out
}

/// Whether a pass in this phase deals with an element of a page.
pub open spec fn is_at_element(phase: RepairPhase) -> bool {
    phase is ElementList || phase is ElementLock || phase is ElementEntry
        || phase is ElementRelease || phase is ElementRepair || phase is ElementUpdate
        || phase is ElementUnlock
}

impl PassView {
    /// The element that is dealt with.
    pub open spec fn element(self) -> Point {
        self.elements[self.at]
    }

    /// The pass has an element to deal with exactly where it says so, and repairs
    /// one that may become the entry point alone.
    pub open spec fn wf(self) -> bool {
        &&& 0 <= self.at <= self.elements.len()
        &&& is_at_element(self.phase) <==> self.at < self.elements.len()
        &&& self.phase matches RepairPhase::ElementRepair { exclusive, entry } ==> exclusive
            || !repair::rises_above(entry, self.element().level)
    }

    /// The pass in another phase.
    pub open spec fn at_phase(self, phase: RepairPhase) -> PassView {
        PassView { phase, ..self }
    }

    /// The pass with `k` elements dealt with: the next one follows, or the next
    /// page.
    pub open spec fn onward(self, k: int) -> PassView {
        PassView {
            phase: if k < self.elements.len() {
                RepairPhase::ElementList
            } else if self.next != item_pointer::INVALID_BLOCK_NUMBER {
                RepairPhase::PageRead { blkno: self.next }
            } else {
                RepairPhase::Finished
            },
            at: k,
            ..self
        }
    }

    /// What the pass waits for.
    pub open spec fn action(self) -> RepairAction {
        match self.phase {
            RepairPhase::WaitLock => RepairAction::Lock { exclusive: true },
            RepairPhase::WaitUnlock => RepairAction::Unlock,
            RepairPhase::PointLock => RepairAction::Lock { exclusive: false },
            RepairPhase::PointEntry => RepairAction::ReadEntry,
            RepairPhase::PointList { point, entry } => RepairAction::ReadList { element: point },
            RepairPhase::PointRepair { point, entry } => RepairAction::Repair {
                element: point,
                from: entry,
            },
            RepairPhase::PointUnlock { point } => RepairAction::Unlock,
            RepairPhase::EntryLock { point } => RepairAction::Lock { exclusive: true },
            RepairPhase::EntryRead { point } => RepairAction::ReadEntry,
            RepairPhase::EntryReplace { with } => RepairAction::UpdateEntry {
                update: EntryUpdate::Always,
                entry: with,
            },
            RepairPhase::EntryList { entry, from } => RepairAction::ReadList { element: entry },
            RepairPhase::EntryRepair { entry, from } => RepairAction::Repair {
                element: entry,
                from,
            },
            RepairPhase::EntryUnlock => RepairAction::Unlock,
            RepairPhase::PageRead { blkno } => RepairAction::ReadPage { blkno },
            RepairPhase::ElementList => RepairAction::ReadList { element: self.element() },
            RepairPhase::ElementLock { exclusive } => RepairAction::Lock { exclusive },
            RepairPhase::ElementEntry { exclusive } => RepairAction::ReadEntry,
            RepairPhase::ElementRelease => RepairAction::Unlock,
            RepairPhase::ElementRepair { exclusive, entry } => RepairAction::Repair {
                element: self.element(),
                from: entry,
            },
            RepairPhase::ElementUpdate => RepairAction::UpdateEntry {
                update: EntryUpdate::IfHigher,
                entry: Some(self.element()),
            },
            RepairPhase::ElementUnlock { exclusive } => RepairAction::Unlock,
            RepairPhase::Finished => RepairAction::Finish,
        }
    }

    /// Where the pass stands after the event.
    pub open spec fn step(self, state: VacuumView, event: RepairEvent) -> PassView {
        match self.phase {
            RepairPhase::WaitLock => self.at_phase(RepairPhase::WaitUnlock),
            RepairPhase::WaitUnlock => self.at_phase(
                if state.highest is Some {
                    RepairPhase::PointLock
                } else {
                    RepairPhase::EntryLock { point: None }
                },
            ),
            RepairPhase::PointLock => self.at_phase(RepairPhase::PointEntry),
            RepairPhase::PointEntry => {
                let entry = event->entry;
                self.at_phase(
                    match repair::repair_point_of(state.highest, state.fallback, entry) {
                        Some(point) => RepairPhase::PointList { point, entry },
                        None => RepairPhase::PointUnlock { point: None },
                    },
                )
            },
            RepairPhase::PointList { point, entry } => self.at_phase(
                if repair::wants_repair(event->tuple, state.deleting) {
                    RepairPhase::PointRepair { point, entry }
                } else {
                    RepairPhase::PointUnlock { point: Some(point) }
                },
            ),
            RepairPhase::PointRepair { point, entry } => self.at_phase(
                RepairPhase::PointUnlock { point: Some(point) },
            ),
            RepairPhase::PointUnlock { point } => self.at_phase(RepairPhase::EntryLock { point }),
            RepairPhase::EntryLock { point } => self.at_phase(RepairPhase::EntryRead { point }),
            RepairPhase::EntryRead { point } => {
                let entry = event->entry;
                self.at_phase(
                    match repair::entry_repair_of(entry, state.deleting, point) {
                        EntryRepair::Nothing => RepairPhase::EntryUnlock,
                        EntryRepair::Replace { with } => RepairPhase::EntryReplace { with },
                        EntryRepair::Repair { from } => RepairPhase::EntryList {
                            entry: entry->0,
                            from,
                        },
                    },
                )
            },
            RepairPhase::EntryReplace { with } => self.at_phase(RepairPhase::EntryUnlock),
            RepairPhase::EntryList { entry, from } => self.at_phase(
                if repair::wants_repair(event->tuple, state.deleting) {
                    RepairPhase::EntryRepair { entry, from }
                } else {
                    RepairPhase::EntryUnlock
                },
            ),
            RepairPhase::EntryRepair { entry, from } => self.at_phase(RepairPhase::EntryUnlock),
            RepairPhase::EntryUnlock => self.onward(self.at),
            RepairPhase::PageRead { blkno } => PassView {
                elements: live_elements_of(event->page),
                next: event->next,
                ..self
            }.onward(0),
            RepairPhase::ElementList => if repair::wants_repair(event->tuple, state.deleting) {
                self.at_phase(RepairPhase::ElementLock { exclusive: false })
            } else {
                self.onward(self.at + 1)
            },
            RepairPhase::ElementLock { exclusive } => self.at_phase(
                RepairPhase::ElementEntry { exclusive },
            ),
            RepairPhase::ElementEntry { exclusive } => self.at_phase(
                if !exclusive && repair::rises_above(event->entry, self.element().level) {
                    RepairPhase::ElementRelease
                } else {
                    RepairPhase::ElementRepair { exclusive, entry: event->entry }
                },
            ),
            RepairPhase::ElementRelease => self.at_phase(
                RepairPhase::ElementLock { exclusive: true },
            ),
            RepairPhase::ElementRepair { exclusive, entry } => self.at_phase(
                if repair::rises_above(entry, self.element().level) {
                    RepairPhase::ElementUpdate
                } else {
                    RepairPhase::ElementUnlock { exclusive }
                },
            ),
            RepairPhase::ElementUpdate => self.at_phase(
                RepairPhase::ElementUnlock { exclusive: true },
            ),
            RepairPhase::ElementUnlock { exclusive } => self.onward(self.at + 1),
            RepairPhase::Finished => self,
        }
    }
}

/// Whether the event answers the action.
pub open spec fn answers(event: RepairEvent, action: RepairAction) -> bool {
    match action {
        RepairAction::ReadEntry => event is Entry,
        RepairAction::ReadList { element } => event is List,
        RepairAction::ReadPage { blkno } => event is Page && event->page.blkno == blkno
            && event->page.items@.len() < 0x1_0000,
        RepairAction::Finish => false,
        _ => event is Performed,
    }
}

/// A pass at its start, over the pages from `head` on.
pub open spec fn start_of(head: u32) -> PassView {
    PassView { phase: RepairPhase::WaitLock, elements: Seq::empty(), at: 0, next: head }
}

impl RepairPass {
    /// A pass over the pages from `head` on.
    pub fn new(head: u32) -> (pass: RepairPass)
        ensures
            pass@ == start_of(head),
            pass@.wf(),
    {
        let elements: Vec<Point> = Vec::new();
        assert(elements@ =~= Seq::empty());
        RepairPass { phase: RepairPhase::WaitLock, elements, at: 0, next: head }
    }

    /// What is to be done next.
    pub fn action(&self) -> (action: RepairAction)
        requires
            self@.wf(),
        ensures
            action == self@.action(),
    {
        match self.phase {
            RepairPhase::WaitLock => RepairAction::Lock { exclusive: true },
            RepairPhase::WaitUnlock => RepairAction::Unlock,
            RepairPhase::PointLock => RepairAction::Lock { exclusive: false },
            RepairPhase::PointEntry => RepairAction::ReadEntry,
            RepairPhase::PointList { point, .. } => RepairAction::ReadList { element: point },
            RepairPhase::PointRepair { point, entry } => RepairAction::Repair {
                element: point,
                from: entry,
            },
            RepairPhase::PointUnlock { .. } => RepairAction::Unlock,
            RepairPhase::EntryLock { .. } => RepairAction::Lock { exclusive: true },
            RepairPhase::EntryRead { .. } => RepairAction::ReadEntry,
            RepairPhase::EntryReplace { with } => RepairAction::UpdateEntry {
                update: EntryUpdate::Always,
                entry: with,
            },
            RepairPhase::EntryList { entry, .. } => RepairAction::ReadList { element: entry },
            RepairPhase::EntryRepair { entry, from } => RepairAction::Repair {
                element: entry,
                from,
            },
            RepairPhase::EntryUnlock => RepairAction::Unlock,
            RepairPhase::PageRead { blkno } => RepairAction::ReadPage { blkno },
            RepairPhase::ElementList => RepairAction::ReadList { element: self.elements[self.at] },
            RepairPhase::ElementLock { exclusive } => RepairAction::Lock { exclusive },
            RepairPhase::ElementEntry { .. } => RepairAction::ReadEntry,
            RepairPhase::ElementRelease => RepairAction::Unlock,
            RepairPhase::ElementRepair { entry, .. } => RepairAction::Repair {
                element: self.elements[self.at],
                from: entry,
            },
            RepairPhase::ElementUpdate => RepairAction::UpdateEntry {
                update: EntryUpdate::IfHigher,
                entry: Some(self.elements[self.at]),
            },
            RepairPhase::ElementUnlock { .. } => RepairAction::Unlock,
            RepairPhase::Finished => RepairAction::Finish,
        }
    }

    /// Deal with the next element, where there is one, or with the next page.
    fn go_on(&mut self, k: usize)
        requires
            k <= old(self).elements@.len(),
        ensures
            final(self)@ == old(self)@.onward(k as int),
    {
        self.at = k;
        self.phase = if k < self.elements.len() {
            RepairPhase::ElementList
        } else if self.next != item_pointer::INVALID_BLOCK_NUMBER {
            RepairPhase::PageRead { blkno: self.next }
        } else {
            RepairPhase::Finished
        };
    }

    /// Take in what came of the action; returns what is to be done next.
    pub fn next(&mut self, state: &VacuumState, event: RepairEvent) -> (action: RepairAction)
        requires
            old(self)@.wf(),
            answers(event, old(self)@.action()),
        ensures
            final(self)@ == old(self)@.step(state@, event),
            final(self)@.wf(),
            action == final(self)@.action(),
    {
        let k: usize = self.at;
        let len: usize = self.elements.len();
        assert(is_at_element(self.phase) ==> k < len);
        match (self.phase, event) {
            (RepairPhase::WaitLock, _) => {
                self.phase = RepairPhase::WaitUnlock;
            },
            (RepairPhase::WaitUnlock, _) => {
                self.phase =
                match state.highest {
                    Some(_) => RepairPhase::PointLock,
                    None => RepairPhase::EntryLock { point: None },
                };
            },
            (RepairPhase::PointLock, _) => {
                self.phase = RepairPhase::PointEntry;
            },
            (RepairPhase::PointEntry, RepairEvent::Entry { entry }) => {
                self.phase =
                match repair::repair_point(state, entry) {
                    Some(point) => RepairPhase::PointList { point, entry },
                    None => RepairPhase::PointUnlock { point: None },
                };
            },
            (RepairPhase::PointList { point, entry }, RepairEvent::List { tuple }) => {
                self.phase =
                if repair::needs_updated(&tuple, &state.deleting) {
                    RepairPhase::PointRepair { point, entry }
                } else {
                    RepairPhase::PointUnlock { point: Some(point) }
                };
            },
            (RepairPhase::PointRepair { point, .. }, _) => {
                self.phase = RepairPhase::PointUnlock { point: Some(point) };
            },
            (RepairPhase::PointUnlock { point }, _) => {
                self.phase = RepairPhase::EntryLock { point };
            },
            (RepairPhase::EntryLock { point }, _) => {
                self.phase = RepairPhase::EntryRead { point };
            },
            (RepairPhase::EntryRead { point }, RepairEvent::Entry { entry }) => {
                self.phase =
                match (repair::entry_repair(entry, &state.deleting, point), entry) {
                    (EntryRepair::Replace { with }, _) => RepairPhase::EntryReplace { with },
                    (EntryRepair::Repair { from }, Some(e)) => RepairPhase::EntryList {
                        entry: e,
                        from,
                    },
                    _ => RepairPhase::EntryUnlock,
                };
            },
            (RepairPhase::EntryReplace { .. }, _) => {
                self.phase = RepairPhase::EntryUnlock;
            },
            (RepairPhase::EntryList { entry, from }, RepairEvent::List { tuple }) => {
                self.phase =
                if repair::needs_updated(&tuple, &state.deleting) {
                    RepairPhase::EntryRepair { entry, from }
                } else {
                    RepairPhase::EntryUnlock
                };
            },
            (RepairPhase::EntryRepair { .. }, _) => {
                self.phase = RepairPhase::EntryUnlock;
            },
            (RepairPhase::EntryUnlock, _) => {
                self.go_on(k);
            },
            (RepairPhase::PageRead { .. }, RepairEvent::Page { page, next }) => {
                self.elements = find_live_elements(&page);
                self.next = next;
                self.go_on(0);
            },
            (RepairPhase::ElementList, RepairEvent::List { tuple }) => {
                if repair::needs_updated(&tuple, &state.deleting) {
                    self.phase = RepairPhase::ElementLock { exclusive: false };
                } else {
                    self.go_on(k + 1);
                }
            },
            (RepairPhase::ElementLock { exclusive }, _) => {
                self.phase = RepairPhase::ElementEntry { exclusive };
            },
            (RepairPhase::ElementEntry { exclusive }, RepairEvent::Entry { entry }) => {
                self.phase =
                if !exclusive && repair::may_become_entry(entry, self.elements[k].level) {
                    RepairPhase::ElementRelease
                } else {
                    RepairPhase::ElementRepair { exclusive, entry }
                };
            },
            (RepairPhase::ElementRelease, _) => {
                self.phase = RepairPhase::ElementLock { exclusive: true };
            },
            (RepairPhase::ElementRepair { exclusive, entry }, _) => {
                self.phase =
                match repair::entry_update(entry, self.elements[k].level) {
                    EntryUpdate::IfHigher => RepairPhase::ElementUpdate,
                    _ => RepairPhase::ElementUnlock { exclusive },
                };
            },
            (RepairPhase::ElementUpdate, _) => {
                self.phase = RepairPhase::ElementUnlock { exclusive: true };
            },
            (RepairPhase::ElementUnlock { .. }, _) => {
                self.go_on(k + 1);
            },
            _ => {},
        }
        self.action()
    }
}

/// The update lock: whether it is held, and alone.
#[derive(Clone, Copy, Debug, PartialEq, Eq, Structural)]
pub enum Held {
    No,
    Shared,
    Alone,
}

/// How the lock is held when it was taken.
pub open spec fn taken(exclusive: bool) -> Held {
    if exclusive {
        Held::Alone
    } else {
        Held::Shared
    }
}

/// How a pass in this phase holds the lock.
pub open spec fn held_in(phase: RepairPhase) -> Held {
    match phase {
        RepairPhase::WaitUnlock => Held::Alone,
        RepairPhase::PointEntry => Held::Shared,
        RepairPhase::PointList { point, entry } => Held::Shared,
        RepairPhase::PointRepair { point, entry } => Held::Shared,
        RepairPhase::PointUnlock { point } => Held::Shared,
        RepairPhase::EntryRead { point } => Held::Alone,
        RepairPhase::EntryReplace { with } => Held::Alone,
        RepairPhase::EntryList { entry, from } => Held::Alone,
        RepairPhase::EntryRepair { entry, from } => Held::Alone,
        RepairPhase::EntryUnlock => Held::Alone,
        RepairPhase::ElementEntry { exclusive } => taken(exclusive),
        RepairPhase::ElementRelease => Held::Shared,
        RepairPhase::ElementRepair { exclusive, entry } => taken(exclusive),
        RepairPhase::ElementUpdate => Held::Alone,
        RepairPhase::ElementUnlock { exclusive } => taken(exclusive),
        _ => Held::No,
    }
}

/// How the lock is held after an action.
pub open spec fn held_after(held: Held, action: RepairAction) -> Held {
    match action {
        RepairAction::Lock { exclusive } => taken(exclusive),
        RepairAction::Unlock => Held::No,
        _ => held,
    }
}

/// The lock is taken only where it is not held and released only where it is,
/// elements are repaired under it, the entry point is updated only where it is
/// held alone, and it is not held at the end.
pub proof fn law_steps_keep_to_the_lock(v: PassView, state: VacuumView, event: RepairEvent)
    requires
        v.wf(),
        answers(event, v.action()),
    ensures
        v.step(state, event).wf(),
        held_in(v.step(state, event).phase) == held_after(held_in(v.phase), v.action()),
        v.action() is Lock ==> held_in(v.phase) == Held::No,
        v.action() is Unlock ==> held_in(v.phase) != Held::No,
        v.action() is Repair ==> held_in(v.phase) != Held::No,
        v.action() is UpdateEntry ==> held_in(v.phase) == Held::Alone,
        v.step(state, event).phase is Finished ==> held_in(v.step(state, event).phase) == Held::No,
{
}

/// An element is repaired from the entry point that was read last under the
/// lock that is held, and where it may become the entry point the lock is held
/// alone.
pub proof fn law_elements_are_repaired_from_the_latest_entry(
    v: PassView,
    state: VacuumView,
    event: RepairEvent,
)
    requires
        v.wf(),
        v.phase is ElementEntry,
        answers(event, v.action()),
    ensures
        ({
            let after = v.step(state, event);
            if held_in(v.phase) == Held::Shared && repair::rises_above(
                event->entry,
                v.element().level,
            ) {
                after.action() is Unlock
            } else {
                after.action() == RepairAction::Repair {
                    element: v.element(),
                    from: event->entry,
                }
            }
        }),
{
}

/// Where a pass over the pages from `head` on stands after the events.
pub open spec fn run(state: VacuumView, head: u32, events: Seq<RepairEvent>) -> PassView
    decreases events.len(),
{
    if events.len() == 0 {
        start_of(head)
    } else {
        run(state, head, events.drop_last()).step(state, events.last())
    }
}

/// What the pass asked for before event `k`.
pub open spec fn asked(state: VacuumView, head: u32, events: Seq<RepairEvent>, k: int) -> RepairAction {
    run(state, head, events.take(k)).action()
}

/// Whether each event answers what the pass asked for.
pub open spec fn is_run(state: VacuumView, head: u32, events: Seq<RepairEvent>) -> bool {
    forall|k: int|
        #![trigger events[k]]
        0 <= k < events.len() ==> answers(events[k], asked(state, head, events, k))
}

/// Whether event `j` is the neighbor list of an element.
pub open spec fn is_list_of(
    state: VacuumView,
    head: u32,
    events: Seq<RepairEvent>,
    element: Point,
    j: int,
) -> bool {
    asked(state, head, events, j) == (RepairAction::ReadList { element }) && events[j] is List
}

/// Whether event `l` is that an element was repaired.
pub open spec fn is_repair_of(
    state: VacuumView,
    head: u32,
    events: Seq<RepairEvent>,
    element: Point,
    l: int,
) -> bool {
    let action = asked(state, head, events, l);
    action is Repair && action->Repair_element == element
}

/// Whether, by event `n`, the list of an element was seen to need no repair, or
/// the element was repaired.
pub open spec fn is_dealt_with(
    state: VacuumView,
    head: u32,
    events: Seq<RepairEvent>,
    element: Point,
    n: int,
) -> bool {
    ||| exists|j: int|
        0 <= j < n && #[trigger] is_list_of(state, head, events, element, j)
            && !repair::wants_repair(events[j]->tuple, state.deleting)
    ||| exists|l: int| 0 <= l < n && #[trigger] is_repair_of(state, head, events, element, l)
}

/// Whether an element is still to be dealt with.
spec fn is_pending(v: PassView, element: Point) -> bool {
    exists|i: int| v.at <= i < v.elements.len() && #[trigger] v.elements[i] == element
}

/// Whether each live element of the pages that were read by event `n` is dealt
/// with or pending.
spec fn is_accounted(
    state: VacuumView,
    head: u32,
    events: Seq<RepairEvent>,
    n: int,
    v: PassView,
) -> bool {
    &&& v.wf()
    &&& forall|k: int, i: int|
        #![trigger live_elements_of(events[k]->page)[i]]
        0 <= k < n && events[k] is Page && 0 <= i < live_elements_of(events[k]->page).len()
            ==> is_dealt_with(state, head, events, live_elements_of(events[k]->page)[i], n)
            || is_pending(v, live_elements_of(events[k]->page)[i])
    &&& is_past_repair(v.phase) ==> is_dealt_with(state, head, events, v.element(), n)
}

/// Whether the element that a pass in this phase deals with was repaired.
spec fn is_past_repair(phase: RepairPhase) -> bool {
    phase is ElementUpdate || phase is ElementUnlock
}

/// What a step does to the elements of the page.
proof fn lemma_step(v: PassView, state: VacuumView, event: RepairEvent)
    requires
        v.wf(),
        answers(event, v.action()),
    ensures
        v.step(state, event).wf(),
        event is Page ==> v.at == v.elements.len() && v.step(state, event).at == 0 && v.step(
            state,
            event,
        ).elements == live_elements_of(event->page),
        !(event is Page) ==> v.step(state, event).elements == v.elements,
        !(event is Page) && v.step(state, event).at != v.at ==> {
            &&& v.at < v.elements.len()
            &&& v.step(state, event).at == v.at + 1
            &&& is_past_repair(v.phase) || (v.phase is ElementList && !repair::wants_repair(
                event->tuple,
                state.deleting,
            ))
        },
        is_past_repair(v.step(state, event).phase) ==> !(event is Page) && v.step(state, event).at
            == v.at && (v.phase is ElementRepair || is_past_repair(v.phase)),
{
}

proof fn lemma_dealt_stays(
    state: VacuumView,
    head: u32,
    events: Seq<RepairEvent>,
    element: Point,
    n: int,
)
    requires
        is_dealt_with(state, head, events, element, n),
    ensures
        is_dealt_with(state, head, events, element, n + 1),
{
    if exists|j: int|
        0 <= j < n && #[trigger] is_list_of(state, head, events, element, j)
            && !repair::wants_repair(events[j]->tuple, state.deleting) {
        let j = choose|j: int|
            0 <= j < n && #[trigger] is_list_of(state, head, events, element, j)
                && !repair::wants_repair(events[j]->tuple, state.deleting);
        assert(is_list_of(state, head, events, element, j));
    } else {
        let l = choose|l: int|
            0 <= l < n && #[trigger] is_repair_of(state, head, events, element, l);
        assert(is_repair_of(state, head, events, element, l));
    }
}

proof fn lemma_accounted_step(
    state: VacuumView,
    head: u32,
    events: Seq<RepairEvent>,
    m: int,
    before: PassView,
    v: PassView,
)
    requires
        0 <= m < events.len(),
        is_accounted(state, head, events, m, before),
        v.wf(),
        events[m] is Page ==> before.at == before.elements.len() && v.at == 0 && v.elements
            == live_elements_of(events[m]->page),
        !(events[m] is Page) ==> v.elements == before.elements,
        !(events[m] is Page) && v.at != before.at ==> {
            &&& before.at < before.elements.len()
            &&& v.at == before.at + 1
            &&& is_dealt_with(state, head, events, before.element(), m + 1)
        },
        is_past_repair(v.phase) ==> is_dealt_with(state, head, events, v.element(), m + 1),
    ensures
        is_accounted(state, head, events, m + 1, v),
{
    let n = m + 1;
    assert forall|k: int, i: int|
        #![trigger live_elements_of(events[k]->page)[i]]
        0 <= k < n && events[k] is Page && 0 <= i < live_elements_of(
            events[k]->page,
        ).len() implies is_dealt_with(
        state,
        head,
        events,
        live_elements_of(events[k]->page)[i],
        n,
    ) || is_pending(v, live_elements_of(events[k]->page)[i]) by {
        let element = live_elements_of(events[k]->page)[i];
        if k == m {
            assert(v.elements[i] == element);
        } else if is_dealt_with(state, head, events, element, m) {
            lemma_dealt_stays(state, head, events, element, m);
        } else {
            assert(is_pending(before, element));
            let x = choose|x: int|
                before.at <= x < before.elements.len() && #[trigger] before.elements[x] == element;
            if x == before.at && v.at == before.at + 1 {
                assert(element == before.element());
            } else {
                assert(v.elements[x] == element);
            }
        }
    }
}

proof fn lemma_accounted(state: VacuumView, head: u32, events: Seq<RepairEvent>, n: int)
    requires
        is_run(state, head, events),
        0 <= n <= events.len(),
    ensures
        is_accounted(state, head, events, n, run(state, head, events.take(n))),
    decreases n,
{
    if n == 0 {
        assert(events.take(0) =~= Seq::empty());
    } else {
        let m = n - 1;
        lemma_accounted(state, head, events, m);
        let before = run(state, head, events.take(m));
        let v = run(state, head, events.take(n));
        let event = events[m];
        assert(events.take(n).drop_last() =~= events.take(m));
        assert(events.take(n).last() == event);
        assert(v == before.step(state, event));
        assert(answers(event, asked(state, head, events, m)));
        lemma_step(before, state, event);
        if before.phase is ElementList {
            assert(is_list_of(state, head, events, before.element(), m));
        }
        if before.phase is ElementRepair {
            assert(is_repair_of(state, head, events, before.element(), m));
        }
        if is_past_repair(before.phase) {
            lemma_dealt_stays(state, head, events, before.element(), m);
        }
        lemma_accounted_step(state, head, events, m, before, v);
    }
}

/// A pass that is finished has dealt with every live element of every page that
/// it has read: its neighbor list was seen to need no repair, or it was
/// repaired.
pub proof fn law_finished_pass_dealt_with_every_element(
    state: VacuumView,
    head: u32,
    events: Seq<RepairEvent>,
    k: int,
    i: int,
)
    requires
        is_run(state, head, events),
        run(state, head, events).phase is Finished,
        0 <= k < events.len(),
        events[k] is Page,
        0 <= i < live_elements_of(events[k]->page).len(),
    ensures
        is_dealt_with(
            state,
            head,
            events,
            live_elements_of(events[k]->page)[i],
            events.len() as int,
        ),
{
    let n = events.len() as int;
    lemma_accounted(state, head, events, n);
    assert(events.take(n) =~= events);
    assert(!is_pending(run(state, head, events), live_elements_of(events[k]->page)[i]));
}

} // verus!
