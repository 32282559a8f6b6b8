//! How a server comes by its control segment and how a client attaches to one:
//! which system call comes next, and what becomes of it.
//!
//! The caller makes the calls and reports how they went.
use crate::shm::{Header, MAGIC, VERSION};
use vstd::prelude::*;

verus! {

/// How a system call went. Failures carry the error number.
#[derive(Clone, Copy, Debug, PartialEq, Eq, Structural)]
pub enum Outcome {
    Done,
    /// It failed because the object already exists.
    Exists(i32),
    Failed(i32),
}

impl Outcome {
    /// The error number of a failure.
    pub open spec fn error(self) -> Option<i32> {
        match self {
            Outcome::Done => None,
            Outcome::Exists(e) => Some(e),
            Outcome::Failed(e) => Some(e),
        }
    }

    /// The error number of a failure.
    fn errno(self) -> (e: Option<i32>)
        ensures
            e == self.error(),
    {
        match self {
            Outcome::Done => None,
            Outcome::Exists(e) => Some(e),
            Outcome::Failed(e) => Some(e),
        }
    }
}

// ---------------------------------------------------------------------------
// Server side
// ---------------------------------------------------------------------------

/// How far the creation of a segment has come.
#[derive(Clone, Copy, Debug, PartialEq, Eq, Structural)]
pub enum CreateState {
    Start,
    /// A segment is left over from a run that crashed.
    Stale,
    /// The leftover has been unlinked.
    Cleared,
    /// The segment is open.
    Opened,
    /// It has its size.
    Sized,
    /// Giving it its size failed.
    NotSized(i32),
    /// It is mapped.
    Mapped,
    /// Mapping it failed.
    NotMapped(i32),
    /// It is mapped and its descriptor closed: publish, and serve.
    Created,
    Failed(i32),
}

/// What to do next on the way to a segment.
#[derive(Clone, Copy, Debug, PartialEq, Eq, Structural)]
pub enum CreateAction {
    /// Open the segment, creating it; fail if it exists.
    OpenExclusive,
    Unlink,
    Truncate,
    MapMemory,
    Close,
    /// Nothing: the segment is there.
    Publish,
    /// Nothing: report the error.
    GiveUp(i32),
}

impl CreateState {
    /// What to do in this state.
    pub open spec fn todo(self) -> CreateAction {
        match self {
            CreateState::Start => CreateAction::OpenExclusive,
            CreateState::Stale => CreateAction::Unlink,
            CreateState::Cleared => CreateAction::OpenExclusive,
            CreateState::Opened => CreateAction::Truncate,
            CreateState::Sized => CreateAction::MapMemory,
            CreateState::NotSized(_) => CreateAction::Close,
            CreateState::Mapped => CreateAction::Close,
            CreateState::NotMapped(_) => CreateAction::Close,
            CreateState::Created => CreateAction::Publish,
            CreateState::Failed(e) => CreateAction::GiveUp(e),
        }
    }

    /// The state after what was to do went as said.
    ///
    /// An existing segment is cleared away once. How the unlinking went does
    /// not matter: the second opening shows. After a failed mapping the error
    /// is the one that stands once the descriptor is closed.
    pub open spec fn after(self, outcome: Outcome) -> CreateState {
        match self {
            CreateState::Start => match outcome {
                Outcome::Done => CreateState::Opened,
                Outcome::Exists(_) => CreateState::Stale,
                Outcome::Failed(e) => CreateState::Failed(e),
            },
            CreateState::Stale => CreateState::Cleared,
            CreateState::Cleared => match outcome.error() {
                None => CreateState::Opened,
                Some(e) => CreateState::Failed(e),
            },
            CreateState::Opened => match outcome.error() {
                None => CreateState::Sized,
                Some(e) => CreateState::NotSized(e),
            },
            CreateState::Sized => match outcome.error() {
                None => CreateState::Mapped,
                Some(e) => CreateState::NotMapped(e),
            },
            CreateState::NotSized(e) => CreateState::Failed(e),
            CreateState::Mapped => CreateState::Created,
            CreateState::NotMapped(e) => match outcome.error() {
                None => CreateState::Failed(e),
                Some(e) => CreateState::Failed(e),
            },
            CreateState::Created => self,
            CreateState::Failed(_) => self,
        }
    }

    /// The state after several steps that went as said.
    pub open spec fn after_all(self, outcomes: Seq<Outcome>) -> CreateState
        decreases outcomes.len(),
    {
        if outcomes.len() == 0 {
            self
        } else {
            self.after(outcomes.first()).after_all(outcomes.drop_first())
        }
    }

    /// Nothing is left to do.
    pub open spec fn is_over(self) -> bool {
        self is Created || self is Failed
    }

    /// The segment's descriptor is open in this state.
    pub open spec fn holds_descriptor(self) -> bool {
        match self {
            CreateState::Opened => true,
            CreateState::Sized => true,
            CreateState::NotSized(_) => true,
            CreateState::Mapped => true,
            CreateState::NotMapped(_) => true,
            _ => false,
        }
    }

    /// At most this many steps are left.
    pub open spec fn steps_left(self) -> nat {
        match self {
            CreateState::Start => 6,
            CreateState::Stale => 5,
            CreateState::Cleared => 4,
            CreateState::Opened => 3,
            CreateState::Sized => 2,
            CreateState::NotSized(_) => 1,
            CreateState::Mapped => 1,
            CreateState::NotMapped(_) => 1,
            CreateState::Created => 0,
            CreateState::Failed(_) => 0,
        }
    }

    /// What to do in this state.
    pub fn action(&self) -> (action: CreateAction)
        ensures
            action == self.todo(),
    {
        match self {
            CreateState::Start => CreateAction::OpenExclusive,
            CreateState::Stale => CreateAction::Unlink,
            CreateState::Cleared => CreateAction::OpenExclusive,
            CreateState::Opened => CreateAction::Truncate,
            CreateState::Sized => CreateAction::MapMemory,
            CreateState::NotSized(_) => CreateAction::Close,
            CreateState::Mapped => CreateAction::Close,
            CreateState::NotMapped(_) => CreateAction::Close,
            CreateState::Created => CreateAction::Publish,
            CreateState::Failed(e) => CreateAction::GiveUp(*e),
        }
    }

    /// The state after what was to do went as said.
    pub fn next(self, outcome: Outcome) -> (next: CreateState)
        ensures
            next == self.after(outcome),
    {
        let error: Option<i32> = outcome.errno();
        match self {
            CreateState::Start => match outcome {
                Outcome::Done => CreateState::Opened,
                Outcome::Exists(_) => CreateState::Stale,
                Outcome::Failed(e) => CreateState::Failed(e),
            },
            CreateState::Stale => CreateState::Cleared,
            CreateState::Cleared => match error {
                None => CreateState::Opened,
                Some(e) => CreateState::Failed(e),
            },
            CreateState::Opened => match error {
                None => CreateState::Sized,
                Some(e) => CreateState::NotSized(e),
            },
            CreateState::Sized => match error {
                None => CreateState::Mapped,
                Some(e) => CreateState::NotMapped(e),
            },
            CreateState::NotSized(e) => CreateState::Failed(e),
            CreateState::Mapped => CreateState::Created,
            CreateState::NotMapped(e) => match error {
                None => CreateState::Failed(e),
                Some(later) => CreateState::Failed(later),
            },
            CreateState::Created => self,
            CreateState::Failed(_) => self,
        }
    }
}

/// However the calls go, the creation of a segment is over after six of them.
pub proof fn law_creation_ends(outcomes: Seq<Outcome>)
    requires
        outcomes.len() >= 6,
    ensures
        CreateState::Start.after_all(outcomes).is_over(),
{
    lemma_creation_ends(CreateState::Start, outcomes);
}

proof fn lemma_creation_ends(state: CreateState, outcomes: Seq<Outcome>)
    requires
        outcomes.len() >= state.steps_left(),
    ensures
        state.after_all(outcomes).is_over(),
    decreases outcomes.len(),
{
    if outcomes.len() > 0 {
        lemma_creation_ends(state.after(outcomes.first()), outcomes.drop_first());
    }
}

/// A descriptor that was opened is closed, and only once the segment is mapped
/// or has failed: one step opens it only by a successful opening, one step
/// gives it up only by closing, and what is over holds none.
pub proof fn law_server_descriptor_is_closed(state: CreateState, outcome: Outcome)
    ensures
        !state.holds_descriptor() && state.after(outcome).holds_descriptor() ==> state.todo()
            is OpenExclusive && outcome is Done,
        state.todo() is OpenExclusive && outcome is Done ==> state.after(
            outcome,
        ).holds_descriptor(),
        state.holds_descriptor() && !state.after(outcome).holds_descriptor() <==> state.todo()
            is Close,
        state.is_over() ==> !state.holds_descriptor(),
{
}

/// A segment left over from a crashed run is cleared away and replaced, once:
/// if it exists again, creation fails.
pub proof fn law_stale_segment_is_replaced(e: i32, unlinked: Outcome, closed: Outcome, again: i32)
    ensures
        CreateState::Start.after_all(
            seq![
                Outcome::Exists(e),
                unlinked,
                Outcome::Done,
                Outcome::Done,
                Outcome::Done,
                closed,
            ],
        ) == CreateState::Created,
        CreateState::Start.after_all(seq![Outcome::Exists(e), unlinked, Outcome::Exists(again)])
            == CreateState::Failed(again),
{
    let all = seq![
        Outcome::Exists(e),
        unlinked,
        Outcome::Done,
        Outcome::Done,
        Outcome::Done,
        closed,
    ];
    reveal_with_fuel(CreateState::after_all, 7);
    assert(all.drop_first().drop_first().drop_first().drop_first().drop_first().drop_first()
        =~= Seq::<Outcome>::empty());
    let twice = seq![Outcome::Exists(e), unlinked, Outcome::Exists(again)];
    assert(twice.drop_first().drop_first().drop_first() =~= Seq::<Outcome>::empty());
}

/// A segment that can be created is: it is opened, given its size, mapped and its
/// descriptor closed, in this order, and then published.
pub proof fn law_segment_is_created_step_by_step(state: CreateState, closed: Outcome)
    ensures
        CreateState::Start.todo() is OpenExclusive,
        state.todo() is OpenExclusive ==> state.after(Outcome::Done).todo() is Truncate,
        state.todo() is Truncate ==> state.after(Outcome::Done).todo() is MapMemory,
        state.todo() is MapMemory ==> state.after(Outcome::Done).todo() is Close && state.after(
            Outcome::Done,
        ).after(closed).todo() is Publish,
{
}

/// A call that fails is reported: an opening at once, giving the size or mapping
/// once the descriptor is closed. Where closing fails after a failed mapping its
/// error stands.
pub proof fn law_failed_creation_is_reported(state: CreateState, e: i32, closed: Outcome)
    ensures
        state.todo() is OpenExclusive ==> state.after(Outcome::Failed(e)).todo()
            == CreateAction::GiveUp(e),
        state.todo() is Truncate ==> state.after(Outcome::Failed(e)).todo() is Close
            && state.after(Outcome::Failed(e)).after(closed).todo() == CreateAction::GiveUp(e),
        state.todo() is MapMemory ==> state.after(Outcome::Failed(e)).todo() is Close,
        state.todo() is MapMemory && closed is Done ==> state.after(Outcome::Failed(e)).after(
            closed,
        ).todo() == CreateAction::GiveUp(e),
        state.todo() is MapMemory ==> (closed matches Outcome::Failed(c) ==> state.after(
            Outcome::Failed(e),
        ).after(closed).todo() == CreateAction::GiveUp(c)),
        state.is_over() ==> state.after(closed) == state,
        state.todo() is Publish || state.todo() is GiveUp <==> state.is_over(),
{
}

/// A segment that is there already is unlinked, whatever comes of that, and
/// opened again.
pub proof fn law_leftover_is_unlinked_first(e: i32, unlinked: Outcome)
    ensures
        CreateState::Start.after(Outcome::Exists(e)).todo() is Unlink,
        CreateState::Start.after(Outcome::Exists(e)).after(unlinked).todo() is OpenExclusive,
{
}

// ---------------------------------------------------------------------------
// Client side
// ---------------------------------------------------------------------------

/// Why a client could not attach.
#[derive(Clone, Copy, Debug, PartialEq, Eq, Structural)]
pub enum AttachError {
    /// No running server was found: the segment could not be opened.
    NotRunning(i32),
    /// The segment exists but was not fully initialized in time.
    NotReady,
    /// The segment's magic or version is not this build's.
    VersionMismatch,
    Mmap(i32),
}

/// How often a client looks whether a segment is ready.
pub const READY_POLLS: u32 = 100;

/// How far an attachment has come.
#[derive(Clone, Copy, Debug, PartialEq, Eq, Structural)]
pub enum AttachState {
    Start,
    /// The segment is open.
    Opened,
    /// It is mapped.
    Mapped,
    /// Mapping it failed.
    NotMapped(i32),
    /// It is about to be looked at; this many looks came before.
    Looking(u32),
    /// It was not ready; this many looks are over.
    Waiting(u32),
    /// It is ready.
    Ready,
    /// It is mapped and of no use.
    Useless(AttachError),
    Attached,
    Failed(AttachError),
}

/// What to do next on the way to an attachment.
#[derive(Clone, Copy, Debug, PartialEq, Eq, Structural)]
pub enum AttachAction {
    /// Open the segment; do not create it.
    Open,
    MapMemory,
    Close,
    /// Read the ready word.
    ReadReady,
    /// Wait a millisecond.
    Sleep,
    /// Read magic and version.
    ReadHeader,
    Unmap,
    /// Nothing: the client is attached.
    Serve,
    /// Nothing: report the error.
    GiveUp(AttachError),
}

/// What became of an action: how a system call went, or what was read.
#[derive(Clone, Copy, Debug, PartialEq, Eq, Structural)]
pub enum AttachEvent {
    Call(Outcome),
    Ready(u32),
    Header { magic: u64, version: u32 },
}

impl AttachEvent {
    /// The error number of a call that failed.
    pub open spec fn error(self) -> Option<i32> {
        match self {
            AttachEvent::Call(outcome) => outcome.error(),
            _ => None,
        }
    }

    /// What was read says that the segment is ready.
    pub open spec fn says_ready(self) -> bool {
        self == AttachEvent::Ready(1)
    }

    /// What was read says that the segment is of this build.
    pub open spec fn says_ours(self) -> bool {
        self matches AttachEvent::Header { magic, version } && magic == MAGIC && version == VERSION
    }

    fn errno(self) -> (e: Option<i32>)
        ensures
            e == self.error(),
    {
        match self {
            AttachEvent::Call(outcome) => outcome.errno(),
            _ => None,
        }
    }
}

impl AttachState {
    /// What to do in this state.
    pub open spec fn todo(self) -> AttachAction {
        match self {
            AttachState::Start => AttachAction::Open,
            AttachState::Opened => AttachAction::MapMemory,
            AttachState::Mapped => AttachAction::Close,
            AttachState::NotMapped(_) => AttachAction::Close,
            AttachState::Looking(_) => AttachAction::ReadReady,
            AttachState::Waiting(_) => AttachAction::Sleep,
            AttachState::Ready => AttachAction::ReadHeader,
            AttachState::Useless(_) => AttachAction::Unmap,
            AttachState::Attached => AttachAction::Serve,
            AttachState::Failed(e) => AttachAction::GiveUp(e),
        }
    }

    /// The state after what was to do came out as said.
    pub open spec fn after(self, event: AttachEvent) -> AttachState {
        match self {
            AttachState::Start => match event.error() {
                None => AttachState::Opened,
                Some(e) => AttachState::Failed(AttachError::NotRunning(e)),
            },
            AttachState::Opened => match event.error() {
                None => AttachState::Mapped,
                Some(e) => AttachState::NotMapped(e),
            },
            AttachState::Mapped => AttachState::Looking(0),
            AttachState::NotMapped(e) => match event.error() {
                None => AttachState::Failed(AttachError::Mmap(e)),
                Some(e) => AttachState::Failed(AttachError::Mmap(e)),
            },
            AttachState::Looking(n) => if event.says_ready() {
                AttachState::Ready
            } else {
                AttachState::Waiting((n + 1) as u32)
            },
            AttachState::Waiting(n) => if n < READY_POLLS {
                AttachState::Looking(n)
            } else {
                AttachState::Useless(AttachError::NotReady)
            },
            AttachState::Ready => if event.says_ours() {
                AttachState::Attached
            } else {
                AttachState::Useless(AttachError::VersionMismatch)
            },
            AttachState::Useless(e) => AttachState::Failed(e),
            AttachState::Attached => self,
            AttachState::Failed(_) => self,
        }
    }

    /// The state after several steps that came out as said.
    pub open spec fn after_all(self, events: Seq<AttachEvent>) -> AttachState
        decreases events.len(),
    {
        if events.len() == 0 {
            self
        } else {
            self.after(events.first()).after_all(events.drop_first())
        }
    }

    /// Nothing is left to do.
    pub open spec fn is_over(self) -> bool {
        self is Attached || self is Failed
    }

    /// The looks that are counted are within their number.
    pub open spec fn wf(self) -> bool {
        match self {
            AttachState::Looking(n) => n < READY_POLLS,
            AttachState::Waiting(n) => 0 < n <= READY_POLLS,
            _ => true,
        }
    }

    /// The segment is mapped in this state.
    pub open spec fn holds_mapping(self) -> bool {
        match self {
            AttachState::Mapped => true,
            AttachState::Looking(_) => true,
            AttachState::Waiting(_) => true,
            AttachState::Ready => true,
            AttachState::Useless(_) => true,
            AttachState::Attached => true,
            _ => false,
        }
    }

    /// At most this many steps are left.
    pub open spec fn steps_left(self) -> int {
        match self {
            AttachState::Start => 2 * READY_POLLS + 4,
            AttachState::Opened => 2 * READY_POLLS + 3,
            AttachState::Mapped => 2 * READY_POLLS + 2,
            AttachState::NotMapped(_) => 1,
            AttachState::Looking(n) => 2 * (READY_POLLS - n) + 1,
            AttachState::Waiting(n) => 2 * (READY_POLLS - n) + 2,
            AttachState::Ready => 2,
            AttachState::Useless(_) => 1,
            AttachState::Attached => 0,
            AttachState::Failed(_) => 0,
        }
    }

    /// What to do in this state.
    pub fn action(&self) -> (action: AttachAction)
        ensures
            action == self.todo(),
    {
        match self {
            AttachState::Start => AttachAction::Open,
            AttachState::Opened => AttachAction::MapMemory,
            AttachState::Mapped => AttachAction::Close,
            AttachState::NotMapped(_) => AttachAction::Close,
            AttachState::Looking(_) => AttachAction::ReadReady,
            AttachState::Waiting(_) => AttachAction::Sleep,
            AttachState::Ready => AttachAction::ReadHeader,
            AttachState::Useless(_) => AttachAction::Unmap,
            AttachState::Attached => AttachAction::Serve,
            AttachState::Failed(e) => AttachAction::GiveUp(*e),
        }
    }

    /// The state after what was to do came out as said.
    pub fn next(self, event: AttachEvent) -> (next: AttachState)
        requires
            self.wf(),
        ensures
            next == self.after(event),
            next.wf(),
    {
        let error: Option<i32> = event.errno();
        match self {
            AttachState::Start => match error {
                None => AttachState::Opened,
                Some(e) => AttachState::Failed(AttachError::NotRunning(e)),
            },
            AttachState::Opened => match error {
                None => AttachState::Mapped,
                Some(e) => AttachState::NotMapped(e),
            },
            AttachState::Mapped => AttachState::Looking(0),
            AttachState::NotMapped(e) => match error {
                None => AttachState::Failed(AttachError::Mmap(e)),
                Some(later) => AttachState::Failed(AttachError::Mmap(later)),
            },
            AttachState::Looking(n) => {
                let ready: bool = match event {
                    AttachEvent::Ready(word) => word == 1,
                    _ => false,
                };
                if ready {
                    AttachState::Ready
                } else {
                    AttachState::Waiting(n + 1)
                }
            },
            AttachState::Waiting(n) => if n < READY_POLLS {
                AttachState::Looking(n)
            } else {
                AttachState::Useless(AttachError::NotReady)
            },
            AttachState::Ready => {
                let ours: bool = match event {
                    AttachEvent::Header { magic, version } => magic == MAGIC && version == VERSION,
                    _ => false,
                };
                if ours {
                    AttachState::Attached
                } else {
                    AttachState::Useless(AttachError::VersionMismatch)
                }
            },
            AttachState::Useless(e) => AttachState::Failed(e),
            AttachState::Attached => self,
            AttachState::Failed(_) => self,
        }
    }
}

/// However it goes, an attachment is over after a bounded number of steps.
pub proof fn law_attachment_ends(events: Seq<AttachEvent>)
    requires
        events.len() >= AttachState::Start.steps_left(),
    ensures
        AttachState::Start.after_all(events).is_over(),
{
    lemma_attachment_ends(AttachState::Start, events);
}

proof fn lemma_attachment_ends(state: AttachState, events: Seq<AttachEvent>)
    requires
        state.wf(),
        events.len() >= state.steps_left(),
    ensures
        state.after_all(events).is_over(),
    decreases events.len(),
{
    if events.len() > 0 {
        lemma_attachment_ends(state.after(events.first()), events.drop_first());
    } else {
        assert(state.is_over());
    }
}

/// A client attaches only to a segment that it has seen ready, and whose magic
/// and version are its build's; one that it refuses is not left mapped.
pub proof fn law_client_attaches_to_ready_segments_only(state: AttachState, event: AttachEvent)
    requires
        state.wf(),
        !state.is_over(),
    ensures
        state.after(event).wf(),
        state.after(event) is Attached <==> state is Ready && event.says_ours(),
        state.after(event) is Ready <==> state is Looking && event.says_ready(),
        state.after(event) is Failed ==> !state.after(event).holds_mapping(),
        state.holds_mapping() && !state.after(event).holds_mapping() <==> state.todo() is Unmap,
{
}

/// What a server has published, however far it has come, never makes a client
/// that waits for the ready word refuse the segment.
pub proof fn law_published_segment_is_accepted(
    sample_rate_bits: u32,
    block_size: u32,
    clock_mode: u32,
    n: int,
)
    requires
        0 <= n <= crate::shm::publication_order(sample_rate_bits, block_size, clock_mode).len(),
    ensures
        ({
            let seen = Header::blank().stored_all(
                crate::shm::publication_order(sample_rate_bits, block_size, clock_mode).take(n),
            );
            AttachEvent::Ready(seen.ready).says_ready() ==> (AttachEvent::Header {
                magic: seen.magic,
                version: seen.version,
            }).says_ours()
        }),
{
    crate::shm::law_ready_means_published(sample_rate_bits, block_size, clock_mode, n);
}

/// A segment that is there is opened, mapped and its descriptor closed, in this
/// order, and then looked at.
pub proof fn law_client_opens_and_maps(closed: AttachEvent)
    ensures
        AttachState::Start.todo() is Open,
        AttachState::Start.after(AttachEvent::Call(Outcome::Done)).todo() is MapMemory,
        ({
            let mapped = AttachState::Start.after(AttachEvent::Call(Outcome::Done)).after(
                AttachEvent::Call(Outcome::Done),
            );
            &&& mapped.todo() is Close
            &&& mapped.after(closed) == AttachState::Looking(0)
            &&& mapped.after(closed).todo() is ReadReady
        }),
{
}

/// A client looks a hundred times whether a segment is ready, with a pause after
/// each look that found it not to be, and then unmaps it and reports that. The
/// first look that finds it ready is the last: magic and version are read.
pub proof fn law_client_looks_a_hundred_times(
    n: u32,
    word: u32,
    slept: AttachEvent,
    unmapped: AttachEvent,
)
    requires
        n < 100,
    ensures
        AttachState::Looking(n).todo() is ReadReady,
        word == 1 ==> AttachState::Looking(n).after(AttachEvent::Ready(word)).todo()
            is ReadHeader,
        word != 1 ==> {
            let missed = AttachState::Looking(n).after(AttachEvent::Ready(word));
            &&& missed.todo() is Sleep
            &&& n + 1 < 100 ==> missed.after(slept) == AttachState::Looking((n + 1) as u32)
            &&& n + 1 == 100 ==> missed.after(slept).todo() is Unmap && missed.after(slept).after(
                unmapped,
            ).todo() == AttachAction::GiveUp(AttachError::NotReady)
        },
{
}

/// A client that has seen the segment ready attaches if magic and version are
/// those of its build, and otherwise unmaps it and reports that.
pub proof fn law_client_checks_the_build(magic: u64, version: u32, unmapped: AttachEvent)
    ensures
        AttachState::Ready.todo() is ReadHeader,
        ({
            let read = AttachState::Ready.after(AttachEvent::Header { magic, version });
            if magic == MAGIC && version == VERSION {
                read.todo() is Serve
            } else {
                read.todo() is Unmap && read.after(unmapped).todo() == AttachAction::GiveUp(
                    AttachError::VersionMismatch,
                )
            }
        }),
{
}

/// A call that fails is reported: an opening as no running server, a mapping once
/// the descriptor is closed, with the error of the closing where that fails too.
pub proof fn law_failed_attachment_is_reported(e: i32, closed: Outcome)
    ensures
        AttachState::Start.after(AttachEvent::Call(Outcome::Failed(e))).todo()
            == AttachAction::GiveUp(AttachError::NotRunning(e)),
        ({
            let not_mapped = AttachState::Opened.after(AttachEvent::Call(Outcome::Failed(e)));
            &&& not_mapped.todo() is Close
            &&& closed is Done ==> not_mapped.after(AttachEvent::Call(closed)).todo()
                == AttachAction::GiveUp(AttachError::Mmap(e))
            &&& closed matches Outcome::Failed(c) ==> not_mapped.after(
                AttachEvent::Call(closed),
            ).todo() == AttachAction::GiveUp(AttachError::Mmap(c))
        }),
        AttachState::Opened.todo() is MapMemory,
{
}

} // verus!
