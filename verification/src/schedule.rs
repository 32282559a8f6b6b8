//! The schedule of grains: a timing wheel with counters of what it took and
//! refused.
use crate::fof::FofParams;
use crate::wheel;
use crate::wheel::{RejectReason, Wheel, WheelModel};
use vstd::prelude::*;

verus! {

// ---------------------------------------------------------------------------
// Admission counters
// ---------------------------------------------------------------------------

/// Counts of what became of the grains offered to a wheel.
pub struct QueueStats {
    /// Grains whose start was already behind the wheel's clock.
    pub too_late: u64,
    /// Grains whose start was at or beyond the horizon.
    pub too_early: u64,
    /// Grains whose slot was at capacity.
    pub slot_full: u64,
    /// Grains that are waiting in the wheel.
    pub queue_size: u64,
    /// Grains taken into the wheel, by how many slots ahead of the read head
    /// their start lay.
    pub slot_offset_histogram: Vec<u64>,
}

/// The counters of a [`QueueStats`].
#[verifier::ext_equal]
pub struct StatsModel {
    pub too_late: u64,
    pub too_early: u64,
    pub slot_full: u64,
    pub queue_size: u64,
    pub histogram: Seq<u64>,
}

impl View for QueueStats {
    type V = StatsModel;

    open spec fn view(&self) -> StatsModel {
        StatsModel {
            too_late: self.too_late,
            too_early: self.too_early,
            slot_full: self.slot_full,
            queue_size: self.queue_size,
            histogram: self.slot_offset_histogram@,
        }
    }
}

impl StatsModel {
    /// Nothing counted yet, over `n_slots` slots.
    pub open spec fn zero(n_slots: nat) -> StatsModel {
        StatsModel {
            too_late: 0,
            too_early: 0,
            slot_full: 0,
            queue_size: 0,
            histogram: Seq::new(n_slots, |j: int| 0u64),
        }
    }
}

impl QueueStats {
    /// Nothing counted yet, over `n_slots` slots.
    pub fn zero(n_slots: usize) -> (stats: QueueStats)
        ensures
            stats@ == StatsModel::zero(n_slots as nat),
    {
        let mut histogram: Vec<u64> = Vec::with_capacity(n_slots);
        let mut i: usize = 0;
        while i < n_slots
            invariant
                i <= n_slots,
                histogram@.len() == i,
                forall|k: int| #![trigger histogram@[k]] 0 <= k < i ==> histogram@[k] == 0,
            decreases n_slots - i,
        {
            histogram.push(0);
            i = i + 1;
        }
        proof {
            assert(histogram@ =~= Seq::new(n_slots as nat, |j: int| 0u64));
        }
        QueueStats {
            too_late: 0,
            too_early: 0,
            slot_full: 0,
            queue_size: 0,
            slot_offset_histogram: histogram,
        }
    }
}

/// A counter that has counted one more; it wraps at the end of its range.
pub open spec fn bumped(count: u64) -> u64 {
    if count == u64::MAX {
        0
    } else {
        (count + 1) as u64
    }
}

/// The sum of all counts.
pub open spec fn total(counts: Seq<u64>) -> nat
    decreases counts.len(),
{
    if counts.len() == 0 {
        0
    } else {
        total(counts.drop_last()) + counts.last() as nat
    }
}

/// How many grains wait in a wheel, modulo the range of the counter.
pub open spec fn pending_count(w: WheelModel<FofParams>) -> u64 {
    (w.pending.flatten().len() % 0x1_0000_0000_0000_0000) as u64
}

impl StatsModel {
    /// The counters after one more rejection.
    pub open spec fn rejected(self, reason: RejectReason) -> StatsModel {
        match reason {
            RejectReason::TooLate => StatsModel { too_late: bumped(self.too_late), ..self },
            RejectReason::TooEarly => StatsModel { too_early: bumped(self.too_early), ..self },
            RejectReason::SlotFull => StatsModel { slot_full: bumped(self.slot_full), ..self },
        }
    }

    /// How many grains have been counted, taken or not.
    pub open spec fn accounted(self) -> nat {
        total(self.histogram) + self.too_late as nat + self.too_early as nat
            + self.slot_full as nat
    }
}

// ---------------------------------------------------------------------------
// Schedule
// ---------------------------------------------------------------------------

/// The state of a [`Schedule`].
#[verifier::ext_equal]
pub struct ScheduleModel {
    pub wheel: WheelModel<FofParams>,
    pub stats: StatsModel,
}

impl ScheduleModel {
    /// The wheel is well-formed, there is a histogram bucket for each of its
    /// slots, and the waiting grains are counted.
    pub open spec fn wf(self) -> bool {
        &&& self.wheel.wf()
        &&& self.stats.histogram.len() == self.wheel.pending.len()
        &&& self.stats.queue_size == pending_count(self.wheel)
    }

    /// The first start that is beyond the wheel's current window.
    pub open spec fn admit_before(self) -> int {
        (self.wheel.wheel_time() + self.wheel.horizon()) as int
    }

    /// The schedule after a grain was offered to it.
    pub open spec fn admitted(self, params: FofParams) -> ScheduleModel {
        let deadline = params.start_sample as int;
        match self.wheel.reject(deadline) {
            Some(reason) => ScheduleModel { stats: self.stats.rejected(reason), ..self },
            None => {
                let wheel = self.wheel.inserted(params, deadline);
                let j = self.wheel.slot_offset(deadline);
                ScheduleModel {
                    wheel,
                    stats: StatsModel {
                        queue_size: pending_count(wheel),
                        histogram: self.stats.histogram.update(j, bumped(self.stats.histogram[j])),
                        ..self.stats
                    },
                }
            },
        }
    }

    /// The schedule with its clock moved on, where it has to be for a grain at
    /// `start` to be inside its window.
    pub open spec fn reaching(self, start: int) -> ScheduleModel {
        if start >= self.admit_before() {
            self.advanced(start)
        } else {
            self
        }
    }

    /// The schedule after it took a grain.
    pub open spec fn taking(self, params: FofParams) -> ScheduleModel {
        self.reaching(params.start_sample as int).admitted(params)
    }

    /// What fires when the schedule takes a grain.
    pub open spec fn fired_taking(self, params: FofParams) -> Seq<FofParams> {
        if params.start_sample >= self.admit_before() {
            self.wheel.fired(params.start_sample as int)
        } else {
            Seq::empty()
        }
    }

    /// The schedule after it took grains, in order.
    pub open spec fn taking_all(self, entries: Seq<FofParams>) -> ScheduleModel
        decreases entries.len(),
    {
        if entries.len() == 0 {
            self
        } else {
            self.taking_all(entries.drop_last()).taking(entries.last())
        }
    }

    /// What fires when the schedule takes grains, in order.
    pub open spec fn fired_taking_all(self, entries: Seq<FofParams>) -> Seq<FofParams>
        decreases entries.len(),
    {
        if entries.len() == 0 {
            Seq::empty()
        } else {
            self.fired_taking_all(entries.drop_last()) + self.taking_all(
                entries.drop_last(),
            ).fired_taking(entries.last())
        }
    }

    /// The first start that is beyond both the window and `block_end`.
    pub open spec fn limit(self, block_end: int) -> int {
        if self.admit_before() >= block_end {
            self.admit_before()
        } else {
            block_end
        }
    }

    /// The schedule after it took grains and its clock moved to `block_end`.
    pub open spec fn through(self, entries: Seq<FofParams>, block_end: int) -> ScheduleModel {
        self.taking_all(entries).advanced(block_end)
    }

    /// What fires on the way there.
    pub open spec fn fired_through(self, entries: Seq<FofParams>, block_end: int) -> Seq<
        FofParams,
    > {
        self.fired_taking_all(entries) + self.taking_all(entries).wheel.fired(block_end)
    }

    /// The grains of the current slot that start before `now`.
    pub open spec fn due(self, now: int) -> Seq<FofParams> {
        starting_before(self.wheel.pending[0], now)
    }

    /// The schedule without them.
    pub open spec fn without_due(self, now: int) -> ScheduleModel {
        let wheel = self.wheel.with_current(starting_from(self.wheel.pending[0], now));
        ScheduleModel {
            wheel,
            stats: StatsModel { queue_size: pending_count(wheel), ..self.stats },
        }
    }

    /// The schedule after its clock has moved to `now`.
    pub open spec fn advanced(self, now: int) -> ScheduleModel {
        let wheel = self.wheel.advanced(now);
        ScheduleModel {
            wheel,
            stats: StatsModel { queue_size: pending_count(wheel), ..self.stats },
        }
    }

    /// The times that a block ending at `block_end` involves are representable.
    pub open spec fn fits(self, block_end: int) -> bool {
        &&& self.admit_before() <= u64::MAX
        &&& self.wheel.can_advance(block_end)
    }

    /// Every waiting grain is in the slot of its start.
    pub open spec fn in_place(self) -> bool {
        forall|j: int, k: int|
            #![trigger self.wheel.pending[j][k]]
            0 <= j < self.wheel.pending.len() && 0 <= k < self.wheel.pending[j].len()
                ==> self.wheel.pending[j][k].start_sample as int / (
            self.wheel.slot_duration as int) == self.wheel.slot_index + j
    }
}

/// Those of the grains that start before `now`.
pub open spec fn starting_before(events: Seq<FofParams>, now: int) -> Seq<FofParams>
    decreases events.len(),
{
    if events.len() == 0 {
        events
    } else if events.last().start_sample < now {
        starting_before(events.drop_last(), now).push(events.last())
    } else {
        starting_before(events.drop_last(), now)
    }
}

/// Those of the grains that start at `now` or later.
pub open spec fn starting_from(events: Seq<FofParams>, now: int) -> Seq<FofParams>
    decreases events.len(),
{
    if events.len() == 0 {
        events
    } else if events.last().start_sample < now {
        starting_from(events.drop_last(), now)
    } else {
        starting_from(events.drop_last(), now).push(events.last())
    }
}

/// Each of the grains, taken in order, is inside the window or before
/// `block_end` when its turn comes.
pub open spec fn admissible(s: ScheduleModel, entries: Seq<FofParams>, block_end: int) -> bool
    decreases entries.len(),
{
    entries.len() > 0 ==> {
        &&& admissible(s, entries.drop_last(), block_end)
        &&& entries.last().start_sample < s.taking_all(entries.drop_last()).limit(block_end)
    }
}

/// How far a drain up to `block_end` moves the clock: not past a grain that it
/// has to leave for later.
pub open spec fn reached(deferred: Option<u64>, block_end: int) -> int {
    match deferred {
        Some(start) => if start < block_end {
            start as int
        } else {
            block_end
        },
        None => block_end,
    }
}

/// How many of the grains waiting in line start before `limit`, up to the first
/// that does not.
pub open spec fn ready_count(waiting: Seq<FofParams>, limit: int) -> nat
    decreases waiting.len(),
{
    if waiting.len() == 0 || waiting[0].start_sample >= limit {
        0
    } else {
        1 + ready_count(waiting.drop_first(), limit)
    }
}

/// A timing wheel of grains, with counters of what it took and refused.
pub struct Schedule {
    wheel: Wheel<FofParams>,
    stats: QueueStats,
}

impl View for Schedule {
    type V = ScheduleModel;

    closed spec fn view(&self) -> ScheduleModel {
        ScheduleModel { wheel: self.wheel@, stats: self.stats@ }
    }
}

impl Schedule {
    pub open spec fn wf(&self) -> bool {
        &&& self@.wf()
        &&& self@.in_place()
        &&& self@.wheel.wheel_time() + self@.wheel.slot_duration <= u64::MAX
    }

    /// An empty schedule with its clock at 0.
    pub fn new(n_slots: usize, slot_duration: u64, slot_capacity: usize) -> (schedule: Schedule)
        requires
            n_slots > 0,
            slot_duration > 0,
        ensures
            schedule.wf(),
            schedule@ == (ScheduleModel {
                wheel: WheelModel {
                    slot_index: 0,
                    slot_duration: slot_duration as nat,
                    slot_capacity: slot_capacity as nat,
                    pending: Seq::new(n_slots as nat, |j: int| Seq::empty()),
                },
                stats: StatsModel::zero(n_slots as nat),
            }),
    {
        let wheel: Wheel<FofParams> = Wheel::new(n_slots, slot_duration, slot_capacity);
        proof {
            lemma_flatten_of_empties(wheel@.pending);
        }
        Schedule { wheel, stats: QueueStats::zero(n_slots) }
    }

    /// The counters.
    pub fn stats(&self) -> (stats: &QueueStats)
        ensures
            stats@ == self@.stats,
    {
        &self.stats
    }

    /// The first start that is beyond the wheel's current window.
    pub fn admit_before(&self) -> (t: u64)
        requires
            self.wf(),
            self@.admit_before() <= u64::MAX,
        ensures
            t == self@.admit_before(),
    {
        self.wheel.wheel_time() + self.wheel.horizon()
    }

    /// Whether the times that a block ending at `block_end` involves are
    /// representable.
    pub fn fits(&self, block_end: u64) -> (b: bool)
        requires
            self.wf(),
        ensures
            b == self@.fits(block_end as int),
    {
        self.wheel.window_fits() && self.wheel.can_advance(block_end)
    }

    /// Offer a grain to the wheel, to fire when its start is reached, and
    /// count what became of it.
    pub fn offer(&mut self, params: FofParams)
        requires
            old(self).wf(),
            params.start_sample >= old(self)@.wheel.wheel_time() ==> old(self)@.wheel.horizon()
                <= u64::MAX,
        ensures
            final(self).wf(),
            final(self)@ == old(self)@.admitted(params),
    {
        let deadline: u64 = params.start_sample;
        proof {
            lemma_admitted_keeps(self@, params);
        }
        match self.wheel.reject_reason(deadline) {
            Some(RejectReason::TooLate) => {
                self.stats.too_late = self.stats.too_late.wrapping_add(1);
            },
            Some(RejectReason::TooEarly) => {
                self.stats.too_early = self.stats.too_early.wrapping_add(1);
            },
            Some(RejectReason::SlotFull) => {
                self.stats.slot_full = self.stats.slot_full.wrapping_add(1);
            },
            None => {
                proof {
                    wheel::lemma_accepted_offset(self.wheel@, deadline as int);
                    lemma_inserted_count(self.wheel@, params, deadline as int);
                    assert(self.stats.slot_offset_histogram.len() == self.wheel@.pending.len());
                }
                let ghost before = self@;
                let offset: usize = self.wheel.slot_offset(deadline) as usize;
                let count: u64 = self.stats.slot_offset_histogram[offset];
                self.stats.slot_offset_histogram[offset] = count.wrapping_add(1);
                self.stats.queue_size = self.stats.queue_size.wrapping_add(1);
                let _ = self.wheel.schedule(params, deadline);
                assert(self@ =~= before.admitted(params));
            },
        }
    }

    /// Whether a start is before the end of the wheel's current window.
    pub fn is_inside(&self, start: u64) -> (inside: bool)
        requires
            self.wf(),
            self@.wheel.horizon() <= u64::MAX,
        ensures
            inside == (start < self@.admit_before()),
    {
        let now: u64 = self.wheel.wheel_time();
        start < now || start - now < self.wheel.horizon()
    }

    /// Take a grain: move the clock on, where it has to be for the grain to be
    /// inside the window, appending what fires to `out`, and offer the grain.
    pub fn take(&mut self, params: FofParams, out: &mut Vec<FofParams>)
        requires
            old(self).wf(),
            old(self)@.wheel.horizon() <= u64::MAX,
            params.start_sample >= old(self)@.admit_before() ==> old(self)@.wheel.can_advance(
                params.start_sample as int,
            ),
        ensures
            final(self).wf(),
            final(self)@ == old(self)@.taking(params),
            final(out)@ == old(out)@ + old(self)@.fired_taking(params),
    {
        if !self.is_inside(params.start_sample) {
            self.fire(params.start_sample, out);
        } else {
            proof {
                assert(out@ + Seq::<FofParams>::empty() =~= out@);
            }
        }
        self.offer(params);
    }

    /// Take the grains that are ready from those waiting in line, then advance
    /// the clock to `block_end`, appending every grain fired along the way to
    /// `out`. Says how many were taken: draining stops at the first one that is
    /// beyond the window, and the clock does not advance past it.
    pub fn drain(
        &mut self,
        waiting: &Vec<FofParams>,
        block_end: u64,
        out: &mut Vec<FofParams>,
    ) -> (taken: usize)
        requires
            old(self).wf(),
            old(self)@.fits(block_end as int),
        ensures
            final(self).wf(),
            taken == ready_count(waiting@, old(self)@.admit_before()),
            ({
                let entries = waiting@.take(taken as int);
                let deferred = if taken < waiting@.len() {
                    Some(waiting@[taken as int].start_sample)
                } else {
                    None
                };
                let now = reached(deferred, block_end as int);
                &&& final(self)@ == old(self)@.through(entries, now)
                &&& final(out)@ == old(out)@ + old(self)@.fired_through(entries, now)
            }),
    {
        let admit_before: u64 = self.admit_before();
        let ghost start = self@;
        let ghost out0 = out@;
        let mut taken: usize = 0;
        proof {
            assert(waiting@.take(0) =~= Seq::empty());
            assert(waiting@.skip(0) =~= waiting@);
            assert(out0 + start.fired_taking_all(waiting@.take(0)) =~= out0);
        }
        while taken < waiting.len() && waiting[taken].start_sample < admit_before
            invariant
                taken <= waiting@.len(),
                self.wf(),
                start.wf(),
                start.in_place(),
                start.fits(block_end as int),
                admit_before == start.admit_before(),
                self@ == start.taking_all(waiting@.take(taken as int)),
                out@ == out0 + start.fired_taking_all(waiting@.take(taken as int)),
                forall|i: int|
                    #![trigger waiting@[i]]
                    0 <= i < taken ==> waiting@[i].start_sample < admit_before,
                ready_count(waiting@, admit_before as int) == taken + ready_count(
                    waiting@.skip(taken as int),
                    admit_before as int,
                ),
            decreases waiting@.len() - taken,
        {
            let ghost n = taken as int;
            proof {
                let done = waiting@.take(n);
                assert forall|i: int| #![trigger done[i]] 0 <= i < done.len() implies
                    done[i].start_sample < admit_before by {
                    assert(done[i] == waiting@[i]);
                }
                lemma_taking_all_keeps(start, done);
                lemma_window_stays(start, done);
                assert(waiting@.take(n + 1).drop_last() =~= done);
                assert(waiting@.skip(n).drop_first() =~= waiting@.skip(n + 1));
            }
            self.take(waiting[taken], out);
            taken = taken + 1;
            proof {
                assert(out@ =~= out0 + start.fired_taking_all(waiting@.take(n + 1)));
            }
        }
        let ghost done = waiting@.take(taken as int);
        proof {
            assert forall|i: int| #![trigger done[i]] 0 <= i < done.len() implies
                done[i].start_sample < admit_before by {
                assert(done[i] == waiting@[i]);
            }
            lemma_taking_all_keeps(start, done);
            lemma_window_stays(start, done);
        }
        let now: u64 = if taken < waiting.len() && waiting[taken].start_sample < block_end {
            waiting[taken].start_sample
        } else {
            block_end
        };
        proof {
            lemma_can_advance_less(self@, now as int, block_end as int);
        }
        self.fire(now, out);
        proof {
            assert(out@ =~= out0 + start.fired_through(done, now as int));
        }
        taken
    }

    /// Take the grains of the current slot that start before `now`, appending
    /// them to `out`.
    pub fn fire_due(&mut self, now: u64, out: &mut Vec<FofParams>)
        requires
            old(self).wf(),
        ensures
            final(self).wf(),
            final(self)@ == old(self)@.without_due(now as int),
            final(out)@ == old(out)@ + old(self)@.due(now as int),
    {
        let ghost before = self@;
        let ghost out0 = out@;
        let mut events: Vec<FofParams> = Vec::new();
        self.wheel.swap_current(&mut events);
        let ghost all = events@;
        let mut kept: usize = 0;
        let mut fired: u64 = 0;
        let mut i: usize = 0;
        proof {
            assert(all.take(0) =~= Seq::empty());
            assert(out0 + starting_before(all.take(0), now as int) =~= out0);
            assert(events@.take(0) =~= Seq::empty());
        }
        while i < events.len()
            invariant
                kept <= i <= events@.len(),
                events@.len() == all.len(),
                forall|k: int| #![trigger events@[k]] i <= k < all.len() ==> events@[k] == all[k],
                out@ == out0 + starting_before(all.take(i as int), now as int),
                events@.take(kept as int) == starting_from(all.take(i as int), now as int),
                fired == starting_before(all.take(i as int), now as int).len(),
                fired <= i,
            decreases events@.len() - i,
        {
            let ghost n = i as int;
            let ghost had = events@;
            proof {
                assert(all.take(n + 1).drop_last() =~= all.take(n));
            }
            let event: FofParams = events[i];
            if event.start_sample < now {
                out.push(event);
                fired = fired + 1;
                proof {
                    assert(out@ =~= out0 + starting_before(all.take(n + 1), now as int));
                }
            } else {
                events[kept] = event;
                kept = kept + 1;
                proof {
                    assert(events@.take(kept as int) =~= had.take(kept - 1).push(event));
                }
            }
            i = i + 1;
        }
        events.truncate(kept);
        proof {
            assert(all.take(i as int) =~= all);
            assert(events@ =~= starting_from(all, now as int));
            lemma_split_lens(all, now as int);
            lemma_without_due_keeps(before, now as int);
        }
        self.wheel.swap_current(&mut events);
        proof {
            assert(self.wheel@ =~= before.without_due(now as int).wheel);
            lemma_flatten_current(before.wheel.pending, starting_from(all, now as int));
        }
        self.stats.queue_size = self.stats.queue_size.wrapping_sub(fired);
    }

    /// Advance the clock to `now`, appending every grain fired along the way
    /// to `out`.
    pub fn fire(&mut self, now: u64, out: &mut Vec<FofParams>)
        requires
            old(self).wf(),
            old(self)@.wheel.can_advance(now as int),
        ensures
            final(self).wf(),
            final(self)@ == old(self)@.advanced(now as int),
            final(out)@ == old(out)@ + old(self)@.wheel.fired(now as int),
    {
        let before: usize = out.len();
        proof {
            wheel::law_nothing_is_lost(self.wheel@, now as int);
            lemma_advanced_keeps(self@, now as int);
        }
        self.wheel.advance(now, out);
        let fired: usize = out.len() - before;
        self.stats.queue_size = self.stats.queue_size.wrapping_sub(fired as u64);
    }
}

proof fn lemma_flatten_of_empties<T>(parts: Seq<Seq<T>>)
    requires
        forall|j: int| #![trigger parts[j]] 0 <= j < parts.len() ==> parts[j].len() == 0,
    ensures
        parts.flatten().len() == 0,
    decreases parts.len(),
{
    if parts.len() > 0 {
        let rest = parts.drop_first();
        assert forall|j: int| #![trigger rest[j]] 0 <= j < rest.len() implies rest[j].len() == 0 by {
            assert(rest[j] == parts[j + 1]);
        }
        lemma_flatten_of_empties(rest);
    }
}

/// One item more in one part is one item more in the whole.
proof fn lemma_flatten_grown<T>(parts: Seq<Seq<T>>, j: int, item: T)
    requires
        0 <= j < parts.len(),
    ensures
        parts.update(j, parts[j].push(item)).flatten().len() == parts.flatten().len() + 1,
    decreases parts.len(),
{
    let grown = parts.update(j, parts[j].push(item));
    let rest = parts.drop_first();
    if j == 0 {
        assert(grown.drop_first() =~= rest);
    } else {
        lemma_flatten_grown(rest, j - 1, item);
        assert(grown.drop_first() =~= rest.update(j - 1, rest[j - 1].push(item)));
    }
}

proof fn lemma_inserted_count(w: WheelModel<FofParams>, params: FofParams, deadline: int)
    requires
        0 <= w.slot_offset(deadline) < w.pending.len(),
    ensures
        pending_count(w.inserted(params, deadline)) == bumped(pending_count(w)),
{
    lemma_flatten_grown(w.pending, w.slot_offset(deadline), params);
}

/// Offering a grain keeps a schedule in order and its clock where it is.
pub proof fn lemma_admitted_keeps(s: ScheduleModel, params: FofParams)
    requires
        s.wf(),
        s.in_place(),
    ensures
        s.admitted(params).wf(),
        s.admitted(params).in_place(),
        s.admitted(params).wheel.slot_index == s.wheel.slot_index,
        s.admitted(params).wheel.slot_duration == s.wheel.slot_duration,
        s.admitted(params).wheel.slot_capacity == s.wheel.slot_capacity,
        s.admitted(params).wheel.pending.len() == s.wheel.pending.len(),
{
    let deadline = params.start_sample as int;
    if s.wheel.reject(deadline) is None {
        wheel::lemma_accepted_offset(s.wheel, deadline);
        let after = s.admitted(params);
        let at = s.wheel.slot_offset(deadline);
        assert forall|j: int, k: int|
            #![trigger after.wheel.pending[j][k]]
            0 <= j < after.wheel.pending.len() && 0 <= k < after.wheel.pending[j].len() implies
            after.wheel.pending[j][k].start_sample as int / (after.wheel.slot_duration as int)
            == after.wheel.slot_index + j by {
            if j == at && k == s.wheel.pending[j].len() {
                assert(after.wheel.pending[j][k] == params);
            } else {
                assert(after.wheel.pending[j][k] == s.wheel.pending[j][k]);
            }
        }
        assert forall|j: int| #![trigger after.wheel.pending[j]] 0 <= j
            < after.wheel.pending.len() implies after.wheel.pending[j].len()
            <= after.wheel.slot_capacity by {
            assert(s.wheel.pending[j].len() <= s.wheel.slot_capacity);
        }
    }
}

/// Advancing keeps a schedule in order.
pub proof fn lemma_advanced_keeps(s: ScheduleModel, now: int)
    requires
        s.wf(),
        s.in_place(),
    ensures
        s.advanced(now).wf(),
        s.advanced(now).in_place(),
{
    let after = s.advanced(now);
    let m = s.wheel.elapsed(now);
    assert forall|j: int, k: int|
        #![trigger after.wheel.pending[j][k]]
        0 <= j < after.wheel.pending.len() && 0 <= k < after.wheel.pending[j].len() implies
        after.wheel.pending[j][k].start_sample as int / (after.wheel.slot_duration as int)
        == after.wheel.slot_index + j by {
        assert(after.wheel.pending[j][k] == s.wheel.pending[j + m][k]);
    }
    assert forall|j: int| #![trigger after.wheel.pending[j]] 0 <= j
        < after.wheel.pending.len() implies after.wheel.pending[j].len()
        <= after.wheel.slot_capacity by {
        if j + m < s.wheel.pending.len() {
            assert(s.wheel.pending[j + m].len() <= s.wheel.slot_capacity);
        }
    }
}

/// Moving the clock on for a grain brings the grain into the window, keeps the
/// schedule in order, and does not take the clock past the grain.
pub proof fn lemma_reaching_keeps(s: ScheduleModel, start: int)
    requires
        s.wf(),
        s.in_place(),
        start >= 0,
    ensures
        s.reaching(start).wf(),
        s.reaching(start).in_place(),
        s.reaching(start).wheel.slot_duration == s.wheel.slot_duration,
        s.reaching(start).wheel.slot_capacity == s.wheel.slot_capacity,
        s.reaching(start).wheel.pending.len() == s.wheel.pending.len(),
        s.reaching(start).wheel.slot_index >= s.wheel.slot_index,
        start < s.reaching(start).admit_before(),
        start >= s.wheel.wheel_time() ==> start >= s.reaching(start).wheel.wheel_time(),
{
    if start >= s.admit_before() {
        lemma_advanced_keeps(s, start);
        let d = s.wheel.slot_duration as int;
        let q = start / d;
        let i = s.wheel.slot_index as int;
        let n = s.wheel.pending.len() as int;
        vstd::arithmetic::div_mod::lemma_fundamental_div_mod(start, d);
        assert(q >= i && q * d <= start < q * d + n * d) by (nonlinear_arith)
            requires
                start == d * q + start % d,
                0 <= start % d < d,
                start >= i * d + n * d,
                n >= 1,
                d > 0,
        ;
    }
}

/// Taking grains keeps a schedule in order and never takes its clock back.
pub proof fn lemma_taking_all_keeps(s: ScheduleModel, entries: Seq<FofParams>)
    requires
        s.wf(),
        s.in_place(),
    ensures
        s.taking_all(entries).wf(),
        s.taking_all(entries).in_place(),
        s.taking_all(entries).wheel.slot_duration == s.wheel.slot_duration,
        s.taking_all(entries).wheel.slot_capacity == s.wheel.slot_capacity,
        s.taking_all(entries).wheel.pending.len() == s.wheel.pending.len(),
        s.taking_all(entries).wheel.slot_index >= s.wheel.slot_index,
        s.taking_all(entries).wheel.wheel_time() >= s.wheel.wheel_time(),
        s.taking_all(entries).admit_before() >= s.admit_before(),
    decreases entries.len(),
{
    if entries.len() > 0 {
        let first = entries.drop_last();
        let p = entries.last();
        lemma_taking_all_keeps(s, first);
        let mid = s.taking_all(first);
        lemma_reaching_keeps(mid, p.start_sample as int);
        lemma_admitted_keeps(mid.reaching(p.start_sample as int), p);
        let d = s.wheel.slot_duration as int;
        let i = s.wheel.slot_index as int;
        let j = s.taking_all(entries).wheel.slot_index as int;
        assert(j * d >= i * d) by (nonlinear_arith)
            requires
                j >= i,
                d > 0,
        ;
    }
}

/// Where all grains start inside the window, taking them leaves the clock as it
/// is, and nothing fires.
pub proof fn lemma_window_stays(s: ScheduleModel, entries: Seq<FofParams>)
    requires
        s.wf(),
        s.in_place(),
        forall|i: int|
            #![trigger entries[i]]
            0 <= i < entries.len() ==> entries[i].start_sample < s.admit_before(),
    ensures
        s.taking_all(entries).wheel.slot_index == s.wheel.slot_index,
        s.taking_all(entries).admit_before() == s.admit_before(),
        s.fired_taking_all(entries) == Seq::<FofParams>::empty(),
        admissible(s, entries, 0),
    decreases entries.len(),
{
    if entries.len() > 0 {
        let n = entries.len() - 1;
        let first = entries.drop_last();
        assert(entries.last() == entries[n]);
        assert forall|i: int| #![trigger first[i]] 0 <= i < first.len() implies first[i].start_sample
            < s.admit_before() by {
            assert(first[i] == entries[i]);
        }
        lemma_window_stays(s, first);
        lemma_taking_all_keeps(s, first);
        lemma_admitted_keeps(s.taking_all(first), entries.last());
    }
}

/// Grains that are admissible with nothing due start inside the window.
pub proof fn lemma_inside_the_window(s: ScheduleModel, entries: Seq<FofParams>)
    requires
        s.wf(),
        s.in_place(),
        admissible(s, entries, 0),
    ensures
        forall|i: int|
            #![trigger entries[i]]
            0 <= i < entries.len() ==> entries[i].start_sample < s.admit_before(),
    decreases entries.len(),
{
    if entries.len() > 0 {
        let first = entries.drop_last();
        lemma_inside_the_window(s, first);
        lemma_window_stays(s, first);
        assert forall|i: int| #![trigger entries[i]] 0 <= i < entries.len() implies
            entries[i].start_sample < s.admit_before() by {
            if i < first.len() {
                assert(first[i] == entries[i]);
            }
        }
    }
}

/// A clock that can move to one time can move to an earlier one.
pub proof fn lemma_can_advance_less(s: ScheduleModel, now: int, later: int)
    requires
        s.wf(),
        0 <= now <= later,
        s.wheel.can_advance(later),
    ensures
        s.wheel.can_advance(now),
{
    let d = s.wheel.slot_duration as int;
    vstd::arithmetic::div_mod::lemma_div_is_ordered(now, later, d);
    let a = s.wheel.advanced(now).slot_index as int;
    let b = s.wheel.advanced(later).slot_index as int;
    assert(a * d <= b * d) by (nonlinear_arith)
        requires
            a <= b,
            d > 0,
    ;
}

/// Taking grains, each of them admissible when its turn comes, takes the clock
/// no further than the end of the block does.
pub proof fn lemma_taking_all_stops(s: ScheduleModel, entries: Seq<FofParams>, block_end: int)
    requires
        s.wf(),
        s.in_place(),
        block_end >= 0,
        admissible(s, entries, block_end),
    ensures
        s.taking_all(entries).wheel.advanced(block_end).slot_index == s.wheel.advanced(
            block_end,
        ).slot_index,
    decreases entries.len(),
{
    if entries.len() > 0 {
        let first = entries.drop_last();
        let p = entries.last();
        let start = p.start_sample as int;
        lemma_taking_all_stops(s, first, block_end);
        lemma_taking_all_keeps(s, first);
        let mid = s.taking_all(first);
        lemma_reaching_keeps(mid, start);
        lemma_admitted_keeps(mid.reaching(start), p);
        if start >= mid.admit_before() {
            wheel::law_advance_composes(mid.wheel, start, block_end);
        }
    }
}

/// A schedule that has come from `start` by taking grains can take a further
/// one that is admissible.
pub proof fn lemma_can_take(s: ScheduleModel, start: ScheduleModel, p: FofParams, block_end: int)
    requires
        s.wf(),
        start.fits(block_end),
        block_end >= 0,
        s.wheel.slot_duration == start.wheel.slot_duration,
        s.wheel.pending.len() == start.wheel.pending.len(),
        s.wheel.advanced(block_end).slot_index == start.wheel.advanced(block_end).slot_index,
        p.start_sample < s.limit(block_end),
    ensures
        s.wheel.horizon() <= u64::MAX,
        s.wheel.can_advance(block_end),
        p.start_sample >= s.admit_before() ==> s.wheel.can_advance(p.start_sample as int),
{
    if p.start_sample >= s.admit_before() {
        lemma_can_advance_less(s, p.start_sample as int, block_end);
    }
}

proof fn lemma_split_lens(events: Seq<FofParams>, now: int)
    ensures
        starting_before(events, now).len() + starting_from(events, now).len() == events.len(),
    decreases events.len(),
{
    if events.len() > 0 {
        lemma_split_lens(events.drop_last(), now);
    }
}

/// What starts at `now` or later is among the grains, and does.
pub proof fn lemma_starting_from(events: Seq<FofParams>, now: int)
    ensures
        forall|k: int|
            #![trigger starting_from(events, now)[k]]
            0 <= k < starting_from(events, now).len() ==> events.contains(
                starting_from(events, now)[k],
            ) && starting_from(events, now)[k].start_sample >= now,
    decreases events.len(),
{
    if events.len() > 0 {
        let rest = events.drop_last();
        lemma_starting_from(rest, now);
        let kept = starting_from(events, now);
        assert forall|k: int| #![trigger kept[k]] 0 <= k < kept.len() implies events.contains(
            kept[k],
        ) && kept[k].start_sample >= now by {
            if k < starting_from(rest, now).len() {
                assert(kept[k] == starting_from(rest, now)[k]);
                let i = choose|i: int| 0 <= i < rest.len() && rest[i] == kept[k];
                assert(events[i] == kept[k]);
            } else {
                assert(events[events.len() - 1] == kept[k]);
            }
        }
    }
}

/// Every grain that starts before `now` is among those that do.
pub proof fn lemma_starting_before(events: Seq<FofParams>, now: int, i: int)
    requires
        0 <= i < events.len(),
        events[i].start_sample < now,
    ensures
        starting_before(events, now).contains(events[i]),
    decreases events.len(),
{
    let rest = events.drop_last();
    let out = starting_before(events, now);
    if i == events.len() - 1 {
        assert(out[out.len() - 1] == events[i]);
    } else {
        lemma_starting_before(rest, now, i);
        let k = choose|k: int|
            0 <= k < starting_before(rest, now).len() && starting_before(rest, now)[k] == rest[i];
        assert(out[k] == events[i]);
    }
}

/// How replacing the first part changes the length of the whole.
proof fn lemma_flatten_current<T>(parts: Seq<Seq<T>>, current: Seq<T>)
    requires
        parts.len() > 0,
    ensures
        parts.update(0, current).flatten().len() == parts.flatten().len() - parts[0].len()
            + current.len(),
{
    assert(parts.update(0, current).drop_first() =~= parts.drop_first());
}

/// Taking due grains keeps a schedule in order.
pub proof fn lemma_without_due_keeps(s: ScheduleModel, now: int)
    requires
        s.wf(),
        s.in_place(),
    ensures
        s.without_due(now).wf(),
        s.without_due(now).in_place(),
        starting_from(s.wheel.pending[0], now).len() <= s.wheel.slot_capacity,
{
    let after = s.without_due(now);
    let kept = starting_from(s.wheel.pending[0], now);
    lemma_split_lens(s.wheel.pending[0], now);
    lemma_starting_from(s.wheel.pending[0], now);
    assert(s.wheel.pending[0].len() <= s.wheel.slot_capacity);
    assert forall|j: int, k: int|
        #![trigger after.wheel.pending[j][k]]
        0 <= j < after.wheel.pending.len() && 0 <= k < after.wheel.pending[j].len() implies
        after.wheel.pending[j][k].start_sample as int / (after.wheel.slot_duration as int)
        == after.wheel.slot_index + j by {
        if j == 0 {
            assert(s.wheel.pending[0].contains(kept[k]));
            let i = choose|i: int|
                0 <= i < s.wheel.pending[0].len() && s.wheel.pending[0][i] == kept[k];
            assert(s.wheel.pending[0][i] == kept[k]);
        } else {
            assert(after.wheel.pending[j][k] == s.wheel.pending[j][k]);
        }
    }
    assert forall|j: int| #![trigger after.wheel.pending[j]] 0 <= j
        < after.wheel.pending.len() implies after.wheel.pending[j].len()
        <= after.wheel.slot_capacity by {
        assert(s.wheel.pending[j].len() <= s.wheel.slot_capacity);
    }
}

/// Every item of the whole is in one of the parts.
pub proof fn lemma_flatten_comes_from<T>(parts: Seq<Seq<T>>, i: int) -> (at: (int, int))
    requires
        0 <= i < parts.flatten().len(),
    ensures
        0 <= at.0 < parts.len(),
        0 <= at.1 < parts[at.0].len(),
        parts[at.0][at.1] == parts.flatten()[i],
    decreases parts.len(),
{
    let rest = parts.drop_first();
    if i < parts[0].len() {
        (0, i)
    } else {
        let (j, k) = lemma_flatten_comes_from(rest, i - parts[0].len());
        assert(rest[j] == parts[j + 1]);
        (j + 1, k)
    }
}

/// The whole is no longer than its parts can be.
pub proof fn lemma_flatten_bounded<T>(parts: Seq<Seq<T>>, cap: nat)
    requires
        forall|j: int| #![trigger parts[j]] 0 <= j < parts.len() ==> parts[j].len() <= cap,
    ensures
        parts.flatten().len() <= parts.len() * cap,
    decreases parts.len(),
{
    if parts.len() > 0 {
        let rest = parts.drop_first();
        assert forall|j: int| #![trigger rest[j]] 0 <= j < rest.len() implies rest[j].len()
            <= cap by {
            assert(rest[j] == parts[j + 1]);
        }
        lemma_flatten_bounded(rest, cap);
        assert(parts[0].len() <= cap);
        assert(parts.len() * cap == rest.len() * cap + cap) by (nonlinear_arith)
            requires
                parts.len() == rest.len() + 1,
        ;
    } else {
        assert(parts.len() * cap == 0) by (nonlinear_arith)
            requires
                parts.len() == 0,
        ;
    }
}

/// An item more in a part, where all later parts are empty, is an item more at
/// the end of the whole.
pub proof fn lemma_flatten_appended<T>(parts: Seq<Seq<T>>, j: int, item: T)
    requires
        0 <= j < parts.len(),
        forall|k: int| #![trigger parts[k]] j < k < parts.len() ==> parts[k].len() == 0,
    ensures
        parts.update(j, parts[j].push(item)).flatten() == parts.flatten().push(item),
    decreases parts.len(),
{
    let grown = parts.update(j, parts[j].push(item));
    let rest = parts.drop_first();
    if j == 0 {
        assert forall|k: int| #![trigger rest[k]] 0 <= k < rest.len() implies rest[k].len() == 0 by {
            assert(rest[k] == parts[k + 1]);
        }
        lemma_flatten_of_empties(rest);
        assert(grown.drop_first() =~= rest);
        assert(grown.flatten() =~= parts.flatten().push(item));
    } else {
        assert forall|k: int| #![trigger rest[k]] j - 1 < k < rest.len() implies rest[k].len()
            == 0 by {
            assert(rest[k] == parts[k + 1]);
        }
        lemma_flatten_appended(rest, j - 1, item);
        assert(grown.drop_first() =~= rest.update(j - 1, rest[j - 1].push(item)));
        assert(grown.flatten() =~= parts.flatten().push(item));
    }
}

/// What fires starts no earlier than the clock stood, and in a slot that is
/// over by `now`.
pub proof fn lemma_fired_slot_is_over(s: ScheduleModel, now: int, i: int)
    requires
        s.wf(),
        s.in_place(),
        now >= 0,
        0 <= i < s.wheel.fired(now).len(),
    ensures
        s.wheel.wheel_time() <= s.wheel.fired(now)[i].start_sample,
        (s.wheel.fired(now)[i].start_sample as int / (s.wheel.slot_duration as int) + 1)
            * s.wheel.slot_duration <= now,
{
    let w = s.wheel;
    let d = w.slot_duration as int;
    let m = w.elapsed(now);
    let n = if m < w.pending.len() {
        m as int
    } else {
        w.pending.len() as int
    };
    let parts = w.pending.take(n);
    let (j, k) = lemma_flatten_comes_from(parts, i);
    assert(parts[j][k] == w.pending[j][k]);
    let start = w.pending[j][k].start_sample as int;
    let q = start / d;
    assert(q == w.slot_index + j);
    assert(q < now / d);
    vstd::arithmetic::div_mod::lemma_fundamental_div_mod(start, d);
    vstd::arithmetic::div_mod::lemma_fundamental_div_mod(now, d);
    assert((q + 1) * d <= now) by (nonlinear_arith)
        requires
            now == d * (now / d) + now % d,
            now % d >= 0,
            q < now / d,
            d > 0,
    ;
    assert(w.slot_index * d <= start) by (nonlinear_arith)
        requires
            start == d * q + start % d,
            start % d >= 0,
            q >= w.slot_index,
            d > 0,
    ;
}

/// A grain fires only once its start has been passed: when the clock moves to
/// `now`, every grain that fires starts before `now`, and none starts before
/// the time that the clock stood at.
pub proof fn law_grains_fire_after_their_start(s: ScheduleModel, now: int, i: int)
    requires
        s.wf(),
        s.in_place(),
        now >= 0,
        0 <= i < s.wheel.fired(now).len(),
    ensures
        s.wheel.wheel_time() <= s.wheel.fired(now)[i].start_sample < now,
{
    lemma_fired_slot_is_over(s, now, i);
    let d = s.wheel.slot_duration as int;
    let start = s.wheel.fired(now)[i].start_sample as int;
    vstd::arithmetic::div_mod::lemma_fundamental_div_mod(start, d);
    assert((start / d + 1) * d == d * (start / d) + d) by (nonlinear_arith);
}

/// Where the clock stands at the start of a block, what fires in the block
/// starts in it.
pub proof fn law_grains_fire_in_their_block(
    s: ScheduleModel,
    block_start: int,
    block_end: int,
    i: int,
)
    requires
        s.wf(),
        s.in_place(),
        s.wheel.wheel_time() == block_start,
        block_start <= block_end,
        0 <= i < s.wheel.fired(block_end).len(),
    ensures
        block_start <= s.wheel.fired(block_end)[i].start_sample < block_end,
{
    law_grains_fire_after_their_start(s, block_end, i);
}

/// A grain that is taken in time for a block that ends on a slot border, and
/// starts before its end, fires in it: no grain is late.
pub proof fn law_grain_taken_in_time_fires_in_its_block(
    s: ScheduleModel,
    params: FofParams,
    block_end: int,
)
    requires
        s.wf(),
        s.in_place(),
        s.wheel.reject(params.start_sample as int) is None,
        params.start_sample < block_end,
        block_end % (s.wheel.slot_duration as int) == 0,
    ensures
        s.admitted(params).wheel.fired(block_end).contains(params),
        s.wheel.wheel_time() <= params.start_sample,
{
    let d = s.wheel.slot_duration as int;
    let start = params.start_sample as int;
    let q = start / d;
    let e = block_end / d;
    vstd::arithmetic::div_mod::lemma_fundamental_div_mod(start, d);
    vstd::arithmetic::div_mod::lemma_fundamental_div_mod(block_end, d);
    assert((q + 1) * d <= block_end) by (nonlinear_arith)
        requires
            start == d * q + start % d,
            start % d >= 0,
            block_end == d * e,
            start < block_end,
            d > 0,
    ;
    wheel::law_fires_when_its_slot_is_over(s.wheel, params, start, block_end);
    let up_to = s.wheel.first_slots((s.wheel.slot_offset(start) + 1) as nat);
    let fired = s.admitted(params).wheel.fired(block_end);
    assert(fired[up_to.len() as int] == params);
}

/// A waiting grain never starts behind the wheel's clock.
pub proof fn law_waiting_grains_are_ahead(s: ScheduleModel, slot: int, k: int)
    requires
        s.wf(),
        s.in_place(),
        0 <= slot < s.wheel.pending.len(),
        0 <= k < s.wheel.pending[slot].len(),
    ensures
        s.wheel.pending[slot][k].start_sample >= s.wheel.wheel_time(),
{
    let start = s.wheel.pending[slot][k].start_sample as int;
    let d = s.wheel.slot_duration as int;
    assert(start >= s.wheel.slot_index * d) by (nonlinear_arith)
        requires
            d > 0,
            start / d == s.wheel.slot_index + slot,
            slot >= 0,
    ;
}

/// A clock that is moved to a slot border stands there.
pub proof fn law_clock_reaches_slot_border(s: ScheduleModel, now: int)
    requires
        s.wf(),
        s.wheel.wheel_time() <= now,
        now % (s.wheel.slot_duration as int) == 0,
    ensures
        s.advanced(now).wheel.wheel_time() == now,
{
    let d = s.wheel.slot_duration as int;
    let i = s.wheel.slot_index as int;
    vstd::arithmetic::div_mod::lemma_fundamental_div_mod(now, d);
    assert(now / d >= i) by (nonlinear_arith)
        requires
            now == d * (now / d),
            i * d <= now,
            d > 0,
    ;
    assert((now / d) * d == d * (now / d)) by (nonlinear_arith);
}

/// A grain that is taken is never turned away as too early: the clock has moved
/// on as far as it has to.
pub proof fn law_taken_grains_are_not_too_early(s: ScheduleModel, entries: Seq<FofParams>)
    requires
        s.wf(),
        s.in_place(),
    ensures
        s.taking_all(entries).stats.too_early == s.stats.too_early,
    decreases entries.len(),
{
    if entries.len() > 0 {
        let first = entries.drop_last();
        law_taken_grains_are_not_too_early(s, first);
        lemma_taking_all_keeps(s, first);
        lemma_reaching_keeps(s.taking_all(first), entries.last().start_sample as int);
    }
}

/// Every grain taken is counted exactly once: waiting, too late, too early or
/// turned away by a full slot. (Counters that run over are left out.)
pub proof fn law_every_grain_is_accounted_for(s: ScheduleModel, entries: Seq<FofParams>)
    requires
        s.wf(),
        s.in_place(),
        s.stats.accounted() + entries.len() <= u64::MAX,
    ensures
        s.taking_all(entries).stats.accounted() == s.stats.accounted() + entries.len(),
    decreases entries.len(),
{
    if entries.len() > 0 {
        let first = entries.drop_last();
        law_every_grain_is_accounted_for(s, first);
        lemma_taking_all_keeps(s, first);
        let deadline = entries.last().start_sample as int;
        lemma_reaching_keeps(s.taking_all(first), deadline);
        let before = s.taking_all(first).reaching(deadline);
        if before.wheel.reject(deadline) is None {
            wheel::lemma_accepted_offset(before.wheel, deadline);
            lemma_total_bumped(before.stats.histogram, before.wheel.slot_offset(deadline));
        }
    }
}

/// An offered grain that is turned away is counted once, by the reason, and
/// changes nothing else. (A counter that is full starts over.)
pub proof fn law_refused_grain_is_counted_by_its_reason(s: ScheduleModel, params: FofParams)
    requires
        s.wf(),
        s.wheel.reject(params.start_sample as int) is Some,
    ensures
        ({
            let after = s.admitted(params);
            let reason = s.wheel.reject(params.start_sample as int)->0;
            let one_more = |new: u64, had: u64, counts: bool|
                if counts {
                    new == had + 1 || (had == u64::MAX && new == 0)
                } else {
                    new == had
                };
            &&& after.wheel == s.wheel
            &&& one_more(after.stats.too_late, s.stats.too_late, reason is TooLate)
            &&& one_more(after.stats.too_early, s.stats.too_early, reason is TooEarly)
            &&& one_more(after.stats.slot_full, s.stats.slot_full, reason is SlotFull)
            &&& after.stats.queue_size == s.stats.queue_size
            &&& after.stats.histogram == s.stats.histogram
        }),
{
}

/// An offered grain that is taken goes into the wheel as it was offered, for the
/// time of its start, and is counted by how many slots ahead that is; no refusal
/// is counted, and as many grains are counted as waiting as wait. (A counter
/// that is full starts over.)
pub proof fn law_taken_grain_is_counted_by_its_distance(s: ScheduleModel, params: FofParams)
    requires
        s.wf(),
        s.wheel.reject(params.start_sample as int) is None,
    ensures
        ({
            let after = s.admitted(params);
            let j = params.start_sample as int / (s.wheel.slot_duration as int)
                - s.wheel.slot_index;
            &&& after.wheel == s.wheel.scheduled(params, params.start_sample as int)
            &&& after.wheel.pending.flatten().len() == s.wheel.pending.flatten().len() + 1
            &&& after.stats.too_late == s.stats.too_late
            &&& after.stats.too_early == s.stats.too_early
            &&& after.stats.slot_full == s.stats.slot_full
            &&& 0 <= j < s.stats.histogram.len()
            &&& after.stats.histogram.len() == s.stats.histogram.len()
            &&& after.stats.histogram[j] == s.stats.histogram[j] + 1 || (s.stats.histogram[j]
                == u64::MAX && after.stats.histogram[j] == 0)
            &&& forall|i: int|
                #![trigger after.stats.histogram[i]]
                0 <= i < s.stats.histogram.len() && i != j ==> after.stats.histogram[i]
                    == s.stats.histogram[i]
            &&& after.wheel.pending.flatten().len() <= u64::MAX ==> after.stats.queue_size
                == after.wheel.pending.flatten().len()
        }),
{
    let deadline = params.start_sample as int;
    wheel::lemma_accepted_offset(s.wheel, deadline);
    lemma_flatten_grown(s.wheel.pending, s.wheel.slot_offset(deadline), params);
}

/// A schedule whose clock moves on moves its wheel and counts what still waits;
/// what it has counted otherwise stands.
pub proof fn law_moving_the_clock_counts_nothing(s: ScheduleModel, now: int)
    requires
        s.wf(),
    ensures
        ({
            let after = s.advanced(now);
            &&& after.wheel == s.wheel.advanced(now)
            &&& after.stats.too_late == s.stats.too_late
            &&& after.stats.too_early == s.stats.too_early
            &&& after.stats.slot_full == s.stats.slot_full
            &&& after.stats.histogram == s.stats.histogram
            &&& after.wheel.pending.flatten().len() <= u64::MAX ==> after.stats.queue_size
                == after.wheel.pending.flatten().len()
        }),
{
}

/// The window of a schedule reaches from its clock over all slots of its wheel.
pub proof fn law_window_spans_the_wheel(s: ScheduleModel)
    ensures
        s.admit_before() == s.wheel.slot_index * s.wheel.slot_duration + s.wheel.pending.len()
            * s.wheel.slot_duration,
{
}

/// A grain inside the window, or behind it, is offered as it is: nothing fires
/// and the clock stays. For one beyond the window the clock moves to its slot,
/// and it is taken unless no slot holds anything.
pub proof fn law_taking_moves_the_clock_only_for_a_far_grain(s: ScheduleModel, params: FofParams)
    requires
        s.wf(),
        s.in_place(),
    ensures
        ({
            let d = s.wheel.slot_duration as int;
            let start = params.start_sample as int;
            let end = s.wheel.slot_index * d + s.wheel.pending.len() * d;
            let after = s.taking(params);
            &&& start < end ==> {
                &&& after == s.admitted(params)
                &&& s.fired_taking(params).len() == 0
                &&& after.wheel.slot_index == s.wheel.slot_index
            }
            &&& start >= end ==> {
                &&& after.wheel.slot_index * d <= start < after.wheel.slot_index * d + d
                &&& s.fired_taking(params) == s.wheel.pending.flatten()
                &&& s.wheel.slot_capacity > 0 ==> after.wheel.pending.flatten() == seq![params]
            }
        }),
{
    let d = s.wheel.slot_duration as int;
    let start = params.start_sample as int;
    let n = s.wheel.pending.len();
    let i = s.wheel.slot_index as int;
    let end = i * d + n * d;
    if start < end {
        if s.wheel.reject(start) is None {
            wheel::law_event_goes_to_the_slot_of_its_deadline(s.wheel, params, start);
        }
    } else {
        let mid = s.advanced(start);
        lemma_advanced_keeps(s, start);
        assert(n * d >= 0) by (nonlinear_arith)
            requires
                d > 0,
        ;
        wheel::law_clock_moves_to_the_slot_of_now(s.wheel, start);
        let k = mid.wheel.slot_index as int;
        assert(k >= i + n) by (nonlinear_arith)
            requires
                start < k * d + d,
                start >= i * d + n * d,
                d > 0,
        ;
        assert((i + n) * d <= start) by (nonlinear_arith)
            requires
                start >= i * d + n * d,
        ;
        wheel::law_slots_that_are_over_fire(s.wheel, start, n);
        assert(s.wheel.pending.take(n as int) =~= s.wheel.pending);
        assert forall|j: int| #![trigger mid.wheel.pending[j]] 0 <= j
            < mid.wheel.pending.len() implies mid.wheel.pending[j].len() == 0 by {
            assert(mid.wheel.pending[j] == Seq::<FofParams>::empty());
        }
        lemma_flatten_of_empties(mid.wheel.pending);
        wheel::law_only_a_full_slot_turns_away(mid.wheel, start);
        let w = mid.wheel.pending.len() as int;
        assert(w * d >= d) by (nonlinear_arith)
            requires
                w >= 1,
                d > 0,
        ;
        if s.wheel.slot_capacity > 0 {
            let slot = (start - k * d) / d;
            assert(mid.wheel.pending[slot].len() == 0);
            assert(mid.wheel.reject(start) is None);
            let j = mid.wheel.slot_offset(start);
            wheel::lemma_accepted_offset(mid.wheel, start);
            lemma_flatten_appended(mid.wheel.pending, j, params);
            assert(mid.wheel.pending.flatten().push(params) =~= seq![params]);
            assert(s.taking(params).wheel.pending.flatten() =~= seq![params]);
        }
        if mid.wheel.reject(start) is None {
            wheel::law_event_goes_to_the_slot_of_its_deadline(mid.wheel, params, start);
        }
    }
}

/// Grains are taken one after the other: taking some and then others is taking
/// all of them, none of them is none, and one is that one. What fires on the way
/// comes out in the same order.
pub proof fn law_grains_are_taken_one_by_one(
    s: ScheduleModel,
    first: Seq<FofParams>,
    more: Seq<FofParams>,
    params: FofParams,
)
    ensures
        s.taking_all(first + more) == s.taking_all(first).taking_all(more),
        s.fired_taking_all(first + more) == s.fired_taking_all(first) + s.taking_all(
            first,
        ).fired_taking_all(more),
        s.taking_all(Seq::empty()) == s,
        s.fired_taking_all(Seq::empty()).len() == 0,
        s.taking_all(seq![params]) == s.taking(params),
        s.fired_taking_all(seq![params]) == s.fired_taking(params),
    decreases more.len(),
{
    reveal_with_fuel(ScheduleModel::taking_all, 2);
    reveal_with_fuel(ScheduleModel::fired_taking_all, 2);
    assert(seq![params].drop_last() =~= Seq::<FofParams>::empty());
    assert(s.fired_taking_all(seq![params]) =~= s.fired_taking(params));
    if more.len() == 0 {
        assert(first + more =~= first);
        assert(s.fired_taking_all(first) + Seq::<FofParams>::empty() =~= s.fired_taking_all(first));
    } else {
        let fewer = more.drop_last();
        law_grains_are_taken_one_by_one(s, first, fewer, params);
        assert((first + more).drop_last() =~= first + fewer);
        assert((first + more).last() == more.last());
        assert(s.fired_taking_all(first + more) =~= s.fired_taking_all(first) + s.taking_all(
            first,
        ).fired_taking_all(more));
    }
}

/// A block takes its grains and then moves the clock to its end; what fires is
/// what fires on the way, in this order.
pub proof fn law_block_takes_and_advances(s: ScheduleModel, entries: Seq<FofParams>, end: int)
    ensures
        s.through(entries, end) == s.taking_all(entries).advanced(end),
        s.fired_through(entries, end) == s.fired_taking_all(entries) + s.taking_all(
            entries,
        ).wheel.fired(end),
        s.through(Seq::empty(), end) == s.advanced(end),
        s.fired_through(Seq::empty(), end) == s.wheel.fired(end),
{
    assert(s.fired_through(Seq::empty(), end) =~= s.wheel.fired(end));
}

/// Of the grains of a slot, those that start before a time and the others are
/// each all of their kind, in the order of the slot.
pub proof fn law_slot_is_parted_by_start(events: Seq<FofParams>, now: int)
    ensures
        starting_before(events, now) == events.filter(|p: FofParams| p.start_sample < now),
        starting_from(events, now) == events.filter(|p: FofParams| p.start_sample >= now),
        starting_before(events, now).len() + starting_from(events, now).len() == events.len(),
    decreases events.len(),
{
    reveal(Seq::filter);
    if events.len() > 0 {
        law_slot_is_parted_by_start(events.drop_last(), now);
    } else {
        assert(events.filter(|p: FofParams| p.start_sample < now) =~= events);
        assert(events.filter(|p: FofParams| p.start_sample >= now) =~= events);
    }
}

/// What is due at `now` are the grains of the current slot that start before it.
/// They leave the others of the slot behind, and every other slot as it is; no
/// count changes but that of the waiting grains.
pub proof fn law_due_grains_leave_the_current_slot(s: ScheduleModel, now: int)
    requires
        s.wf(),
    ensures
        ({
            let after = s.without_due(now);
            let current = s.wheel.pending[0];
            &&& s.due(now) == current.filter(|p: FofParams| p.start_sample < now)
            &&& after.wheel.pending[0] == current.filter(|p: FofParams| p.start_sample >= now)
            &&& after.wheel.pending.skip(1) == s.wheel.pending.skip(1)
            &&& after.wheel.slot_index == s.wheel.slot_index
            &&& after.wheel.slot_duration == s.wheel.slot_duration
            &&& after.wheel.slot_capacity == s.wheel.slot_capacity
            &&& after.stats.too_late == s.stats.too_late
            &&& after.stats.too_early == s.stats.too_early
            &&& after.stats.slot_full == s.stats.slot_full
            &&& after.stats.histogram == s.stats.histogram
            &&& after.wheel.pending.flatten().len() <= u64::MAX ==> after.stats.queue_size
                == after.wheel.pending.flatten().len()
        }),
{
    law_slot_is_parted_by_start(s.wheel.pending[0], now);
    wheel::law_current_slot_is_exchanged(s.wheel, starting_from(s.wheel.pending[0], now));
}

/// The grains in line that are ready are those before the first one that starts
/// at the limit or later.
pub proof fn law_line_is_taken_up_to_the_limit(waiting: Seq<FofParams>, limit: int)
    ensures
        ({
            let n = ready_count(waiting, limit);
            &&& n <= waiting.len()
            &&& n < waiting.len() ==> waiting[n as int].start_sample >= limit
            &&& forall|i: int|
                #![trigger waiting[i]]
                0 <= i < n ==> waiting[i].start_sample < limit
        }),
    decreases waiting.len(),
{
    if waiting.len() > 0 && waiting[0].start_sample < limit {
        let rest = waiting.drop_first();
        law_line_is_taken_up_to_the_limit(rest, limit);
        let n = ready_count(waiting, limit);
        assert forall|i: int| #![trigger waiting[i]] 0 <= i < n implies waiting[i].start_sample
            < limit by {
            if i > 0 {
                assert(rest[i - 1] == waiting[i]);
            }
        }
        if n < waiting.len() {
            assert(rest[n - 1] == waiting[n as int]);
        }
    }
}

/// The clock is moved to the end of the block, and only to the start of a grain
/// that is left for later if that comes before.
pub proof fn law_clock_waits_for_a_deferred_grain(deferred: Option<u64>, block_end: int)
    ensures
        reached(deferred, block_end) <= block_end,
        deferred matches Some(start) ==> reached(deferred, block_end) <= start,
        reached(deferred, block_end) == block_end || (deferred matches Some(start)
            && reached(deferred, block_end) == start),
{
}

/// A drain may take what is inside the window or before the end of the block,
/// whichever reaches further.
pub proof fn law_limit_is_the_further_end(s: ScheduleModel, block_end: int)
    ensures
        s.limit(block_end) >= block_end,
        s.limit(block_end) >= s.admit_before(),
        s.limit(block_end) == block_end || s.limit(block_end) == s.admit_before(),
{
}

/// A block fits if and only if neither its window nor the slot that it ends in
/// reaches past the end of time.
pub proof fn law_block_fits_within_time(s: ScheduleModel, block_end: int)
    ensures
        s.fits(block_end) <==> s.wheel.slot_index * s.wheel.slot_duration + s.wheel.pending.len()
            * s.wheel.slot_duration <= u64::MAX && s.wheel.can_advance(block_end),
{
}

/// Nothing is counted at first, for any slot.
pub proof fn law_counting_begins_at_zero(n_slots: nat, j: int)
    requires
        0 <= j < n_slots,
    ensures
        ({
            let z = StatsModel::zero(n_slots);
            &&& z.too_late == 0 && z.too_early == 0 && z.slot_full == 0 && z.queue_size == 0
            &&& z.histogram.len() == n_slots
            &&& z.histogram[j] == 0
        }),
{
}

proof fn lemma_total_bumped(counts: Seq<u64>, j: int)
    requires
        0 <= j < counts.len(),
        total(counts) < u64::MAX,
    ensures
        total(counts.update(j, bumped(counts[j]))) == total(counts) + 1,
    decreases counts.len(),
{
    let after = counts.update(j, bumped(counts[j]));
    let rest = counts.drop_last();
    if j == counts.len() - 1 {
        assert(after.drop_last() =~= rest);
    } else {
        lemma_total_bumped(rest, j);
        assert(after.drop_last() =~= rest.update(j, bumped(rest[j])));
    }
}

} // verus!
