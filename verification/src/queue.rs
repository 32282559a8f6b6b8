//! The queues that feed the engine: scheduled grains and kill requests.
//!
//! A grain goes through a ring ([`TimeWheelProducer`] to [`TimeWheelConsumer`])
//! and then through the consumer's [`Schedule`], a timing wheel with counters.
//! A kill request goes through a ring alone.
use crate::fof::{FofKillRequest, FofParams};
use crate::ring;
use crate::ring::{
    fof_peek,
    fof_pop,
    fof_push,
    fof_push_here,
    fof_ring,
    fof_see_sent,
    fof_slots,
    fof_slots_here,
    kill_pop,
    kill_push,
    kill_push_here,
    kill_ring,
    kill_see_sent,
};
use crate::schedule;
use crate::schedule::{QueueStats, Schedule, ScheduleModel, StatsModel};
use crate::wheel::WheelModel;
use vstd::prelude::*;

verus! {

// ---------------------------------------------------------------------------
// Scheduled grains
// ---------------------------------------------------------------------------

/// Producer handle for a wheel-backed FOF schedule.
///
/// Feeds a lock-free ring, which the paired [`TimeWheelConsumer`] drains into
/// its wheel as its clock advances. `FofParams` are to be submitted in
/// non-decreasing `start_sample` order: the consumer stops draining as soon as
/// it sees an entry beyond its current window.
pub struct TimeWheelProducer {
    tx: rtrb::Producer<FofParams>,
}

/// Consumer handle for a wheel-backed FOF schedule, owned by the audio thread.
pub struct TimeWheelConsumer {
    rx: rtrb::Consumer<FofParams>,
    schedule: Schedule,
}

/// Create a matched producer/consumer pair.
///
/// - `ingress_capacity`: capacity of the ring that carries raw `FofParams`
///   from the producer thread to the consumer.
/// - `n_slots` / `slot_duration` / `slot_capacity`: the wheel's slot count,
///   slot length (samples) and events per slot.
pub fn time_wheel(
    ingress_capacity: usize,
    n_slots: usize,
    slot_duration: u64,
    slot_capacity: usize,
) -> (r: (TimeWheelProducer, TimeWheelConsumer))
    requires
        ingress_capacity * 64 <= isize::MAX,
        n_slots > 0,
        slot_duration > 0,
    ensures
        r.0.wf(),
        r.0.log() == r.1.log(),
        r.0.sent() == 0,
        r.0.capacity() == ingress_capacity,
        r.0.freed() == 0,
        r.0.looks() == 0,
        r.1.wf(),
        r.1.taken() == 0,
        r.1.seen() == 0,
        r.1.looks() == 0,
        one_ring(r.0, r.1),
        r.1@ == (ScheduleModel {
            wheel: WheelModel {
                slot_index: 0,
                slot_duration: slot_duration as nat,
                slot_capacity: slot_capacity as nat,
                pending: Seq::new(n_slots as nat, |j: int| Seq::empty()),
            },
            stats: StatsModel::zero(n_slots as nat),
        }),
{
    let (tx, rx) = fof_ring(ingress_capacity);
    (
        TimeWheelProducer { tx },
        TimeWheelConsumer { rx, schedule: Schedule::new(n_slots, slot_duration, slot_capacity) },
    )
}

impl TimeWheelProducer {
    /// All grains that the ring ever accepts, in order.
    pub closed spec fn log(&self) -> Seq<FofParams> {
        ring::fof_tx_log(self.tx)
    }

    /// How many grains the ring has accepted so far.
    pub closed spec fn sent(&self) -> nat {
        ring::fof_tx_sent(self.tx)
    }

    /// How many grains the ring holds at most.
    pub closed spec fn capacity(&self) -> nat {
        ring::fof_tx_capacity(self.tx)
    }

    /// How many grains the producer has seen taken out of the ring.
    pub closed spec fn freed(&self) -> nat {
        ring::fof_tx_freed(self.tx)
    }

    /// How often the producer has looked how many were taken.
    pub closed spec fn looks(&self) -> nat {
        ring::fof_tx_looks(self.tx)
    }

    /// What has been accepted is a first part of the log, and what has been
    /// seen taken was accepted.
    pub open spec fn wf(&self) -> bool {
        self.freed() <= self.sent() <= self.log().len()
    }

    /// Enqueue a FOF for scheduling. Returns `Err(params)` if the ring is full:
    /// if, after a look at how many grains were taken, as many are not taken as
    /// the ring holds.
    pub fn push(&mut self, params: FofParams) -> (r: Result<(), FofParams>)
        requires
            old(self).wf(),
        ensures
            final(self).wf(),
            final(self).log() == old(self).log(),
            final(self).capacity() == old(self).capacity(),
            final(self).freed() >= old(self).freed(),
            final(self).looks() >= old(self).looks(),
            r is Ok ==> final(self).sent() == old(self).sent() + 1 && final(self).log()[old(
                self,
            ).sent() as int] == params,
            r matches Err(back) ==> back == params && final(self).sent() == old(self).sent(),
            r is Err ==> final(self).looks() > old(self).looks() && final(self).sent()
                - final(self).freed() == final(self).capacity(),
            old(self).sent() - old(self).freed() < old(self).capacity() ==> r is Ok,
            old(self).capacity() == 0 ==> r is Err,
            forall|rx: TimeWheelConsumer|
                #![trigger one_ring(*final(self), rx)]
                one_ring(*final(self), rx) == one_ring(*old(self), rx),
    {
        fof_push(&mut self.tx, params)
    }

    /// As [`TimeWheelProducer::push`], with the consumer at hand: the ring is
    /// full exactly if as many grains are not taken as it holds.
    pub fn push_here(&mut self, params: FofParams, rx: &TimeWheelConsumer) -> (r: Result<
        (),
        FofParams,
    >)
        requires
            old(self).wf(),
            one_ring(*old(self), *rx),
        ensures
            final(self).wf(),
            final(self).log() == old(self).log(),
            final(self).capacity() == old(self).capacity(),
            r is Ok ==> final(self).sent() == old(self).sent() + 1 && final(self).log()[old(
                self,
            ).sent() as int] == params,
            r matches Err(back) ==> back == params && final(self).sent() == old(self).sent(),
            r is Ok <==> old(self).sent() - rx.taken() < old(self).capacity(),
            r is Ok ==> rx.taken() < final(self).sent(),
            r is Err ==> rx.taken() <= final(self).sent(),
            forall|other: TimeWheelConsumer|
                #![trigger one_ring(*final(self), other)]
                one_ring(*final(self), other) == one_ring(*old(self), other),
    {
        fof_push_here(&mut self.tx, params, &rx.rx)
    }

    /// Available write slots: at most the capacity, and at least what is left
    /// besides the grains that were not seen taken.
    pub fn slots_available(&self) -> (n: usize)
        ensures
            n <= self.capacity(),
            n + self.sent() >= self.capacity() + self.freed(),
    {
        fof_slots(&self.tx)
    }

    /// As [`TimeWheelProducer::slots_available`], with the consumer at hand:
    /// exactly what the grains that were sent and not taken leave of the
    /// capacity.
    pub fn slots_available_here(&self, rx: &TimeWheelConsumer) -> (n: usize)
        requires
            one_ring(*self, *rx),
        ensures
            n + self.sent() == self.capacity() + rx.taken(),
    {
        fof_slots_here(&self.tx, &rx.rx)
    }
}

/// The two are the ends of one ring.
pub closed spec fn one_ring(tx: TimeWheelProducer, rx: TimeWheelConsumer) -> bool {
    ring::fof_one_ring(tx.tx, rx.rx)
}

impl View for TimeWheelConsumer {
    type V = ScheduleModel;

    closed spec fn view(&self) -> ScheduleModel {
        self.schedule@
    }
}

/// What a drain takes out of the ring: `entries`, which are next in the log. It
/// stops at one that starts at `limit` or later, or, if none of those seen does,
/// where a look found no more.
pub open spec fn took(
    before: TimeWheelConsumer,
    after: TimeWheelConsumer,
    entries: Seq<FofParams>,
    limit: int,
) -> bool {
    &&& after.log() == before.log()
    &&& before.taken() <= after.taken() <= after.seen() <= before.log().len()
    &&& before.seen() <= after.seen()
    &&& before.looks() <= after.looks()
    &&& entries == before.log().subrange(before.taken() as int, after.taken() as int)
    &&& (after.seen() == after.taken() && after.looks() > before.looks()) || (after.taken()
        < after.seen() && after.log()[after.taken() as int].start_sample >= limit)
    &&& forall|tx: TimeWheelProducer|
        #![trigger one_ring(tx, after)]
        one_ring(tx, after) == one_ring(tx, before)
}

/// The start of the next grain in the ring, if the consumer has seen one.
pub open spec fn deferred_start(rx: TimeWheelConsumer) -> Option<u64> {
    if rx.taken() < rx.seen() {
        Some(rx.log()[rx.taken() as int].start_sample)
    } else {
        None
    }
}

/// What a drain of the schedule up to `block_end` does: `entries`, all of them
/// inside the window, go into the wheel in order, and then its clock moves to
/// the end of the block. What is beyond the window stays in the ring, and the
/// clock does not move past it.
pub open spec fn drained(
    before: TimeWheelConsumer,
    after: TimeWheelConsumer,
    entries: Seq<FofParams>,
    block_end: int,
) -> bool {
    &&& took(before, after, entries, before@.admit_before())
    &&& forall|i: int|
        #![trigger entries[i]]
        0 <= i < entries.len() ==> entries[i].start_sample < before@.admit_before()
    &&& after@ == before@.through(entries, schedule::reached(deferred_start(after), block_end))
}

/// What a drain that takes all that is due does: `entries`, each of them inside
/// the window or before the end of the block, go into the wheel in order, its
/// clock moving on for one that is beyond the window, and then the clock moves
/// to the end of the block. The grains of the current slot that start before
/// then are taken out too.
pub open spec fn drained_due(
    before: TimeWheelConsumer,
    after: TimeWheelConsumer,
    entries: Seq<FofParams>,
    block_end: int,
) -> bool {
    &&& took(before, after, entries, before@.taking_all(entries).limit(block_end))
    &&& schedule::admissible(before@, entries, block_end)
    &&& after@ == before@.through(entries, block_end).without_due(block_end)
}

impl TimeWheelConsumer {
    /// All grains that the ring ever accepts, in order.
    pub closed spec fn log(&self) -> Seq<FofParams> {
        ring::fof_rx_log(self.rx)
    }

    /// How many grains have been taken out of the ring so far.
    pub closed spec fn taken(&self) -> nat {
        ring::fof_rx_taken(self.rx)
    }

    /// How many grains the consumer has seen written so far, taken or not.
    pub closed spec fn seen(&self) -> nat {
        ring::fof_rx_seen(self.rx)
    }

    /// How often the consumer has looked how many were written.
    pub closed spec fn looks(&self) -> nat {
        ring::fof_rx_looks(self.rx)
    }

    /// The schedule is in order, what has been taken is a first part of what
    /// has been seen, and that is a first part of the log.
    pub open spec fn wf(&self) -> bool {
        &&& self.taken() <= self.seen() <= self.log().len()
        &&& self@.wf()
        &&& self@.in_place()
        &&& self@.wheel.wheel_time() + self@.wheel.slot_duration <= u64::MAX
    }

    /// The counters.
    pub fn stats(&self) -> (stats: &QueueStats)
        ensures
            stats@ == self@.stats,
    {
        self.schedule.stats()
    }

    /// Whether the times that a block ending at `block_end` involves are
    /// representable.
    pub fn fits(&self, block_end: u64) -> (b: bool)
        requires
            self.wf(),
        ensures
            b == self@.fits(block_end as int),
    {
        self.schedule.fits(block_end)
    }

    /// Look, with the producer at hand, how many grains were written.
    pub fn look(&mut self, tx: &TimeWheelProducer)
        requires
            old(self).wf(),
            one_ring(*tx, *old(self)),
        ensures
            final(self).wf(),
            final(self)@ == old(self)@,
            final(self).log() == old(self).log(),
            final(self).taken() == old(self).taken(),
            final(self).seen() == tx.sent(),
            final(self).seen() >= old(self).seen(),
            final(self).looks() > old(self).looks(),
            forall|other: TimeWheelProducer|
                #![trigger one_ring(other, *final(self))]
                one_ring(other, *final(self)) == one_ring(other, *old(self)),
    {
        let _ = fof_see_sent(&tx.tx, &mut self.rx);
    }

    /// Take entries from the ring into the wheel as long as they are inside the
    /// window or start before `end`; where one is beyond the window, advance the
    /// clock as far as it needs, appending every FOF fired along the way to
    /// `out`. Says when the entry starts that this stopped at.
    fn take_ready(&mut self, end: u64, out: &mut Vec<FofParams>) -> (deferred: Option<u64>)
        requires
            old(self).wf(),
            old(self)@.fits(end as int),
        ensures
            final(self).wf(),
            ({
                let entries = old(self).log().subrange(
                    old(self).taken() as int,
                    final(self).taken() as int,
                );
                &&& took(
                    *old(self),
                    *final(self),
                    entries,
                    old(self)@.taking_all(entries).limit(end as int),
                )
                &&& schedule::admissible(old(self)@, entries, end as int)
                &&& final(self)@ == old(self)@.taking_all(entries)
                &&& final(out)@ == old(out)@ + old(self)@.fired_taking_all(entries)
            }),
            deferred == deferred_start(*final(self)),
    {
        let ghost log = self.log();
        let ghost from = self.taken() as int;
        let ghost start = self@;
        let ghost out0 = out@;
        let ghost before = *self;
        let mut more: bool = true;
        let mut deferred: Option<u64> = None;
        proof {
            assert(log.subrange(from, from) =~= Seq::empty());
            assert(out0 + start.fired_taking_all(log.subrange(from, from)) =~= out0);
        }
        while more
            invariant
                self.schedule.wf(),
                start.wf(),
                start.in_place(),
                start.fits(end as int),
                before == *old(self),
                self.log() == log,
                0 <= from <= self.taken() <= self.seen() <= log.len(),
                before.seen() <= self.seen(),
                before.looks() <= self.looks(),
                more ==> deferred is None,
                !more ==> deferred == deferred_start(*self),
                !more ==> (self.seen() == self.taken() && self.looks() > before.looks()) || (
                self.taken() < self.seen() && log[self.taken() as int].start_sample >= self@.limit(
                    end as int,
                )),
                self@ == start.taking_all(log.subrange(from, self.taken() as int)),
                out@ == out0 + start.fired_taking_all(log.subrange(from, self.taken() as int)),
                schedule::admissible(start, log.subrange(from, self.taken() as int), end as int),
                forall|tx: TimeWheelProducer|
                    #![trigger one_ring(tx, *self)]
                    one_ring(tx, *self) == one_ring(tx, before),
            decreases
                log.len() - self.taken(),
                if more {
                    1int
                } else {
                    0int
                },
        {
            let ghost at = self.taken() as int;
            let ghost step = *self;
            let ghost done = log.subrange(from, at);
            proof {
                schedule::lemma_taking_all_keeps(start, done);
                schedule::lemma_taking_all_stops(start, done, end as int);
            }
            match fof_peek(&mut self.rx) {
                Some(params) => {
                    if params.start_sample < end || self.schedule.is_inside(params.start_sample) {
                        match fof_pop(&mut self.rx) {
                            Some(taken) => {
                                proof {
                                    schedule::lemma_can_take(self@, start, taken, end as int);
                                    assert(log.subrange(from, at + 1).drop_last() =~= done);
                                    assert(schedule::admissible(
                                        start,
                                        log.subrange(from, at + 1),
                                        end as int,
                                    ));
                                }
                                self.schedule.take(taken, out);
                                proof {
                                    assert(out@ =~= out0 + start.fired_taking_all(
                                        log.subrange(from, at + 1),
                                    ));
                                }
                            },
                            None => {
                                more = false;
                            },
                        }
                    } else {
                        deferred = Some(params.start_sample);
                        more = false;
                    }
                },
                None => {
                    more = false;
                },
            }
            proof {
                assert forall|tx: TimeWheelProducer|
                    #![trigger one_ring(tx, *self)]
                    one_ring(tx, *self) == one_ring(tx, before) by {
                    assert(one_ring(tx, step) == one_ring(tx, before));
                }
            }
        }
        deferred
    }

    /// Take ready entries from the ring into the wheel, then advance the
    /// wheel's clock to `block_start + block_size`, appending every FOF fired
    /// along the way to `out`.
    ///
    /// An entry is ready once its `start_sample` falls within the wheel's
    /// current window. Entries still further out are left in the ring for a
    /// later call: draining stops at the first of them, and the clock does not
    /// advance past it, so that it is in time then.
    pub fn drain_block_safe(&mut self, block_start: u64, block_size: u64, out: &mut Vec<FofParams>)
        requires
            old(self).wf(),
            block_start + block_size <= u64::MAX,
            old(self)@.fits(block_start + block_size),
        ensures
            final(self).wf(),
            ({
                let entries = old(self).log().subrange(
                    old(self).taken() as int,
                    final(self).taken() as int,
                );
                let block_end = block_start + block_size;
                &&& drained(*old(self), *final(self), entries, block_end)
                &&& final(out)@ == old(out)@ + old(self)@.fired_through(
                    entries,
                    schedule::reached(deferred_start(*final(self)), block_end),
                )
            }),
            final(self)@.stats.too_early == old(self)@.stats.too_early,
    {
        let ghost before = *self;
        let ghost out0 = out@;
        let block_end: u64 = block_start + block_size;
        proof {
            schedule::lemma_can_advance_less(self@, 0, block_end as int);
        }
        let deferred: Option<u64> = self.take_ready(0, out);
        let ghost mid = *self;
        let ghost entries = before.log().subrange(before.taken() as int, self.taken() as int);
        proof {
            schedule::lemma_inside_the_window(before@, entries);
            schedule::lemma_taking_all_keeps(before@, entries);
            schedule::lemma_window_stays(before@, entries);
            schedule::law_taken_grains_are_not_too_early(before@, entries);
        }
        let now: u64 = match deferred {
            Some(start) => if start < block_end {
                start
            } else {
                block_end
            },
            None => block_end,
        };
        proof {
            schedule::lemma_can_advance_less(self@, now as int, block_end as int);
        }
        self.schedule.fire(now, out);
        proof {
            assert forall|tx: TimeWheelProducer|
                #![trigger one_ring(tx, *self)]
                one_ring(tx, *self) == one_ring(tx, before) by {
                assert(one_ring(tx, mid) == one_ring(tx, before));
            }
            assert(out@ =~= out0 + before@.fired_through(entries, now as int));
        }
    }

    /// Take all that is due before `block_start + block_size`, as the engine
    /// needs it: as [`TimeWheelConsumer::drain_block_safe`], but
    ///
    /// - where the block reaches beyond the window, admitting and advancing in
    ///   turns until the block's end, and
    /// - taking also the FOFs of the current slot that start before the block's
    ///   end, so that none that starts in the block is left behind when the
    ///   block ends inside a slot.
    pub fn drain_block_due(&mut self, block_start: u64, block_size: u64, out: &mut Vec<FofParams>)
        requires
            old(self).wf(),
            block_start + block_size <= u64::MAX,
            old(self)@.fits(block_start + block_size),
        ensures
            final(self).wf(),
            ({
                let entries = old(self).log().subrange(
                    old(self).taken() as int,
                    final(self).taken() as int,
                );
                let block_end = block_start + block_size;
                &&& drained_due(*old(self), *final(self), entries, block_end)
                &&& final(out)@ == old(out)@ + old(self)@.fired_through(entries, block_end)
                    + old(self)@.through(entries, block_end).due(block_end)
            }),
            final(self)@.stats.too_early == old(self)@.stats.too_early,
    {
        let ghost before = *self;
        let ghost out0 = out@;
        let block_end: u64 = block_start + block_size;
        let _ = self.take_ready(block_end, out);
        let ghost mid = *self;
        let ghost entries = before.log().subrange(before.taken() as int, self.taken() as int);
        proof {
            schedule::lemma_taking_all_keeps(before@, entries);
            schedule::lemma_taking_all_stops(before@, entries, block_end as int);
            schedule::law_taken_grains_are_not_too_early(before@, entries);
        }
        self.schedule.fire(block_end, out);
        proof {
            assert(out@ =~= out0 + before@.fired_through(entries, block_end as int));
        }
        self.schedule.fire_due(block_end, out);
        proof {
            assert forall|tx: TimeWheelProducer|
                #![trigger one_ring(tx, *self)]
                one_ring(tx, *self) == one_ring(tx, before) by {
                assert(one_ring(tx, mid) == one_ring(tx, before));
            }
        }
    }
}

/// What a drain takes is, entry by entry, what the producer has sent: where the
/// producer had sent all of it by some time, it is the part of what was sent
/// that follows what was taken before.
pub proof fn law_grains_arrive_in_order(
    tx: TimeWheelProducer,
    before: TimeWheelConsumer,
    after: TimeWheelConsumer,
    entries: Seq<FofParams>,
    limit: int,
)
    requires
        tx.wf(),
        tx.log() == before.log(),
        took(before, after, entries, limit),
        after.taken() <= tx.sent(),
    ensures
        entries == tx.log().take(tx.sent() as int).subrange(
            before.taken() as int,
            after.taken() as int,
        ),
{
    assert(entries =~= tx.log().take(tx.sent() as int).subrange(
        before.taken() as int,
        after.taken() as int,
    ));
}

// ---------------------------------------------------------------------------
// Kill queue
// ---------------------------------------------------------------------------

/// Producer handle of the kill queue.
pub struct KillQueueProducer {
    tx: rtrb::Producer<FofKillRequest>,
}

/// Consumer handle of the kill queue.
pub struct KillQueueConsumer {
    rx: rtrb::Consumer<FofKillRequest>,
}

/// Create a matched producer/consumer pair.
pub fn kill_queue(capacity: usize) -> (r: (KillQueueProducer, KillQueueConsumer))
    requires
        capacity * 16 <= isize::MAX,
    ensures
        r.0.wf(),
        r.0.log() == r.1.log(),
        r.0.sent() == 0,
        r.0.capacity() == capacity,
        r.0.freed() == 0,
        r.0.looks() == 0,
        r.1.wf(),
        r.1.taken() == 0,
        r.1.seen() == 0,
        r.1.looks() == 0,
        one_kill_ring(r.0, r.1),
{
    let (tx, rx) = kill_ring(capacity);
    (KillQueueProducer { tx }, KillQueueConsumer { rx })
}

impl KillQueueProducer {
    /// All kill requests that the ring ever accepts, in order.
    pub closed spec fn log(&self) -> Seq<FofKillRequest> {
        ring::kill_tx_log(self.tx)
    }

    /// How many kill requests the ring has accepted so far.
    pub closed spec fn sent(&self) -> nat {
        ring::kill_tx_sent(self.tx)
    }

    /// How many kill requests the ring holds at most.
    pub closed spec fn capacity(&self) -> nat {
        ring::kill_tx_capacity(self.tx)
    }

    /// How many kill requests the producer has seen taken out of the ring.
    pub closed spec fn freed(&self) -> nat {
        ring::kill_tx_freed(self.tx)
    }

    /// How often the producer has looked how many were taken.
    pub closed spec fn looks(&self) -> nat {
        ring::kill_tx_looks(self.tx)
    }

    /// What has been accepted is a first part of the log, and what has been
    /// seen taken was accepted.
    pub open spec fn wf(&self) -> bool {
        self.freed() <= self.sent() <= self.log().len()
    }

    /// Enqueue a kill request. Returns it as `Err` if the ring is full: if,
    /// after a look at how many requests were taken, as many are not taken as
    /// the ring holds.
    pub fn push(&mut self, req: FofKillRequest) -> (r: Result<(), FofKillRequest>)
        requires
            old(self).wf(),
        ensures
            final(self).wf(),
            final(self).log() == old(self).log(),
            final(self).capacity() == old(self).capacity(),
            r is Ok ==> final(self).sent() == old(self).sent() + 1 && final(self).log()[old(
                self,
            ).sent() as int] == req,
            r matches Err(back) ==> back == req && final(self).sent() == old(self).sent(),
            final(self).freed() >= old(self).freed(),
            final(self).looks() >= old(self).looks(),
            r is Err ==> final(self).looks() > old(self).looks() && final(self).sent()
                - final(self).freed() == final(self).capacity(),
            old(self).sent() - old(self).freed() < old(self).capacity() ==> r is Ok,
            old(self).capacity() == 0 ==> r is Err,
            forall|rx: KillQueueConsumer|
                #![trigger one_kill_ring(*final(self), rx)]
                one_kill_ring(*final(self), rx) == one_kill_ring(*old(self), rx),
    {
        kill_push(&mut self.tx, req)
    }

    /// As [`KillQueueProducer::push`], with the consumer at hand: the ring is
    /// full exactly if as many requests are not taken as it holds.
    pub fn push_here(&mut self, req: FofKillRequest, rx: &KillQueueConsumer) -> (r: Result<
        (),
        FofKillRequest,
    >)
        requires
            old(self).wf(),
            one_kill_ring(*old(self), *rx),
        ensures
            final(self).wf(),
            final(self).log() == old(self).log(),
            final(self).capacity() == old(self).capacity(),
            r is Ok ==> final(self).sent() == old(self).sent() + 1 && final(self).log()[old(
                self,
            ).sent() as int] == req,
            r matches Err(back) ==> back == req && final(self).sent() == old(self).sent(),
            r is Ok <==> old(self).sent() - rx.taken() < old(self).capacity(),
            r is Ok ==> rx.taken() < final(self).sent(),
            r is Err ==> rx.taken() <= final(self).sent(),
            forall|other: KillQueueConsumer|
                #![trigger one_kill_ring(*final(self), other)]
                one_kill_ring(*final(self), other) == one_kill_ring(*old(self), other),
    {
        kill_push_here(&mut self.tx, req, &rx.rx)
    }
}

/// The two are the ends of one kill queue.
pub closed spec fn one_kill_ring(tx: KillQueueProducer, rx: KillQueueConsumer) -> bool {
    ring::kill_one_ring(tx.tx, rx.rx)
}

impl KillQueueConsumer {
    /// All kill requests that the ring ever accepts, in order.
    pub closed spec fn log(&self) -> Seq<FofKillRequest> {
        ring::kill_rx_log(self.rx)
    }

    /// How many kill requests have been taken out of the ring so far.
    pub closed spec fn taken(&self) -> nat {
        ring::kill_rx_taken(self.rx)
    }

    /// How many kill requests the consumer has seen written so far, taken or
    /// not.
    pub closed spec fn seen(&self) -> nat {
        ring::kill_rx_seen(self.rx)
    }

    /// How often the consumer has looked how many were written.
    pub closed spec fn looks(&self) -> nat {
        ring::kill_rx_looks(self.rx)
    }

    /// What has been taken is a first part of what has been seen, and that is
    /// a first part of the log.
    pub open spec fn wf(&self) -> bool {
        self.taken() <= self.seen() <= self.log().len()
    }

    /// Drain all pending kill requests into `out`: whatever the consumer has
    /// seen written before or sees on the way, until it looks and finds no
    /// more.
    pub fn drain_all(&mut self, out: &mut Vec<FofKillRequest>)
        requires
            old(self).wf(),
        ensures
            final(self).wf(),
            final(self).log() == old(self).log(),
            final(self).taken() >= old(self).seen(),
            final(self).seen() == final(self).taken(),
            final(self).looks() > old(self).looks(),
            final(out)@ == old(out)@ + old(self).log().subrange(
                old(self).taken() as int,
                final(self).taken() as int,
            ),
            forall|tx: KillQueueProducer|
                #![trigger one_kill_ring(tx, *final(self))]
                one_kill_ring(tx, *final(self)) == one_kill_ring(tx, *old(self)),
    {
        let ghost log = self.log();
        let ghost from = self.taken() as int;
        let ghost out0 = out@;
        let mut more: bool = true;
        proof {
            assert(out0 + log.subrange(from, from) =~= out0);
        }
        while more
            invariant
                self.log() == log,
                0 <= from <= self.taken() <= self.seen() <= log.len(),
                self.seen() >= old(self).seen(),
                self.looks() >= old(self).looks(),
                !more ==> self.seen() == self.taken() && self.looks() > old(self).looks(),
                out@ == out0 + log.subrange(from, self.taken() as int),
                forall|tx: KillQueueProducer|
                    #![trigger one_kill_ring(tx, *self)]
                    one_kill_ring(tx, *self) == one_kill_ring(tx, *old(self)),
            decreases
                log.len() - self.taken(),
                if more {
                    1int
                } else {
                    0int
                },
        {
            let ghost at = self.taken() as int;
            let ghost step = *self;
            match kill_pop(&mut self.rx) {
                Some(req) => {
                    out.push(req);
                    proof {
                        assert(out@ =~= out0 + log.subrange(from, at + 1));
                    }
                },
                None => {
                    more = false;
                },
            }
            proof {
                assert forall|tx: KillQueueProducer|
                    #![trigger one_kill_ring(tx, *self)]
                    one_kill_ring(tx, *self) == one_kill_ring(tx, *old(self)) by {
                    assert(one_kill_ring(tx, step) == one_kill_ring(tx, *old(self)));
                }
            }
        }
    }

    /// Look, with the producer at hand, how many kill requests were written.
    pub fn look(&mut self, tx: &KillQueueProducer)
        requires
            old(self).wf(),
            one_kill_ring(*tx, *old(self)),
        ensures
            final(self).wf(),
            final(self).log() == old(self).log(),
            final(self).taken() == old(self).taken(),
            final(self).seen() == tx.sent(),
            final(self).seen() >= old(self).seen(),
            final(self).looks() > old(self).looks(),
            forall|other: KillQueueProducer|
                #![trigger one_kill_ring(other, *final(self))]
                one_kill_ring(other, *final(self)) == one_kill_ring(other, *old(self)),
    {
        let _ = kill_see_sent(&tx.tx, &mut self.rx);
    }

    /// As [`KillQueueConsumer::drain_all`], with the producer at hand: exactly
    /// what was sent and not taken before.
    pub fn drain_all_here(&mut self, tx: &KillQueueProducer, out: &mut Vec<FofKillRequest>)
        requires
            old(self).wf(),
            one_kill_ring(*tx, *old(self)),
        ensures
            final(self).wf(),
            final(self).log() == old(self).log(),
            final(self).taken() == tx.sent(),
            final(self).seen() == tx.sent(),
            final(self).looks() > old(self).looks(),
            final(out)@ == old(out)@ + old(self).log().subrange(
                old(self).taken() as int,
                tx.sent() as int,
            ),
            forall|other: KillQueueProducer|
                #![trigger one_kill_ring(other, *final(self))]
                one_kill_ring(other, *final(self)) == one_kill_ring(other, *old(self)),
    {
        let ghost log = self.log();
        let ghost from = self.taken() as int;
        let ghost out0 = out@;
        let n: usize = kill_see_sent(&tx.tx, &mut self.rx);
        let mut i: usize = 0;
        proof {
            assert(out0 + log.subrange(from, from) =~= out0);
        }
        while i < n
            invariant
                i <= n,
                0 <= from,
                self.log() == log,
                from + n == tx.sent(),
                self.taken() == from + i,
                self.seen() == tx.sent(),
                tx.sent() <= log.len(),
                self.looks() > old(self).looks(),
                out@ == out0 + log.subrange(from, from + i),
                forall|other: KillQueueProducer|
                    #![trigger one_kill_ring(other, *self)]
                    one_kill_ring(other, *self) == one_kill_ring(other, *old(self)),
            decreases n - i,
        {
            let ghost step = *self;
            if let Some(req) = kill_pop(&mut self.rx) {
                out.push(req);
            }
            proof {
                assert(out@ =~= out0 + log.subrange(from, from + i + 1));
                assert forall|other: KillQueueProducer|
                    #![trigger one_kill_ring(other, *self)]
                    one_kill_ring(other, *self) == one_kill_ring(other, *old(self)) by {
                    assert(one_kill_ring(other, step) == one_kill_ring(other, *old(self)));
                }
            }
            i = i + 1;
        }
    }
}

/// What was sent when the consumer last looked is drained: a drain appends all
/// of it that was not taken before, in the order in which it was sent, in front
/// of what it sees on the way.
pub proof fn law_kills_sent_are_drained(
    tx: KillQueueProducer,
    before: KillQueueConsumer,
    after: KillQueueConsumer,
    appended: Seq<FofKillRequest>,
)
    requires
        tx.wf(),
        before.wf(),
        after.wf(),
        tx.log() == before.log(),
        after.log() == before.log(),
        tx.sent() <= before.seen() <= after.taken(),
        appended == before.log().subrange(before.taken() as int, after.taken() as int),
    ensures
        after.taken() >= tx.sent(),
        before.taken() <= tx.sent() ==> {
            let pending = tx.log().take(tx.sent() as int).skip(before.taken() as int);
            &&& pending.len() <= appended.len()
            &&& appended.take(pending.len() as int) == pending
        },
{
    if before.taken() <= tx.sent() {
        let pending = tx.log().take(tx.sent() as int).skip(before.taken() as int);
        assert(appended.take(pending.len() as int) =~= pending);
    }
}

/// What a drain appends is, request by request, what the producer has sent:
/// where the producer had sent all of it by some time, it is the part of what
/// was sent that follows what was taken before.
pub proof fn law_kills_arrive_in_order(
    tx: KillQueueProducer,
    before: KillQueueConsumer,
    after: KillQueueConsumer,
    appended: Seq<FofKillRequest>,
)
    requires
        tx.wf(),
        tx.log() == before.log(),
        before.taken() <= after.taken() <= tx.sent(),
        appended == before.log().subrange(before.taken() as int, after.taken() as int),
    ensures
        appended == tx.log().take(tx.sent() as int).subrange(
            before.taken() as int,
            after.taken() as int,
        ),
{
    assert(appended =~= tx.log().take(tx.sent() as int).subrange(
        before.taken() as int,
        after.taken() as int,
    ));
}

} // verus!
