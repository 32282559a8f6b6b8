//! The audio-thread engine: which grains sound, and which samples of them.
//!
//! Once per block the engine takes in what the queues hold, promotes the
//! grains that are due, applies kills, plays every active grain and drops the
//! ones that died. What it hands out is a plan of the block: for each grain,
//! the stretches of samples in each phase. Turning the plan into sound is the
//! caller's.
use crate::fof::{FofKillRequest, FofParams, FofPhase, FofState, FofTiming};
use crate::pan::PanMode;
use crate::pool;
use crate::pool::{pool_get, pool_insert, pool_keys, pool_len, pool_new, pool_remove, pool_set};
use crate::queue::{KillQueueConsumer, KillQueueProducer, TimeWheelConsumer, TimeWheelProducer};
use crate::runs::FofRuns;
use crate::schedule::QueueStats;
use std::collections::HashMap;
use vstd::prelude::*;

verus! {

broadcast use vstd::std_specs::hash::group_hash_axioms;

/// One grain's part in a block.
pub struct GrainBlock {
    /// The grain's key in the pool.
    pub key: usize,
    /// The grain after the block.
    pub grain: FofState,
    /// The stretches of the block that it sounds in.
    pub runs: FofRuns,
}

/// The grains of an engine and its clock.
#[verifier::ext_equal]
pub struct EngineModel {
    /// Start of the next block.
    pub clock: u64,
    /// Active grains, by pool key.
    pub grains: Map<usize, FofState>,
    /// Pool keys of the grains that can be killed, by grain id.
    pub ids: Map<u64, usize>,
}

impl EngineModel {
    /// Every tracked id leads to an active grain with that id, and 0 is not
    /// tracked.
    pub open spec fn wf(self) -> bool {
        &&& self.grains.dom().finite()
        &&& forall|id: u64|
            #![trigger self.ids.contains_key(id)]
            self.ids.contains_key(id) ==> id != 0 && self.grains.contains_key(self.ids[id])
                && self.grains[self.ids[id]].params.id == id
    }

    /// The engine with one more grain.
    pub open spec fn with_grain(
        self,
        params: FofParams,
        timing: FofTiming,
        key: usize,
    ) -> EngineModel {
        EngineModel {
            grains: self.grains.insert(key, FofState::spawned(params, timing)),
            ids: if params.id != 0 {
                self.ids.insert(params.id, key)
            } else {
                self.ids
            },
            ..self
        }
    }

    /// The engine with more grains, promoted in order.
    pub open spec fn with_grains(
        self,
        incoming: Seq<FofParams>,
        timings: Seq<FofTiming>,
        keys: Seq<usize>,
    ) -> EngineModel
        decreases incoming.len(),
    {
        if incoming.len() == 0 {
            self
        } else {
            self.with_grains(incoming.drop_last(), timings.drop_last(), keys.drop_last()).with_grain(
                incoming.last(),
                timings.last(),
                keys.last(),
            )
        }
    }

    /// No two of the keys are the same and none is in use.
    pub open spec fn vacant(self, keys: Seq<usize>) -> bool {
        &&& keys.no_duplicates()
        &&& forall|i: int|
            #![trigger keys[i]]
            0 <= i < keys.len() ==> !self.grains.contains_key(keys[i])
    }

    /// The engine after a kill request. One for an id that is not tracked is
    /// ignored.
    pub open spec fn with_kill(self, req: FofKillRequest, fade_len: u32) -> EngineModel {
        if self.ids.contains_key(req.id) {
            let key = self.ids[req.id];
            EngineModel {
                grains: self.grains.insert(
                    key,
                    self.grains[key].killed(req.fade_dur, fade_len),
                ),
                ..self
            }
        } else {
            self
        }
    }

    /// The engine after kill requests, in order.
    pub open spec fn with_kills(
        self,
        requests: Seq<FofKillRequest>,
        fade_lens: Seq<u32>,
    ) -> EngineModel
        decreases requests.len(),
    {
        if requests.len() == 0 {
            self
        } else {
            self.with_kills(requests.drop_last(), fade_lens.drop_last()).with_kill(
                requests.last(),
                fade_lens.last(),
            )
        }
    }

    /// The engine with every grain played for a block.
    pub open spec fn played(self, block_size: int) -> EngineModel {
        EngineModel {
            grains: Map::new(
                |key: usize| self.grains.contains_key(key),
                |key: usize| self.grains[key].after_block(self.clock, block_size),
            ),
            ..self
        }
    }

    /// There is a dead grain with this id.
    pub open spec fn has_died(self, id: u64) -> bool {
        exists|key: usize|
            #![trigger self.grains[key]]
            self.grains.contains_key(key) && self.grains[key].phase is Dead
                && self.grains[key].params.id == id
    }

    /// The engine without dead grains; their ids are not tracked any more.
    pub open spec fn buried(self) -> EngineModel {
        EngineModel {
            grains: Map::new(
                |key: usize| self.grains.contains_key(key) && !(self.grains[key].phase is Dead),
                |key: usize| self.grains[key],
            ),
            ids: Map::new(
                |id: u64| self.ids.contains_key(id) && !self.has_died(id),
                |id: u64| self.ids[id],
            ),
            ..self
        }
    }

    /// The engine with its clock moved on.
    pub open spec fn clocked(self, block_size: int) -> EngineModel {
        EngineModel { clock: (self.clock + block_size) as u64, ..self }
    }

    /// `plan` is what the grains play in a block: every grain once, in key
    /// order, with exactly the samples it gives.
    pub open spec fn plays(self, plan: Seq<GrainBlock>, block_size: int) -> bool {
        &&& forall|i: int, j: int|
            #![trigger plan[i], plan[j]]
            0 <= i < j < plan.len() ==> plan[i].key < plan[j].key
        &&& forall|key: usize|
            #![trigger self.grains.contains_key(key)]
            self.grains.contains_key(key) <==> exists|i: int|
                #![trigger plan[i]]
                0 <= i < plan.len() && plan[i].key == key
        &&& forall|i: int|
            #![trigger plan[i]]
            0 <= i < plan.len() ==> grain_plays(
                self.grains[plan[i].key],
                plan[i],
                self.clock,
                block_size,
            )
    }
}

/// `part` is what a grain plays in the block starting at `clock`.
pub open spec fn grain_plays(
    grain: FofState,
    part: GrainBlock,
    clock: u64,
    block_size: int,
) -> bool {
    let start = grain.params.start_sample;
    &&& part.grain == grain.after_block(clock, block_size)
    &&& crate::fof::run_samples(part.runs@) == grain.samples(
        crate::fof::samples_wanted(start, clock, block_size),
    )
    &&& crate::fof::runs_contiguous(part.runs@, crate::fof::start_offset(start, clock))
}

/// The grains that a consumer took out of its ring between two states.
pub open spec fn newly_taken(before: TimeWheelConsumer, after: TimeWheelConsumer) -> Seq<
    FofParams,
> {
    before.log().subrange(before.taken() as int, after.taken() as int)
}

/// The grains that come out of a wheel on the way to `block_end`: those that
/// fire, and those of the current slot that start before then.
pub open spec fn fired_by_one(
    before: TimeWheelConsumer,
    after: TimeWheelConsumer,
    block_end: int,
) -> Seq<FofParams> {
    let entries = newly_taken(before, after);
    before@.fired_through(entries, block_end) + before@.through(entries, block_end).due(block_end)
}

/// The grains that come out of the wheels on the way to `block_end`, wheel by
/// wheel.
pub open spec fn fired_by(
    before: Seq<TimeWheelConsumer>,
    after: Seq<TimeWheelConsumer>,
    block_end: int,
) -> Seq<FofParams>
    decreases before.len(),
{
    if before.len() == 0 {
        Seq::empty()
    } else {
        fired_by(before.drop_last(), after.drop_last(), block_end) + fired_by_one(
            before.last(),
            after.last(),
            block_end,
        )
    }
}

/// All wheels were drained up to `block_end`.
pub open spec fn wheels_drained(
    before: Seq<TimeWheelConsumer>,
    after: Seq<TimeWheelConsumer>,
    block_end: int,
) -> bool {
    &&& after.len() == before.len()
    &&& forall|i: int|
        #![trigger before[i]]
        #![trigger after[i]]
        0 <= i < before.len() ==> crate::queue::drained_due(
            before[i],
            after[i],
            newly_taken(before[i], after[i]),
            block_end,
        )
}

/// All that has happened to a consumer is that it may have looked.
pub open spec fn wheel_looked(before: TimeWheelConsumer, after: TimeWheelConsumer) -> bool {
    &&& after@ == before@
    &&& after.log() == before.log()
    &&& after.taken() == before.taken()
    &&& after.seen() >= before.seen()
    &&& after.looks() >= before.looks()
    &&& forall|tx: TimeWheelProducer|
        #![trigger crate::queue::one_ring(tx, after)]
        crate::queue::one_ring(tx, after) == crate::queue::one_ring(tx, before)
}

/// All that has happened to an engine is that its wheels may have looked how
/// many grains were written.
pub open spec fn looked(before: RfofsEngine, after: RfofsEngine) -> bool {
    &&& after@ == before@
    &&& after.mode() == before.mode()
    &&& after.kill_rx() == before.kill_rx()
    &&& after.wheels().len() == before.wheels().len()
    &&& forall|i: int|
        #![trigger before.wheels()[i]]
        #![trigger after.wheels()[i]]
        0 <= i < before.wheels().len() ==> wheel_looked(before.wheels()[i], after.wheels()[i])
}

/// What a block makes of an engine: `incoming` grains of the given timings are
/// promoted under the given keys, then `kills` apply, then every grain plays
/// its part of `plan`, then the dead ones go and the clock moves on.
pub open spec fn block_step(
    before: EngineModel,
    after: EngineModel,
    incoming: Seq<FofParams>,
    timings: Seq<FofTiming>,
    keys: Seq<usize>,
    kills: Seq<FofKillRequest>,
    fade_lens: Seq<u32>,
    plan: Seq<GrainBlock>,
    block_size: int,
) -> bool {
    let ready = before.with_grains(incoming, timings, keys).with_kills(kills, fade_lens);
    &&& timings.len() == incoming.len()
    &&& keys.len() == incoming.len()
    &&& fade_lens.len() == kills.len()
    &&& before.vacant(keys)
    &&& ready.plays(plan, block_size)
    &&& after == ready.played(block_size).buried().clocked(block_size)
}

/// The core audio-thread engine.
///
/// Owned exclusively by the process callback; all cross-thread communication
/// goes through the queues.
pub struct RfofsEngine {
    pan_mode: PanMode,
    active: slab::Slab<FofState>,
    id_map: HashMap<u64, usize>,
    sample_clock: u64,
    wheels: Vec<TimeWheelConsumer>,
    kill_rx: KillQueueConsumer,
    // Scratch, kept from block to block so that its memory is.
    incoming: Vec<FofParams>,
    kills: Vec<FofKillRequest>,
    timings: Vec<FofTiming>,
    fade_lens: Vec<u32>,
    keys: Vec<usize>,
}

impl View for RfofsEngine {
    type V = EngineModel;

    closed spec fn view(&self) -> EngineModel {
        EngineModel {
            clock: self.sample_clock,
            grains: pool::pool_grains(self.active),
            ids: self.id_map@,
        }
    }
}

impl RfofsEngine {
    /// The schedules that feed the engine.
    pub closed spec fn wheels(&self) -> Seq<TimeWheelConsumer> {
        self.wheels@
    }

    /// The kill queue that feeds the engine.
    pub closed spec fn kill_rx(&self) -> KillQueueConsumer {
        self.kill_rx
    }

    /// The panning mode.
    pub closed spec fn mode(&self) -> PanMode {
        self.pan_mode
    }

    pub open spec fn wf(&self) -> bool {
        &&& self@.wf()
        &&& self.kill_rx().wf()
        &&& forall|i: int|
            #![trigger self.wheels()[i]]
            0 <= i < self.wheels().len() ==> self.wheels()[i].wf()
    }

    /// The times that a block of this size involves are representable.
    pub open spec fn can_process(&self, block_size: int) -> bool {
        &&& self@.clock + block_size <= u64::MAX
        &&& forall|i: int|
            #![trigger self.wheels()[i]]
            0 <= i < self.wheels().len() ==> self.wheels()[i]@.fits(self@.clock + block_size)
    }

    /// Everything but the grains and the clock is as in `other`.
    pub open spec fn same_surroundings(&self, other: RfofsEngine) -> bool {
        &&& self.wheels() == other.wheels()
        &&& self.kill_rx() == other.kill_rx()
        &&& self.mode() == other.mode()
    }

    pub fn new(
        pan_mode: PanMode,
        initial_capacity: usize,
        wheels: Vec<TimeWheelConsumer>,
        kill_rx: KillQueueConsumer,
    ) -> (engine: RfofsEngine)
        requires
            initial_capacity * 128 <= isize::MAX,
            kill_rx.wf(),
            forall|i: int| #![trigger wheels@[i]] 0 <= i < wheels@.len() ==> wheels@[i].wf(),
        ensures
            engine.wf(),
            engine@ == (EngineModel { clock: 0, grains: Map::empty(), ids: Map::empty() }),
            engine.wheels() == wheels@,
            engine.kill_rx() == kill_rx,
            engine.mode() == pan_mode,
    {
        RfofsEngine {
            pan_mode,
            active: pool_new(initial_capacity),
            id_map: HashMap::with_capacity(256),
            sample_clock: 0,
            wheels,
            kill_rx,
            incoming: Vec::with_capacity(256),
            kills: Vec::with_capacity(256),
            timings: Vec::with_capacity(256),
            fade_lens: Vec::with_capacity(256),
            keys: Vec::with_capacity(initial_capacity),
        }
    }

    /// Current count of active FOFs.
    pub fn active_count(&self) -> (n: usize)
        ensures
            n == self@.grains.dom().len(),
    {
        pool_len(&self.active)
    }

    /// Current absolute sample clock (start of the next block).
    pub fn sample_clock(&self) -> (t: u64)
        ensures
            t == self@.clock,
    {
        self.sample_clock
    }

    /// Override the sample clock ahead of the next block.
    pub fn set_sample_clock(&mut self, sample: u64)
        ensures
            final(self)@ == (EngineModel { clock: sample, ..old(self)@ }),
            final(self).same_surroundings(*old(self)),
    {
        self.sample_clock = sample;
    }

    /// The panning mode.
    pub fn pan_mode(&self) -> (mode: PanMode)
        ensures
            mode == self.mode(),
    {
        self.pan_mode
    }

    /// Counters of the given wheel.
    pub fn wheel_stats(&self, wheel: usize) -> (stats: &QueueStats)
        requires
            wheel < self.wheels().len(),
        ensures
            stats@ == self.wheels()[wheel as int]@.stats,
    {
        self.wheels[wheel].stats()
    }

    /// Let a wheel look, with its producer at hand, how many grains were
    /// written.
    pub fn look(&mut self, wheel: usize, tx: &TimeWheelProducer)
        requires
            old(self).wf(),
            wheel < old(self).wheels().len(),
            crate::queue::one_ring(*tx, old(self).wheels()[wheel as int]),
        ensures
            final(self).wf(),
            looked(*old(self), *final(self)),
            final(self).wheels()[wheel as int].seen() == tx.sent(),
    {
        let ghost before = *self;
        let ghost w = wheel as int;
        proof {
            assert(self.wheels()[w].wf());
        }
        self.wheels[wheel].look(tx);
        proof {
            assert forall|i: int| #![trigger self.wheels()[i]] 0 <= i < self.wheels().len() implies
                self.wheels()[i].wf() by {
                if i != w {
                    assert(self.wheels()[i] == before.wheels()[i]);
                }
            }
            assert forall|i: int|
                #![trigger before.wheels()[i]]
                #![trigger self.wheels()[i]]
                0 <= i < before.wheels().len() implies wheel_looked(
                before.wheels()[i],
                self.wheels()[i],
            ) by {
                if i != w {
                    assert(self.wheels()[i] == before.wheels()[i]);
                }
                assert(before.wheels()[i].wf());
            }
        }
    }

    /// Let the kill queue look, with its producer at hand, how many requests
    /// were written.
    pub fn look_for_kills(&mut self, tx: &KillQueueProducer)
        requires
            old(self).wf(),
            crate::queue::one_kill_ring(*tx, old(self).kill_rx()),
        ensures
            final(self).wf(),
            final(self)@ == old(self)@,
            final(self).mode() == old(self).mode(),
            final(self).wheels() == old(self).wheels(),
            final(self).kill_rx().log() == old(self).kill_rx().log(),
            final(self).kill_rx().taken() == old(self).kill_rx().taken(),
            final(self).kill_rx().seen() == tx.sent(),
            final(self).kill_rx().looks() > old(self).kill_rx().looks(),
            forall|other: KillQueueProducer|
                #![trigger crate::queue::one_kill_ring(other, final(self).kill_rx())]
                crate::queue::one_kill_ring(other, final(self).kill_rx())
                    == crate::queue::one_kill_ring(other, old(self).kill_rx()),
    {
        let ghost before = *self;
        self.kill_rx.look(tx);
        proof {
            assert forall|i: int| #![trigger self.wheels()[i]] 0 <= i < self.wheels().len() implies
                self.wheels()[i].wf() by {
                assert(before.wheels()[i].wf());
            }
        }
    }

    /// Submit a grain to a wheel, through its producer. Gives the grain back if
    /// as many are not taken as the wheel's ring holds.
    pub fn submit(&self, wheel: usize, tx: &mut TimeWheelProducer, params: FofParams) -> (r: Result<
        (),
        FofParams,
    >)
        requires
            wheel < self.wheels().len(),
            old(tx).wf(),
            crate::queue::one_ring(*old(tx), self.wheels()[wheel as int]),
        ensures
            final(tx).wf(),
            final(tx).log() == old(tx).log(),
            final(tx).capacity() == old(tx).capacity(),
            r is Ok ==> final(tx).sent() == old(tx).sent() + 1 && final(tx).log()[old(
                tx,
            ).sent() as int] == params,
            r matches Err(back) ==> back == params && final(tx).sent() == old(tx).sent(),
            r is Ok <==> old(tx).sent() - self.wheels()[wheel as int].taken() < old(
                tx,
            ).capacity(),
            r is Ok ==> self.wheels()[wheel as int].taken() < final(tx).sent(),
            r is Err ==> self.wheels()[wheel as int].taken() <= final(tx).sent(),
            forall|other: TimeWheelConsumer|
                #![trigger crate::queue::one_ring(*final(tx), other)]
                crate::queue::one_ring(*final(tx), other) == crate::queue::one_ring(
                    *old(tx),
                    other,
                ),
    {
        tx.push_here(params, &self.wheels[wheel])
    }

    /// Promote grains, each with its own timing, and say which keys they got.
    pub fn spawn_grains(
        &mut self,
        incoming: &Vec<FofParams>,
        timings: &Vec<FofTiming>,
        keys: &mut Vec<usize>,
    )
        requires
            old(self)@.wf(),
            timings@.len() == incoming@.len(),
        ensures
            final(keys)@.len() == incoming@.len(),
            old(self)@.vacant(final(keys)@),
            final(self)@ == old(self)@.with_grains(incoming@, timings@, final(keys)@),
            final(self)@.wf(),
            final(self).same_surroundings(*old(self)),
    {
        keys.clear();
        let ghost before = self@;
        let mut i: usize = 0;
        while i < incoming.len()
            invariant
                i <= incoming@.len(),
                timings@.len() == incoming@.len(),
                keys@.len() == i,
                before.vacant(keys@),
                self@ == before.with_grains(
                    incoming@.take(i as int),
                    timings@.take(i as int),
                    keys@,
                ),
                self@.wf(),
                forall|key: usize|
                    #![trigger self@.grains.contains_key(key)]
                    self@.grains.contains_key(key) <==> before.grains.contains_key(key)
                        || keys@.contains(key),
                self.same_surroundings(*old(self)),
            decreases incoming@.len() - i,
        {
            let ghost step = *self;
            let ghost old_keys = keys@;
            let params: FofParams = incoming[i];
            let key: usize = pool_insert(&mut self.active, FofState::spawn(params, timings[i]));
            if params.id != 0 {
                self.id_map.insert(params.id, key);
            }
            keys.push(key);
            proof {
                let n = i as int;
                assert(incoming@.take(n + 1).drop_last() =~= incoming@.take(n));
                assert(timings@.take(n + 1).drop_last() =~= timings@.take(n));
                assert(keys@.drop_last() =~= old_keys);
                assert(!step@.grains.contains_key(key));
                assert forall|k: int| #![trigger keys@[k]] 0 <= k < keys@.len() implies
                    !before.grains.contains_key(keys@[k]) by {
                    if k < n {
                        assert(old_keys[k] == keys@[k]);
                    }
                }
                assert forall|a: int, b: int|
                    0 <= a < keys@.len() && 0 <= b < keys@.len() && a != b implies keys@[a]
                    != keys@[b] by {
                    if a < n {
                        assert(old_keys.contains(keys@[a])) by {
                            assert(old_keys[a] == keys@[a]);
                        }
                    }
                    if b < n {
                        assert(old_keys.contains(keys@[b])) by {
                            assert(old_keys[b] == keys@[b]);
                        }
                    }
                }
                assert forall|k: usize|
                    #![trigger self@.grains.contains_key(k)]
                    self@.grains.contains_key(k) <==> before.grains.contains_key(k)
                        || keys@.contains(k) by {
                    if keys@.contains(k) {
                        let at = choose|at: int| 0 <= at < keys@.len() && keys@[at] == k;
                        if at < n {
                            assert(old_keys[at] == k);
                        }
                    }
                    if old_keys.contains(k) {
                        let at = choose|at: int| 0 <= at < old_keys.len() && old_keys[at] == k;
                        assert(keys@[at] == k);
                    }
                    assert(keys@[n] == key);
                }
                assert(self@ =~= step@.with_grain(params, timings@[n], key));
            }
            i = i + 1;
        }
        proof {
            assert(incoming@.take(i as int) =~= incoming@);
            assert(timings@.take(i as int) =~= timings@);
        }
    }

    /// Apply kill requests, each with the length of its ramp in samples.
    pub fn apply_kills(&mut self, requests: &Vec<FofKillRequest>, fade_lens: &Vec<u32>)
        requires
            old(self)@.wf(),
            fade_lens@.len() == requests@.len(),
        ensures
            final(self)@ == old(self)@.with_kills(requests@, fade_lens@),
            final(self)@.wf(),
            final(self).same_surroundings(*old(self)),
    {
        let ghost before = self@;
        let mut i: usize = 0;
        while i < requests.len()
            invariant
                i <= requests@.len(),
                fade_lens@.len() == requests@.len(),
                self@ == before.with_kills(requests@.take(i as int), fade_lens@.take(i as int)),
                self@.wf(),
                self.same_surroundings(*old(self)),
            decreases requests@.len() - i,
        {
            let ghost step = *self;
            let req: FofKillRequest = requests[i];
            let found: Option<usize> = match self.id_map.get(&req.id) {
                Some(key) => Some(*key),
                None => None,
            };
            if let Some(key) = found {
                let mut grain: FofState = pool_get(&self.active, key);
                grain.trigger_fade_out(req.fade_dur, fade_lens[i]);
                pool_set(&mut self.active, key, grain);
            }
            proof {
                let n = i as int;
                assert(requests@.take(n + 1).drop_last() =~= requests@.take(n));
                assert(fade_lens@.take(n + 1).drop_last() =~= fade_lens@.take(n));
                assert(self@ =~= step@.with_kill(req, fade_lens@[n]));
            }
            i = i + 1;
        }
        proof {
            assert(requests@.take(i as int) =~= requests@);
            assert(fade_lens@.take(i as int) =~= fade_lens@);
        }
    }

    /// Play every active grain for a block starting at the clock, and say in
    /// `plan` what each of them does.
    pub fn play(&mut self, block_size: usize, plan: &mut Vec<GrainBlock>)
        requires
            old(self)@.wf(),
        ensures
            old(self)@.plays(final(plan)@, block_size as int),
            final(self)@ == old(self)@.played(block_size as int),
            final(self)@.wf(),
            final(self).same_surroundings(*old(self)),
    {
        let ghost before = self@;
        let mut keys: Vec<usize> = Vec::new();
        std::mem::swap(&mut self.keys, &mut keys);
        pool_keys(&self.active, &mut keys);
        plan.clear();
        let mut i: usize = 0;
        while i < keys.len()
            invariant
                i <= keys@.len(),
                plan@.len() == i,
                forall|a: int, b: int| 0 <= a < b < keys@.len() ==> keys@[a] < keys@[b],
                forall|key: usize| keys@.contains(key) <==> before.grains.contains_key(key),
                self@.clock == before.clock,
                self@.ids == before.ids,
                self@.grains.dom() == before.grains.dom(),
                forall|a: int|
                    #![trigger keys@[a]]
                    0 <= a < i ==> self@.grains[keys@[a]] == before.grains[keys@[a]].after_block(
                        before.clock,
                        block_size as int,
                    ),
                forall|a: int|
                    #![trigger keys@[a]]
                    i <= a < keys@.len() ==> self@.grains[keys@[a]] == before.grains[keys@[a]],
                forall|a: int|
                    #![trigger plan@[a]]
                    0 <= a < i ==> plan@[a].key == keys@[a] && grain_plays(
                        before.grains[keys@[a]],
                        plan@[a],
                        before.clock,
                        block_size as int,
                    ),
                self.same_surroundings(*old(self)),
            decreases keys@.len() - i,
        {
            let key: usize = keys[i];
            proof {
                assert(keys@.contains(key));
                assert(before.grains.dom().contains(key));
            }
            let mut grain: FofState = pool_get(&self.active, key);
            let runs: FofRuns = grain.fill_block(self.sample_clock, block_size);
            pool_set(&mut self.active, key, grain);
            plan.push(GrainBlock { key, grain, runs });
            proof {
                assert(self@.grains.dom() =~= before.grains.dom());
            }
            i = i + 1;
        }
        proof {
            let after = before.played(block_size as int);
            assert forall|key: usize| #![trigger after.grains[key]] after.grains.contains_key(
                key,
            ) implies self@.grains[key] == after.grains[key] by {
                assert(keys@.contains(key));
                let a = choose|a: int| 0 <= a < keys@.len() && keys@[a] == key;
                assert(keys@[a] == key);
            }
            assert(self@.grains.dom() =~= after.grains.dom());
            assert(self@.grains =~= after.grains);
            lemma_played_keeps(before, block_size as int);
            assert forall|key: usize|
                #![trigger before.grains.contains_key(key)]
                before.grains.contains_key(key) <==> exists|a: int|
                    #![trigger plan@[a]]
                    0 <= a < plan@.len() && plan@[a].key == key by {
                if before.grains.contains_key(key) {
                    assert(keys@.contains(key));
                    let a = choose|a: int| 0 <= a < keys@.len() && keys@[a] == key;
                    assert(plan@[a].key == key);
                }
                if exists|a: int|
                    #![trigger plan@[a]]
                    0 <= a < plan@.len() && plan@[a].key == key {
                    let a = choose|a: int|
                        #![trigger plan@[a]]
                        0 <= a < plan@.len() && plan@[a].key == key;
                    assert(keys@[a] == key);
                    assert(keys@.contains(key));
                }
            }
        }
        std::mem::swap(&mut self.keys, &mut keys);
    }

    /// Drop the grains that have died.
    pub fn bury_dead(&mut self)
        requires
            old(self)@.wf(),
        ensures
            final(self)@ == old(self)@.buried(),
            final(self)@.wf(),
            final(self).same_surroundings(*old(self)),
    {
        let ghost before = self@;
        let mut keys: Vec<usize> = Vec::new();
        std::mem::swap(&mut self.keys, &mut keys);
        pool_keys(&self.active, &mut keys);
        let mut i: usize = 0;
        proof {
            assert(before.buried_among(keys@.take(0)) =~= before);
        }
        while i < keys.len()
            invariant
                i <= keys@.len(),
                before.wf(),
                forall|a: int, b: int| 0 <= a < b < keys@.len() ==> keys@[a] < keys@[b],
                forall|key: usize| keys@.contains(key) <==> before.grains.contains_key(key),
                self@ == before.buried_among(keys@.take(i as int)),
                self.same_surroundings(*old(self)),
            decreases keys@.len() - i,
        {
            let ghost step = *self;
            let ghost n = i as int;
            let ghost done = keys@.take(n);
            let ghost next = keys@.take(n + 1);
            let key: usize = keys[i];
            proof {
                assert(keys@.contains(key));
                assert(before.grains.contains_key(key));
                if done.contains(key) {
                    let a = choose|a: int| 0 <= a < done.len() && done[a] == key;
                    assert(keys@[a] == key && keys@[a] < keys@[n]);
                }
                assert forall|k: usize| next.contains(k) <==> done.contains(k) || k == key by {
                    if next.contains(k) {
                        let a = choose|a: int| 0 <= a < next.len() && next[a] == k;
                        if a < n {
                            assert(done[a] == k);
                        }
                    }
                    if done.contains(k) {
                        let a = choose|a: int| 0 <= a < done.len() && done[a] == k;
                        assert(next[a] == k);
                    }
                    assert(next[n] == key);
                }
            }
            let grain: FofState = pool_get(&self.active, key);
            if grain.phase == FofPhase::Dead {
                let _ = pool_remove(&mut self.active, key);
                if grain.params.id != 0 {
                    self.id_map.remove(&grain.params.id);
                }
            }
            proof {
                let after = before.buried_among(next);
                assert(self@.grains =~= after.grains);
                assert forall|id: u64| #![trigger after.ids.contains_key(id)] after.ids.contains_key(
                    id,
                ) <==> self@.ids.contains_key(id) by {
                    if before.ids.contains_key(id) {
                        if before.has_died_among(done, id) {
                            let k = choose|k: usize|
                                #![trigger before.grains[k]]
                                done.contains(k) && before.grains.contains_key(k)
                                    && before.grains[k].phase is Dead
                                    && before.grains[k].params.id == id;
                            assert(next.contains(k));
                        }
                        if grain.phase is Dead && grain.params.id == id {
                            assert(before.grains[key] == grain);
                            assert(next.contains(key));
                            assert(before.has_died_among(next, id));
                        }
                    }
                }
                assert(self@.ids.dom() =~= after.ids.dom());
                assert(self@.ids =~= after.ids);
            }
            i = i + 1;
        }
        proof {
            assert(keys@.take(i as int) =~= keys@);
            let after = before.buried();
            let among = before.buried_among(keys@);
            assert(among.grains =~= after.grains);
            assert forall|id: u64| #![trigger before.has_died(id)] before.has_died(id)
                == before.has_died_among(keys@, id) by {
                if before.has_died(id) {
                    let k = choose|k: usize|
                        #![trigger before.grains[k]]
                        before.grains.contains_key(k) && before.grains[k].phase is Dead
                            && before.grains[k].params.id == id;
                    assert(keys@.contains(k));
                }
            }
            assert(among.ids.dom() =~= after.ids.dom());
            assert(among.ids =~= after.ids);
            lemma_buried_keeps(before);
        }
        std::mem::swap(&mut self.keys, &mut keys);
    }

    /// Drain every wheel up to the end of the block.
    fn drain_wheels(&mut self, block_start: u64, block_size: u64, incoming: &mut Vec<FofParams>)
        requires
            old(self).wf(),
            old(self).can_process(block_size as int),
            block_start == old(self)@.clock,
        ensures
            final(self).wf(),
            final(self)@ == old(self)@,
            final(self).kill_rx() == old(self).kill_rx(),
            final(self).mode() == old(self).mode(),
            wheels_drained(old(self).wheels(), final(self).wheels(), block_start + block_size),
            final(incoming)@ == old(incoming)@ + fired_by(
                old(self).wheels(),
                final(self).wheels(),
                block_start + block_size,
            ),
    {
        let ghost before = self.wheels();
        let ghost block_end = block_start + block_size;
        let ghost had = incoming@;
        let mut i: usize = 0;
        proof {
            assert(had + fired_by(before.take(0), before.take(0), block_end) =~= had);
            assert forall|a: int| #![trigger before[a]] 0 <= a < before.len() implies before[a].wf()
                && before[a]@.fits(block_end) by {
                assert(self.wheels()[a].wf());
            }
        }
        while i < self.wheels.len()
            invariant
                i <= self.wheels@.len(),
                self.wheels@.len() == before.len(),
                block_end == block_start + block_size,
                block_end <= u64::MAX,
                forall|a: int|
                    #![trigger before[a]]
                    0 <= a < before.len() ==> before[a].wf() && before[a]@.fits(block_end),
                forall|a: int|
                    #![trigger self.wheels@[a]]
                    i <= a < before.len() ==> self.wheels@[a] == before[a],
                forall|a: int|
                    #![trigger self.wheels@[a]]
                    0 <= a < i ==> self.wheels@[a].wf() && crate::queue::drained_due(
                        before[a],
                        self.wheels@[a],
                        newly_taken(before[a], self.wheels@[a]),
                        block_end,
                    ),
                incoming@ == had + fired_by(
                    before.take(i as int),
                    self.wheels@.take(i as int),
                    block_end,
                ),
                self@ == old(self)@,
                self.kill_rx() == old(self).kill_rx(),
                self.mode() == old(self).mode(),
            decreases before.len() - i,
        {
            let ghost step = self.wheels@;
            let ghost n = i as int;
            proof {
                assert(self.wheels@[n] == before[n]);
            }
            self.wheels[i].drain_block_due(block_start, block_size, incoming);
            proof {
                assert(before.take(n + 1).drop_last() =~= before.take(n));
                assert(self.wheels@.take(n + 1).drop_last() =~= step.take(n));
                assert forall|a: int| #![trigger self.wheels@[a]] 0 <= a < n + 1 implies
                    self.wheels@[a].wf() && crate::queue::drained_due(
                    before[a],
                    self.wheels@[a],
                    newly_taken(before[a], self.wheels@[a]),
                    block_end,
                ) by {
                    if a < n {
                        assert(self.wheels@[a] == step[a]);
                    }
                }
                assert forall|a: int| #![trigger self.wheels@[a]] n + 1 <= a
                    < before.len() implies self.wheels@[a] == before[a] by {
                    assert(self.wheels@[a] == step[a]);
                }
                assert(incoming@ =~= had + fired_by(before.take(n), step.take(n), block_end)
                    + fired_by_one(before[n], self.wheels@[n], block_end));
                assert(incoming@ =~= had + fired_by(
                    before.take(n + 1),
                    self.wheels@.take(n + 1),
                    block_end,
                ));
            }
            i = i + 1;
        }
        proof {
            assert(before.take(i as int) =~= before);
            assert(self.wheels@.take(i as int) =~= self.wheels@);
            assert forall|a: int|
                #![trigger before[a]]
                0 <= a < before.len() implies crate::queue::drained_due(
                before[a],
                self.wheels@[a],
                newly_taken(before[a], self.wheels@[a]),
                block_end,
            ) by {
                assert(self.wheels@[a].wf());
            }
        }
    }

    /// Whether the times that a block of this size involves are representable.
    pub fn block_fits(&self, block_size: usize) -> (b: bool)
        requires
            self.wf(),
        ensures
            b == self.can_process(block_size as int),
    {
        if self.sample_clock > u64::MAX - block_size as u64 {
            return false;
        }
        let block_end: u64 = self.sample_clock + block_size as u64;
        let mut i: usize = 0;
        while i < self.wheels.len()
            invariant
                i <= self.wheels@.len(),
                self.wf(),
                block_end == self.sample_clock + block_size,
                forall|a: int|
                    #![trigger self.wheels()[a]]
                    0 <= a < i ==> self.wheels()[a]@.fits(block_end as int),
            decreases self.wheels@.len() - i,
        {
            assert(self.wheels()[i as int].wf());
            if !self.wheels[i].fits(block_end) {
                return false;
            }
            i = i + 1;
        }
        true
    }

    /// Process one block: take in what the queues hold, promote the grains
    /// that are due, apply the kills, play, and drop what died.
    ///
    /// `timing_of` gives a grain's phase lengths in samples and `fade_len_of`
    /// a kill's ramp length; both come from the sample rate, which the engine
    /// does not deal in. What each grain does in the block is put in `plan`,
    /// in place of what it held.
    pub fn process_block<F: Fn(FofParams) -> FofTiming, G: Fn(u32) -> u32>(
        &mut self,
        block_size: usize,
        timing_of: F,
        fade_len_of: G,
        plan: &mut Vec<GrainBlock>,
    )
        requires
            old(self).wf(),
            old(self).can_process(block_size as int),
            forall|params: FofParams| call_requires(timing_of, (params,)),
            forall|fade_dur: u32| call_requires(fade_len_of, (fade_dur,)),
        ensures
            final(self).wf(),
            processed(
                *old(self),
                *final(self),
                final(plan)@,
                block_size as int,
                timing_of,
                fade_len_of,
            ),
    {
        let ghost before = *self;
        let block_start: u64 = self.sample_clock;
        let block_end: u64 = block_start + block_size as u64;

        let mut incoming: Vec<FofParams> = Vec::new();
        let mut kills: Vec<FofKillRequest> = Vec::new();
        let mut timings: Vec<FofTiming> = Vec::new();
        let mut fade_lens: Vec<u32> = Vec::new();
        let mut keys: Vec<usize> = Vec::new();
        std::mem::swap(&mut self.incoming, &mut incoming);
        std::mem::swap(&mut self.kills, &mut kills);
        std::mem::swap(&mut self.timings, &mut timings);
        std::mem::swap(&mut self.fade_lens, &mut fade_lens);
        std::mem::swap(&mut self.keys, &mut keys);

        proof {
            assert(self.wheels() == before.wheels());
            assert(self.wf()) by {
                assert forall|a: int|
                    #![trigger self.wheels()[a]]
                    0 <= a < self.wheels().len() implies self.wheels()[a].wf() by {
                    assert(before.wheels()[a].wf());
                }
            }
        }

        incoming.clear();
        self.drain_wheels(block_start, block_size as u64, &mut incoming);
        kills.clear();
        self.kill_rx.drain_all(&mut kills);
        proof {
            let fired = fired_by(before.wheels(), self.wheels(), block_end as int);
            assert(incoming@ =~= fired);
            assert(kills@ =~= newly_killed(before.kill_rx(), self.kill_rx()));
        }
        let ghost drained = *self;

        timings_of(&incoming, timing_of, &mut timings);
        self.spawn_grains(&incoming, &timings, &mut keys);
        let ghost spawned = keys@;
        std::mem::swap(&mut self.keys, &mut keys);
        fade_lens_of(&kills, fade_len_of, &mut fade_lens);
        self.apply_kills(&kills, &fade_lens);
        self.play(block_size, plan);
        self.bury_dead();
        self.sample_clock = block_end;
        proof {
            lemma_grains_keep_clock(before@, incoming@, timings@, spawned);
            lemma_kills_keep_clock(
                before@.with_grains(incoming@, timings@, spawned),
                kills@,
                fade_lens@,
            );
            assert forall|a: int| #![trigger self.wheels()[a]] 0 <= a < self.wheels().len() implies
                self.wheels()[a].wf() by {
                assert(drained.wheels()[a].wf());
            }
            assert(block_step(
                before@,
                self@,
                incoming@,
                timings@,
                spawned,
                kills@,
                fade_lens@,
                plan@,
                block_size as int,
            ));
        }
        let ghost played = *self;
        proof {
            assert(wheels_drained(before.wheels(), played.wheels(), block_end as int));
            assert(played.kill_rx() == drained.kill_rx());
            assert(played.kill_rx().looks() > before.kill_rx().looks());
            assert(played.kill_rx().taken() >= before.kill_rx().seen());
            assert(played.kill_rx().seen() == played.kill_rx().taken());
            let fired = fired_by(before.wheels(), played.wheels(), block_end as int);
            assert(fired == incoming@);
            assert(newly_killed(before.kill_rx(), played.kill_rx()) == kills@);
        }
        std::mem::swap(&mut self.incoming, &mut incoming);
        std::mem::swap(&mut self.kills, &mut kills);
        std::mem::swap(&mut self.timings, &mut timings);
        std::mem::swap(&mut self.fade_lens, &mut fade_lens);
        proof {
            assert(processed(
                before,
                played,
                plan@,
                block_size as int,
                timing_of,
                fade_len_of,
            ));
            assert(self@ == played@);
            assert(self.wheels() == played.wheels());
            assert(self.kill_rx() == played.kill_rx());
            assert(self.mode() == played.mode());
            assert(played.wf());
        }
    }
}

/// The kill requests that a consumer took between two states.
pub open spec fn newly_killed(before: KillQueueConsumer, after: KillQueueConsumer) -> Seq<
    FofKillRequest,
> {
    before.log().subrange(before.taken() as int, after.taken() as int)
}

/// `after` is what a block with this plan makes of `before`: the wheels were
/// drained up to its end, and the grains and kill requests that came out of
/// the queues took effect, with timings and ramp lengths that the two
/// functions gave for them.
pub open spec fn processed<F: Fn(FofParams) -> FofTiming, G: Fn(u32) -> u32>(
    before: RfofsEngine,
    after: RfofsEngine,
    plan: Seq<GrainBlock>,
    block_size: int,
    timing_of: F,
    fade_len_of: G,
) -> bool {
    let incoming = fired_by(before.wheels(), after.wheels(), before@.clock + block_size);
    let kills = newly_killed(before.kill_rx(), after.kill_rx());
    &&& after.mode() == before.mode()
    &&& wheels_drained(before.wheels(), after.wheels(), before@.clock + block_size)
    &&& after.kill_rx().log() == before.kill_rx().log()
    &&& after.kill_rx().taken() >= before.kill_rx().taken()
    &&& after.kill_rx().taken() >= before.kill_rx().seen()
    &&& after.kill_rx().seen() == after.kill_rx().taken()
    &&& after.kill_rx().looks() > before.kill_rx().looks()
    &&& forall|tx: KillQueueProducer|
        #![trigger crate::queue::one_kill_ring(tx, after.kill_rx())]
        crate::queue::one_kill_ring(tx, after.kill_rx()) == crate::queue::one_kill_ring(
            tx,
            before.kill_rx(),
        )
    &&& exists|timings: Seq<FofTiming>, keys: Seq<usize>, fade_lens: Seq<u32>|
        {
            &&& #[trigger] block_step(
                before@,
                after@,
                incoming,
                timings,
                keys,
                kills,
                fade_lens,
                plan,
                block_size,
            )
            &&& forall|i: int|
                #![trigger timings[i]]
                0 <= i < incoming.len() ==> call_ensures(timing_of, (incoming[i],), timings[i])
            &&& forall|i: int|
                #![trigger fade_lens[i]]
                0 <= i < kills.len() ==> call_ensures(
                    fade_len_of,
                    (kills[i].fade_dur,),
                    fade_lens[i],
                )
        }
}

/// The timing of each grain.
fn timings_of<F: Fn(FofParams) -> FofTiming>(
    incoming: &Vec<FofParams>,
    timing_of: F,
    timings: &mut Vec<FofTiming>,
)
    requires
        forall|params: FofParams| call_requires(timing_of, (params,)),
    ensures
        final(timings)@.len() == incoming@.len(),
        forall|i: int|
            #![trigger final(timings)@[i]]
            0 <= i < incoming@.len() ==> call_ensures(
                timing_of,
                (incoming@[i],),
                final(timings)@[i],
            ),
{
    timings.clear();
    let mut i: usize = 0;
    while i < incoming.len()
        invariant
            i <= incoming@.len(),
            timings@.len() == i,
            forall|params: FofParams| call_requires(timing_of, (params,)),
            forall|k: int|
                #![trigger timings@[k]]
                0 <= k < i ==> call_ensures(timing_of, (incoming@[k],), timings@[k]),
        decreases incoming@.len() - i,
    {
        timings.push(timing_of(incoming[i]));
        i = i + 1;
    }
}

/// The ramp length of each kill request.
fn fade_lens_of<G: Fn(u32) -> u32>(
    kills: &Vec<FofKillRequest>,
    fade_len_of: G,
    fade_lens: &mut Vec<u32>,
)
    requires
        forall|fade_dur: u32| call_requires(fade_len_of, (fade_dur,)),
    ensures
        final(fade_lens)@.len() == kills@.len(),
        forall|i: int|
            #![trigger final(fade_lens)@[i]]
            0 <= i < kills@.len() ==> call_ensures(
                fade_len_of,
                (kills@[i].fade_dur,),
                final(fade_lens)@[i],
            ),
{
    fade_lens.clear();
    let mut i: usize = 0;
    while i < kills.len()
        invariant
            i <= kills@.len(),
            fade_lens@.len() == i,
            forall|fade_dur: u32| call_requires(fade_len_of, (fade_dur,)),
            forall|k: int|
                #![trigger fade_lens@[k]]
                0 <= k < i ==> call_ensures(
                    fade_len_of,
                    (kills@[k].fade_dur,),
                    fade_lens@[k],
                ),
        decreases kills@.len() - i,
    {
        fade_lens.push(fade_len_of(kills[i].fade_dur));
        i = i + 1;
    }
}

impl EngineModel {
    /// One of these grains is dead and has this id.
    spec fn has_died_among(self, keys: Seq<usize>, id: u64) -> bool {
        exists|key: usize|
            #![trigger self.grains[key]]
            keys.contains(key) && self.grains.contains_key(key) && self.grains[key].phase is Dead
                && self.grains[key].params.id == id
    }

    /// The engine without those of these grains that are dead.
    spec fn buried_among(self, keys: Seq<usize>) -> EngineModel {
        EngineModel {
            grains: Map::new(
                |key: usize|
                    self.grains.contains_key(key) && !(keys.contains(key)
                        && self.grains[key].phase is Dead),
                |key: usize| self.grains[key],
            ),
            ids: Map::new(
                |id: u64| self.ids.contains_key(id) && !self.has_died_among(keys, id),
                |id: u64| self.ids[id],
            ),
            ..self
        }
    }
}

proof fn lemma_grains_keep_clock(
    e: EngineModel,
    incoming: Seq<FofParams>,
    timings: Seq<FofTiming>,
    keys: Seq<usize>,
)
    ensures
        e.with_grains(incoming, timings, keys).clock == e.clock,
    decreases incoming.len(),
{
    if incoming.len() > 0 {
        lemma_grains_keep_clock(e, incoming.drop_last(), timings.drop_last(), keys.drop_last());
    }
}

pub proof fn lemma_kills_keep_clock(
    e: EngineModel,
    requests: Seq<FofKillRequest>,
    fade_lens: Seq<u32>,
)
    ensures
        e.with_kills(requests, fade_lens).clock == e.clock,
    decreases requests.len(),
{
    if requests.len() > 0 {
        lemma_kills_keep_clock(e, requests.drop_last(), fade_lens.drop_last());
    }
}

proof fn lemma_played_keeps(e: EngineModel, block_size: int)
    requires
        e.wf(),
    ensures
        e.played(block_size).wf(),
{
    let after = e.played(block_size);
    assert(after.grains.dom() =~= e.grains.dom());
    assert forall|id: u64| #![trigger after.ids.contains_key(id)] after.ids.contains_key(
        id,
    ) implies id != 0 && after.grains.contains_key(after.ids[id])
        && after.grains[after.ids[id]].params.id == id by {
        assert(e.ids.contains_key(id));
        let grain = e.grains[e.ids[id]];
        crate::fof::law_phases_only_advance(
            grain,
            crate::fof::samples_wanted(grain.params.start_sample, e.clock, block_size),
            0,
            0,
        );
    }
}

proof fn lemma_buried_keeps(e: EngineModel)
    requires
        e.wf(),
    ensures
        e.buried().wf(),
{
    let after = e.buried();
    assert(after.grains.dom().subset_of(e.grains.dom()));
    vstd::set_lib::lemma_set_subset_finite(e.grains.dom(), after.grains.dom());
    assert forall|id: u64| #![trigger after.ids.contains_key(id)] after.ids.contains_key(
        id,
    ) implies id != 0 && after.grains.contains_key(after.ids[id])
        && after.grains[after.ids[id]].params.id == id by {
        assert(e.ids.contains_key(id));
        let key = e.ids[id];
        if e.grains[key].phase is Dead {
            assert(e.has_died(id));
        }
    }
}

/// A kill request for an id that is not tracked changes nothing, and 0 is
/// never tracked: fire-and-forget grains cannot be killed.
pub proof fn law_unknown_kill_is_ignored(e: EngineModel, req: FofKillRequest, fade_len: u32)
    requires
        e.wf(),
        req.id == 0 || !e.ids.contains_key(req.id),
    ensures
        e.with_kill(req, fade_len) == e,
{
}

/// A kill request reaches the grain that its id leads to and no other one.
pub proof fn law_kill_reaches_only_its_grain(e: EngineModel, req: FofKillRequest, fade_len: u32)
    requires
        e.wf(),
    ensures
        e.with_kill(req, fade_len).wf(),
        e.with_kill(req, fade_len).grains.dom() == e.grains.dom(),
        e.with_kill(req, fade_len).ids == e.ids,
        e.ids.contains_key(req.id) ==> e.with_kill(req, fade_len).grains[e.ids[req.id]]
            == e.grains[e.ids[req.id]].killed(req.fade_dur, fade_len),
        forall|key: usize|
            #![trigger e.with_kill(req, fade_len).grains[key]]
            e.grains.contains_key(key) && e.grains[key].params.id != req.id ==> e.with_kill(
                req,
                fade_len,
            ).grains[key] == e.grains[key],
{
    let after = e.with_kill(req, fade_len);
    assert(after.grains.dom() =~= e.grains.dom());
}

/// A grain with an id can be killed from the block that promotes it on: a kill
/// that comes right after it puts the grain, as spawned, into its fade-out.
pub proof fn law_promoted_grain_can_be_killed(
    e: EngineModel,
    params: FofParams,
    timing: FofTiming,
    key: usize,
    req: FofKillRequest,
    fade_len: u32,
)
    requires
        e.wf(),
        !e.grains.contains_key(key),
        params.id != 0,
        req.id == params.id,
    ensures
        e.with_grain(params, timing, key).wf(),
        e.with_grain(params, timing, key).with_kill(req, fade_len).grains == e.grains.insert(
            key,
            FofState::spawned(params, timing).killed(req.fade_dur, fade_len),
        ),
{
    let promoted = e.with_grain(params, timing, key);
    assert forall|id: u64| #![trigger promoted.ids.contains_key(id)] promoted.ids.contains_key(
        id,
    ) implies id != 0 && promoted.grains.contains_key(promoted.ids[id])
        && promoted.grains[promoted.ids[id]].params.id == id by {
        if id != params.id {
            assert(e.ids.contains_key(id));
        }
    }
    assert(promoted.with_kill(req, fade_len).grains =~= e.grains.insert(
        key,
        FofState::spawned(params, timing).killed(req.fade_dur, fade_len),
    ));
}

/// After a block no dead grain is left, every grain that is still sounding is,
/// and the clock stands at the block's end.
pub proof fn law_only_the_dead_leave(
    before: EngineModel,
    after: EngineModel,
    incoming: Seq<FofParams>,
    timings: Seq<FofTiming>,
    keys: Seq<usize>,
    kills: Seq<FofKillRequest>,
    fade_lens: Seq<u32>,
    plan: Seq<GrainBlock>,
    block_size: int,
)
    requires
        before.wf(),
        block_size >= 0,
        before.clock + block_size <= u64::MAX,
        block_step(before, after, incoming, timings, keys, kills, fade_lens, plan, block_size),
    ensures
        after.clock == before.clock + block_size,
        forall|key: usize|
            #![trigger after.grains[key]]
            after.grains.contains_key(key) ==> !(after.grains[key].phase is Dead),
        forall|i: int|
            #![trigger plan[i]]
            0 <= i < plan.len() ==> (if plan[i].grain.phase is Dead {
                !after.grains.contains_key(plan[i].key)
            } else {
                after.grains.contains_key(plan[i].key) && after.grains[plan[i].key]
                    == plan[i].grain
            }),
        forall|key: usize|
            #![trigger after.grains.contains_key(key)]
            after.grains.contains_key(key) ==> exists|i: int|
                #![trigger plan[i]]
                0 <= i < plan.len() && plan[i].key == key,
{
    let promoted = before.with_grains(incoming, timings, keys);
    let ready = promoted.with_kills(kills, fade_lens);
    lemma_grains_keep_clock(before, incoming, timings, keys);
    lemma_kills_keep_clock(promoted, kills, fade_lens);
    assert forall|i: int| #![trigger plan[i]] 0 <= i < plan.len() implies (
    if plan[i].grain.phase is Dead {
        !after.grains.contains_key(plan[i].key)
    } else {
        after.grains.contains_key(plan[i].key) && after.grains[plan[i].key] == plan[i].grain
    }) by {
        let key = plan[i].key;
        assert(ready.grains.contains_key(key));
        assert(ready.played(block_size).grains[key] == plan[i].grain);
    }
    assert forall|key: usize| #![trigger after.grains.contains_key(key)] after.grains.contains_key(
        key,
    ) implies exists|i: int| #![trigger plan[i]] 0 <= i < plan.len() && plan[i].key == key by {
        assert(ready.grains.contains_key(key));
    }
}

/// The request is none for a grain with this id.
pub open spec fn spared(kills: Seq<FofKillRequest>, id: u64) -> bool {
    id == 0 || forall|i: int| #![trigger kills[i]] 0 <= i < kills.len() ==> kills[i].id != id
}

/// A grain that is promoted in a block, and for which no kill comes in it,
/// sounds from its own start on: the part of it that the block covers begins
/// at the offset of its start, with the first sample of the grain.
pub proof fn law_new_grain_starts_on_its_sample(
    before: EngineModel,
    after: EngineModel,
    incoming: Seq<FofParams>,
    timings: Seq<FofTiming>,
    keys: Seq<usize>,
    kills: Seq<FofKillRequest>,
    fade_lens: Seq<u32>,
    plan: Seq<GrainBlock>,
    block_size: int,
    i: int,
)
    requires
        before.wf(),
        block_step(before, after, incoming, timings, keys, kills, fade_lens, plan, block_size),
        0 <= i < incoming.len(),
        before.clock <= incoming[i].start_sample,
        spared(kills, incoming[i].id),
    ensures
        exists|j: int|
            #![trigger plan[j]]
            0 <= j < plan.len() && plan[j].key == keys[i] && grain_plays(
                FofState::spawned(incoming[i], timings[i]),
                plan[j],
                before.clock,
                block_size,
            ),
{
    let promoted = before.with_grains(incoming, timings, keys);
    let ready = promoted.with_kills(kills, fade_lens);
    lemma_grains_keep_clock(before, incoming, timings, keys);
    lemma_kills_keep_clock(promoted, kills, fade_lens);
    lemma_promoted(before, incoming, timings, keys);
    lemma_spared_by_kills(promoted, kills, fade_lens, keys[i]);
    assert(ready.grains.contains_key(keys[i]));
}

/// A grain that was active before a block, and for which no kill comes in it,
/// goes on in it where it was.
pub proof fn law_spared_grain_goes_on(
    before: EngineModel,
    after: EngineModel,
    incoming: Seq<FofParams>,
    timings: Seq<FofTiming>,
    keys: Seq<usize>,
    kills: Seq<FofKillRequest>,
    fade_lens: Seq<u32>,
    plan: Seq<GrainBlock>,
    block_size: int,
    key: usize,
)
    requires
        before.wf(),
        block_step(before, after, incoming, timings, keys, kills, fade_lens, plan, block_size),
        before.grains.contains_key(key),
        spared(kills, before.grains[key].params.id),
    ensures
        exists|j: int|
            #![trigger plan[j]]
            0 <= j < plan.len() && plan[j].key == key && grain_plays(
                before.grains[key],
                plan[j],
                before.clock,
                block_size,
            ),
{
    let promoted = before.with_grains(incoming, timings, keys);
    let ready = promoted.with_kills(kills, fade_lens);
    lemma_grains_keep_clock(before, incoming, timings, keys);
    lemma_kills_keep_clock(promoted, kills, fade_lens);
    lemma_promoted(before, incoming, timings, keys);
    lemma_spared_by_kills(promoted, kills, fade_lens, key);
    assert(ready.grains.contains_key(key));
}

/// The kill requests that had been sent when the kill queue last looked all
/// apply in the block, in the order in which they were sent, before any that the
/// engine sees on the way.
pub proof fn law_kills_sent_before_a_block_apply_in_it<
    F: Fn(FofParams) -> FofTiming,
    G: Fn(u32) -> u32,
>(
    tx: KillQueueProducer,
    before: RfofsEngine,
    after: RfofsEngine,
    plan: Seq<GrainBlock>,
    block_size: int,
    timing_of: F,
    fade_len_of: G,
)
    requires
        tx.wf(),
        before.wf(),
        after.wf(),
        tx.log() == before.kill_rx().log(),
        before.kill_rx().taken() <= tx.sent() <= before.kill_rx().seen(),
        processed(before, after, plan, block_size, timing_of, fade_len_of),
    ensures
        ({
            let kills = newly_killed(before.kill_rx(), after.kill_rx());
            let pending = tx.log().take(tx.sent() as int).skip(
                before.kill_rx().taken() as int,
            );
            &&& pending.len() <= kills.len()
            &&& kills.take(pending.len() as int) == pending
        }),
{
    crate::queue::law_kills_sent_are_drained(
        tx,
        before.kill_rx(),
        after.kill_rx(),
        newly_killed(before.kill_rx(), after.kill_rx()),
    );
}

/// The grain is the only one with its id.
pub open spec fn has_own_id(e: EngineModel, key: usize) -> bool {
    &&& e.grains.contains_key(key)
    &&& e.grains[key].params.id != 0
    &&& forall|other: usize|
        #![trigger e.grains[other]]
        e.grains.contains_key(other) && e.grains[other].params.id == e.grains[key].params.id
            ==> other == key
}

/// The grain's id leads to it, so that a kill request reaches it.
pub open spec fn is_tracked(e: EngineModel, key: usize) -> bool {
    let id = e.grains[key].params.id;
    e.ids.contains_key(id) && e.ids[id] == key
}

/// A grain with an id of its own is tracked from the block that promotes it on
/// and until it dies: a kill request that comes later reaches it.
pub proof fn law_own_id_stays_tracked(
    before: EngineModel,
    after: EngineModel,
    incoming: Seq<FofParams>,
    timings: Seq<FofTiming>,
    keys: Seq<usize>,
    kills: Seq<FofKillRequest>,
    fade_lens: Seq<u32>,
    plan: Seq<GrainBlock>,
    block_size: int,
    key: usize,
)
    requires
        before.wf(),
        block_step(before, after, incoming, timings, keys, kills, fade_lens, plan, block_size),
        has_own_id(before.with_grains(incoming, timings, keys), key),
        before.grains.contains_key(key) ==> is_tracked(before, key),
    ensures
        is_tracked(before.with_grains(incoming, timings, keys), key),
        after.grains.contains_key(key) ==> has_own_id(after, key) && is_tracked(after, key),
        after.grains.contains_key(key) ==> after.grains[key].params == before.with_grains(
            incoming,
            timings,
            keys,
        ).grains[key].params,
{
    let promoted = before.with_grains(incoming, timings, keys);
    let ready = promoted.with_kills(kills, fade_lens);
    let id = promoted.grains[key].params.id;
    lemma_promoted(before, incoming, timings, keys);
    assert(is_tracked(promoted, key)) by {
        assert forall|i: int| #![trigger incoming[i]] 0 <= i < incoming.len() && incoming[i].id
            == id implies keys[i] == key by {
            assert(promoted.grains[keys[i]].params.id == id);
        }
        if before.grains.contains_key(key) {
            assert(promoted.grains[key] == before.grains[key]);
            assert forall|i: int| #![trigger incoming[i]] 0 <= i < incoming.len() implies
                incoming[i].id != id by {
                assert(!before.grains.contains_key(keys[i]));
            }
            lemma_ids_of_promoted(before, incoming, timings, keys, id, -1);
        } else {
            assert(promoted.grains.contains_key(key));
            assert(keys.contains(key));
            let at = choose|at: int| 0 <= at < keys.len() && keys[at] == key;
            assert(promoted.grains[keys[at]] == FofState::spawned(incoming[at], timings[at]));
            assert forall|i: int| #![trigger incoming[i]] 0 <= i < incoming.len() && i
                != at implies incoming[i].id != id by {
                if incoming[i].id == id {
                    assert(keys[i] == keys[at]);
                }
            }
            lemma_ids_of_promoted(before, incoming, timings, keys, id, at);
        }
    }
    lemma_kills_keep_params(promoted, kills, fade_lens);
    if after.grains.contains_key(key) {
        assert(ready.grains.contains_key(key));
        assert forall|k: usize| #![trigger after.grains[k]] after.grains.contains_key(k) implies
            ready.grains.contains_key(k) && after.grains[k].params == ready.grains[k].params
            && promoted.grains.contains_key(k) && ready.grains[k].params
            == promoted.grains[k].params by {
            let grain = ready.grains[k];
            crate::fof::law_phases_only_advance(
                grain,
                crate::fof::samples_wanted(grain.params.start_sample, ready.clock, block_size),
                0,
                0,
            );
            assert(ready.grains.contains_key(k));
            assert(promoted.grains.contains_key(k));
        }
        assert(after.grains[key].params == promoted.grains[key].params);
        let played = ready.played(block_size);
        if played.has_died(id) {
            let k = choose|k: usize|
                #![trigger played.grains[k]]
                played.grains.contains_key(k) && played.grains[k].phase is Dead
                    && played.grains[k].params.id == id;
            let grain = ready.grains[k];
            crate::fof::law_phases_only_advance(
                grain,
                crate::fof::samples_wanted(grain.params.start_sample, ready.clock, block_size),
                0,
                0,
            );
            assert(ready.grains.contains_key(k));
            assert(promoted.grains.contains_key(k));
            assert(promoted.grains[k].params.id == id);
            assert(k == key);
        }
    }
}

/// Where the ids of promoted grains lead: to the one grain, at `at`, that has
/// this id, or, with `at` negative and none that has it, where they led before.
proof fn lemma_ids_of_promoted(
    e: EngineModel,
    incoming: Seq<FofParams>,
    timings: Seq<FofTiming>,
    keys: Seq<usize>,
    id: u64,
    at: int,
)
    requires
        timings.len() == incoming.len(),
        keys.len() == incoming.len(),
        at < incoming.len(),
        id != 0,
        at >= 0 ==> incoming[at].id == id,
        forall|i: int|
            #![trigger incoming[i]]
            0 <= i < incoming.len() && i != at ==> incoming[i].id != id,
    ensures
        ({
            let after = e.with_grains(incoming, timings, keys);
            if at >= 0 {
                after.ids.contains_key(id) && after.ids[id] == keys[at]
            } else {
                after.ids.contains_key(id) == e.ids.contains_key(id) && after.ids[id] == e.ids[id]
            }
        }),
    decreases incoming.len(),
{
    if incoming.len() > 0 {
        let n = incoming.len() - 1;
        let fewer = incoming.drop_last();
        let mid = e.with_grains(fewer, timings.drop_last(), keys.drop_last());
        let after = e.with_grains(incoming, timings, keys);
        assert(after == mid.with_grain(incoming[n], timings[n], keys[n]));
        assert forall|i: int| #![trigger fewer[i]] 0 <= i < fewer.len() && i != at implies
            fewer[i].id != id by {
            assert(fewer[i] == incoming[i]);
        }
        if at < n {
            if at >= 0 {
                assert(fewer[at] == incoming[at]);
            }
            lemma_ids_of_promoted(e, fewer, timings.drop_last(), keys.drop_last(), id, at);
            assert(incoming[n].id != id);
        }
    } else {
        assert(e.with_grains(incoming, timings, keys) == e);
    }
}

/// Kills change neither which grains there are, nor their parameters, nor
/// where ids lead.
pub proof fn lemma_kills_keep_params(
    e: EngineModel,
    kills: Seq<FofKillRequest>,
    fade_lens: Seq<u32>,
)
    requires
        e.wf(),
    ensures
        e.with_kills(kills, fade_lens).wf(),
        e.with_kills(kills, fade_lens).ids == e.ids,
        e.with_kills(kills, fade_lens).grains.dom() == e.grains.dom(),
        forall|key: usize|
            #![trigger e.with_kills(kills, fade_lens).grains[key]]
            #![trigger e.with_kills(kills, fade_lens).grains.contains_key(key)]
            e.with_kills(kills, fade_lens).grains.contains_key(key) ==> e.grains.contains_key(key)
                && e.with_kills(kills, fade_lens).grains[key].params == e.grains[key].params,
    decreases kills.len(),
{
    if kills.len() > 0 {
        let mid = e.with_kills(kills.drop_last(), fade_lens.drop_last());
        let after = e.with_kills(kills, fade_lens);
        lemma_kills_keep_params(e, kills.drop_last(), fade_lens.drop_last());
        law_kill_reaches_only_its_grain(mid, kills.last(), fade_lens.last());
        assert forall|key: usize|
            #![trigger after.grains[key]]
            #![trigger after.grains.contains_key(key)]
            after.grains.contains_key(key) implies e.grains.contains_key(key)
            && after.grains[key].params == e.grains[key].params by {
            assert(mid.grains.dom().contains(key));
            assert(mid.grains.contains_key(key));
            assert(mid.grains[key].params == e.grains[key].params);
            crate::fof::law_phases_only_advance(
                mid.grains[key],
                0,
                kills.last().fade_dur,
                fade_lens.last(),
            );
        }
    } else {
        assert(e.with_kills(kills, fade_lens) == e);
    }
}

/// A grain that a block promotes or finds plays a part in it, and stays with
/// its parameters unless it dies.
pub proof fn law_active_grain_plays_its_part(
    before: EngineModel,
    after: EngineModel,
    incoming: Seq<FofParams>,
    timings: Seq<FofTiming>,
    keys: Seq<usize>,
    kills: Seq<FofKillRequest>,
    fade_lens: Seq<u32>,
    plan: Seq<GrainBlock>,
    block_size: int,
    key: usize,
)
    requires
        before.wf(),
        block_step(before, after, incoming, timings, keys, kills, fade_lens, plan, block_size),
        before.with_grains(incoming, timings, keys).grains.contains_key(key),
    ensures
        exists|j: int|
            #![trigger plan[j]]
            0 <= j < plan.len() && plan[j].key == key && takes_part(
                before.with_grains(incoming, timings, keys).grains[key],
                after,
                kills,
                plan[j],
                before.clock,
                block_size,
            ),
{
    let promoted = before.with_grains(incoming, timings, keys);
    let ready = promoted.with_kills(kills, fade_lens);
    lemma_promoted(before, incoming, timings, keys);
    lemma_grains_keep_clock(before, incoming, timings, keys);
    lemma_kills_keep_clock(promoted, kills, fade_lens);
    lemma_kills_keep_params(promoted, kills, fade_lens);
    let grain = promoted.grains[key];
    if spared(kills, grain.params.id) {
        lemma_spared_by_kills(promoted, kills, fade_lens, key);
    }
    assert(ready.grains.dom().contains(key));
    assert(ready.grains.contains_key(key));
    let j = choose|j: int| #![trigger plan[j]] 0 <= j < plan.len() && plan[j].key == key;
    let now = ready.grains[key];
    crate::fof::law_phases_only_advance(
        now,
        crate::fof::samples_wanted(now.params.start_sample, ready.clock, block_size),
        0,
        0,
    );
    assert(grain_plays(now, plan[j], ready.clock, block_size));
    assert(ready.played(block_size).grains[key] == plan[j].grain);
    assert(takes_part(grain, after, kills, plan[j], before.clock, block_size));
}

/// `part` is what the grain, with the kills that came for it, plays in a block,
/// and `after` has the grain as it is then, unless it is dead.
pub open spec fn takes_part(
    grain: FofState,
    after: EngineModel,
    kills: Seq<FofKillRequest>,
    part: GrainBlock,
    clock: u64,
    block_size: int,
) -> bool {
    &&& part.grain.params == grain.params
    &&& spared(kills, grain.params.id) ==> grain_plays(grain, part, clock, block_size)
    &&& part.grain.phase is Dead ==> !after.grains.contains_key(part.key)
    &&& !(part.grain.phase is Dead) ==> after.grains.contains_key(part.key)
        && after.grains[part.key] == part.grain
}

/// The grain is taken out of a wheel's ring no later than its start, after
/// grains that start no later, and its slot is not full.
pub open spec fn taken_in_time(
    before: TimeWheelConsumer,
    after: TimeWheelConsumer,
    p: FofParams,
    x: int,
) -> bool {
    let entries = newly_taken(before, after);
    &&& 0 <= x < entries.len()
    &&& entries[x] == p
    &&& before@.wheel.wheel_time() <= p.start_sample
    &&& forall|k: int|
        #![trigger entries[k]]
        0 <= k < x ==> entries[k].start_sample <= p.start_sample
    &&& !crate::delivery::slot_is_full(before@, entries, x)
}

/// A grain that starts in a block, and waits in a wheel before it or is taken
/// in time in it, plays in the block, wherever in a slot the block ends. If no
/// kill comes for it, it plays from its first sample on, on the sample that it
/// is to start on.
pub proof fn law_due_grain_plays_in_its_block<F: Fn(FofParams) -> FofTiming, G: Fn(u32) -> u32>(
    before: RfofsEngine,
    after: RfofsEngine,
    plan: Seq<GrainBlock>,
    block_size: int,
    timing_of: F,
    fade_len_of: G,
    w: int,
    p: FofParams,
    x: int,
)
    requires
        before.wf(),
        block_size >= 0,
        processed(before, after, plan, block_size, timing_of, fade_len_of),
        0 <= w < before.wheels().len(),
        before@.clock <= p.start_sample < before@.clock + block_size,
        crate::delivery::waits(before.wheels()[w]@, p) || taken_in_time(
            before.wheels()[w],
            after.wheels()[w],
            p,
            x,
        ),
    ensures
        exists|j: int|
            #![trigger plan[j]]
            0 <= j < plan.len() && plan[j].grain.params == p && (spared(
                newly_killed(before.kill_rx(), after.kill_rx()),
                p.id,
            ) ==> exists|timing: FofTiming|
                call_ensures(timing_of, (p,), timing) && #[trigger] grain_plays(
                    FofState::spawned(p, timing),
                    plan[j],
                    before@.clock,
                    block_size,
                )),
{
    let end = before@.clock + block_size;
    let entries = newly_taken(before.wheels()[w], after.wheels()[w]);
    assert(before.wheels()[w].wf());
    assert(crate::queue::drained_due(before.wheels()[w], after.wheels()[w], entries, end));
    if crate::delivery::waits(before.wheels()[w]@, p) {
        crate::delivery::law_waiting_grain_comes_out_in_its_block(
            before.wheels()[w],
            after.wheels()[w],
            entries,
            end,
            p,
        );
    } else {
        crate::delivery::law_taken_grain_comes_out_in_its_block(
            before.wheels()[w],
            after.wheels()[w],
            entries,
            end,
            x,
        );
    }
    lemma_fired_by_holds(before.wheels(), after.wheels(), end, w, p);
    let incoming = fired_by(before.wheels(), after.wheels(), end);
    let kills = newly_killed(before.kill_rx(), after.kill_rx());
    let (timings, keys, fade_lens) = choose|
        timings: Seq<FofTiming>,
        keys: Seq<usize>,
        fade_lens: Seq<u32>,
    |
        {
            &&& #[trigger] block_step(
                before@,
                after@,
                incoming,
                timings,
                keys,
                kills,
                fade_lens,
                plan,
                block_size,
            )
            &&& forall|i: int|
                #![trigger timings[i]]
                0 <= i < incoming.len() ==> call_ensures(timing_of, (incoming[i],), timings[i])
            &&& forall|i: int|
                #![trigger fade_lens[i]]
                0 <= i < kills.len() ==> call_ensures(
                    fade_len_of,
                    (kills[i].fade_dur,),
                    fade_lens[i],
                )
        };
    let y = choose|y: int| 0 <= y < incoming.len() && incoming[y] == p;
    let key = keys[y];
    let promoted = before@.with_grains(incoming, timings, keys);
    lemma_promoted(before@, incoming, timings, keys);
    law_active_grain_plays_its_part(
        before@,
        after@,
        incoming,
        timings,
        keys,
        kills,
        fade_lens,
        plan,
        block_size,
        key,
    );
    let j = choose|j: int|
        #![trigger plan[j]]
        0 <= j < plan.len() && plan[j].key == key && takes_part(
            promoted.grains[key],
            after@,
            kills,
            plan[j],
            before@.clock,
            block_size,
        );
    assert(promoted.grains[key] == FofState::spawned(p, timings[y]));
    if spared(kills, p.id) {
        assert(call_ensures(timing_of, (p,), timings[y]));
        assert(grain_plays(
            FofState::spawned(p, timings[y]),
            plan[j],
            before@.clock,
            block_size,
        ));
    }
    assert(plan[j].grain.params == p);
}

/// What comes out of one wheel comes out of them all.
proof fn lemma_fired_by_holds(
    before: Seq<TimeWheelConsumer>,
    after: Seq<TimeWheelConsumer>,
    block_end: int,
    w: int,
    p: FofParams,
)
    requires
        after.len() == before.len(),
        0 <= w < before.len(),
        fired_by_one(before[w], after[w], block_end).contains(p),
    ensures
        fired_by(before, after, block_end).contains(p),
    decreases before.len(),
{
    let n = before.len() - 1;
    let first = fired_by(before.drop_last(), after.drop_last(), block_end);
    let last = fired_by_one(before[n], after[n], block_end);
    let all = fired_by(before, after, block_end);
    assert(all == first + last);
    if w == n {
        let i = choose|i: int| 0 <= i < last.len() && last[i] == p;
        assert(all[first.len() + i] == p);
    } else {
        lemma_fired_by_holds(before.drop_last(), after.drop_last(), block_end, w, p);
        let i = choose|i: int| 0 <= i < first.len() && first[i] == p;
        assert(all[i] == p);
    }
}

/// What promoting grains under vacant keys makes of an engine.
pub proof fn lemma_promoted(
    e: EngineModel,
    incoming: Seq<FofParams>,
    timings: Seq<FofTiming>,
    keys: Seq<usize>,
)
    requires
        e.wf(),
        timings.len() == incoming.len(),
        keys.len() == incoming.len(),
        e.vacant(keys),
    ensures
        e.with_grains(incoming, timings, keys).wf(),
        forall|i: int|
            #![trigger keys[i]]
            0 <= i < keys.len() ==> e.with_grains(incoming, timings, keys).grains.contains_key(
                keys[i],
            ) && e.with_grains(incoming, timings, keys).grains[keys[i]] == FofState::spawned(
                incoming[i],
                timings[i],
            ),
        forall|key: usize|
            #![trigger e.with_grains(incoming, timings, keys).grains[key]]
            e.grains.contains_key(key) ==> e.with_grains(
                incoming,
                timings,
                keys,
            ).grains.contains_key(key) && e.with_grains(incoming, timings, keys).grains[key]
                == e.grains[key],
        forall|key: usize|
            #![trigger e.with_grains(incoming, timings, keys).grains.contains_key(key)]
            e.with_grains(incoming, timings, keys).grains.contains_key(key)
                ==> e.grains.contains_key(key) || keys.contains(key),
    decreases incoming.len(),
{
    if incoming.len() > 0 {
        let n = incoming.len() - 1;
        let fewer = keys.drop_last();
        let mid = e.with_grains(incoming.drop_last(), timings.drop_last(), fewer);
        let after = e.with_grains(incoming, timings, keys);
        assert(e.vacant(fewer)) by {
            assert forall|i: int| #![trigger fewer[i]] 0 <= i < fewer.len() implies
                !e.grains.contains_key(fewer[i]) by {
                assert(fewer[i] == keys[i]);
            }
            assert(fewer.no_duplicates()) by {
                assert forall|a: int, b: int|
                    0 <= a < fewer.len() && 0 <= b < fewer.len() && a != b implies fewer[a]
                    != fewer[b] by {
                    assert(keys[a] != keys[b]);
                }
            }
        }
        lemma_promoted(e, incoming.drop_last(), timings.drop_last(), fewer);
        assert(after == mid.with_grain(incoming[n], timings[n], keys[n]));
        if mid.grains.contains_key(keys[n]) {
            assert(fewer.contains(keys[n]));
            let a = choose|a: int| 0 <= a < fewer.len() && fewer[a] == keys[n];
            assert(keys[a] == keys[n]);
        }
        assert forall|i: int| #![trigger keys[i]] 0 <= i < keys.len() implies
            after.grains.contains_key(keys[i]) && after.grains[keys[i]] == FofState::spawned(
            incoming[i],
            timings[i],
        ) by {
            if i < n {
                assert(fewer[i] == keys[i]);
                assert(keys[i] != keys[n]);
            }
        }
        assert forall|key: usize|
            #![trigger after.grains[key]]
            #![trigger after.grains.contains_key(key)]
            e.grains.contains_key(key) implies after.grains.contains_key(key)
            && after.grains[key] == e.grains[key] by {
            assert(mid.grains[key] == e.grains[key]);
            assert(keys[n] != key);
        }
        assert forall|key: usize| #![trigger after.grains.contains_key(key)]
            after.grains.contains_key(key) implies e.grains.contains_key(key) || keys.contains(
            key,
        ) by {
            if key == keys[n] {
                assert(keys[n] == key);
            } else {
                assert(mid.grains.contains_key(key));
                if fewer.contains(key) {
                    let a = choose|a: int| 0 <= a < fewer.len() && fewer[a] == key;
                    assert(keys[a] == key);
                }
            }
        }
        assert forall|id: u64| #![trigger after.ids.contains_key(id)] after.ids.contains_key(
            id,
        ) implies id != 0 && after.grains.contains_key(after.ids[id])
            && after.grains[after.ids[id]].params.id == id by {
            if id != incoming[n].id {
                assert(mid.ids.contains_key(id));
            }
        }
    } else {
        assert(e.with_grains(incoming, timings, keys) == e);
    }
}

/// Kills leave a grain that they spare as it is.
proof fn lemma_spared_by_kills(
    e: EngineModel,
    kills: Seq<FofKillRequest>,
    fade_lens: Seq<u32>,
    key: usize,
)
    requires
        e.wf(),
        e.grains.contains_key(key),
        spared(kills, e.grains[key].params.id),
    ensures
        e.with_kills(kills, fade_lens).wf(),
        e.with_kills(kills, fade_lens).grains.contains_key(key),
        e.with_kills(kills, fade_lens).grains[key] == e.grains[key],
    decreases kills.len(),
{
    if kills.len() > 0 {
        let fewer = kills.drop_last();
        let mid = e.with_kills(fewer, fade_lens.drop_last());
        let id = e.grains[key].params.id;
        assert(spared(fewer, id)) by {
            if id != 0 {
                assert forall|i: int| #![trigger fewer[i]] 0 <= i < fewer.len() implies fewer[i].id
                    != id by {
                    assert(fewer[i] == kills[i]);
                }
            }
        }
        lemma_spared_by_kills(e, fewer, fade_lens.drop_last(), key);
        let last = kills[kills.len() - 1];
        law_kill_reaches_only_its_grain(mid, last, fade_lens.last());
        assert(mid.ids.contains_key(last.id) ==> last.id != 0);
    }
}

/// A grain stands where it should at the start of a block: before its start it
/// has not sounded, and from then on it has given a sample for each that passed.
pub open spec fn is_on_time(grain: FofState, clock: u64) -> bool {
    if clock <= grain.params.start_sample {
        grain.t == 0
    } else {
        grain.t == clock - grain.params.start_sample
    }
}

/// Every sample that a grain which is on time plays in a block lies as far behind
/// the grain's start as its number says, inside the block, and is in the phase
/// that the grain has at that number.
#[verifier::rlimit(30)]
pub proof fn law_samples_are_on_time(
    grain: FofState,
    part: GrainBlock,
    clock: u64,
    block_size: nat,
    i: int,
    k: int,
)
    requires
        grain_plays(grain, part, clock, block_size as int),
        is_on_time(grain, clock),
        grain.t + block_size <= u32::MAX,
        clock + block_size <= u64::MAX,
        0 <= i < part.runs@.len(),
        0 <= k < part.runs@[i].len,
    ensures
        ({
            let run = part.runs@[i];
            &&& clock + run.offset + k == grain.params.start_sample + run.t + k
            &&& run.offset + k < block_size
            &&& 0 <= run.t + k - grain.t < grain.samples(block_size).len()
            &&& run.phase == grain.samples(block_size)[run.t + k - grain.t].phase
            &&& !(run.phase is Dead)
        }),
{
    let start = grain.params.start_sample;
    let runs = part.runs@;
    let from = crate::fof::start_offset(start, clock);
    let n = crate::fof::samples_wanted(start, clock, block_size as int);
    let at = runs[i].offset + k - from;
    crate::fof::law_samples_count_up(grain, n);
    lemma_run_stays_in_range(grain, part, clock, block_size, i);
    crate::fof::law_runs_place_their_samples(runs, from, i, k);
    assert(grain.samples(n)[at].t == grain.t + at);
    lemma_more_samples(grain, n, block_size, at);
}

proof fn lemma_more_samples(grain: FofState, n: nat, m: nat, at: int)
    requires
        n <= m,
        0 <= at < grain.samples(n).len(),
    ensures
        at < grain.samples(m).len(),
        grain.samples(m)[at] == grain.samples(n)[at],
{
    crate::fof::law_playing_is_continuous(grain, n, (m - n) as nat);
    assert(n + (m - n) as nat == m);
}

/// What a grain that is on time plays in a block begins with the grain's start or
/// with the block, and goes on to the end of the block unless the grain dies; the
/// grain is then on time for the next block. One that starts later plays nothing
/// and is left as it is.
pub proof fn law_part_is_on_time(grain: FofState, part: GrainBlock, clock: u64, block_size: nat)
    requires
        grain_plays(grain, part, clock, block_size as int),
        is_on_time(grain, clock),
        grain.t + block_size <= u32::MAX,
        clock + block_size <= u64::MAX,
    ensures
        part.grain.params == grain.params,
        part.runs@.len() > 0 ==> clock + part.runs@[0].offset == (if grain.params.start_sample
            > clock {
            grain.params.start_sample
        } else {
            clock
        }),
        !(part.grain.phase is Dead) && grain.params.start_sample < clock + block_size
            && block_size > 0 ==> part.runs@.len() > 0 && part.runs@.last().offset
            + part.runs@.last().len == block_size,
        grain.params.start_sample >= clock + block_size ==> part.runs@.len() == 0 && part.grain
            == grain,
        !(part.grain.phase is Dead) ==> is_on_time(part.grain, (clock + block_size) as u64),
{
    let start = grain.params.start_sample;
    let runs = part.runs@;
    let from = crate::fof::start_offset(start, clock);
    let n = crate::fof::samples_wanted(start, clock, block_size as int);
    crate::fof::law_phases_only_advance(grain, n, 0, 0);
    crate::fof::law_samples_count_up(grain, n);
    crate::fof::law_runs_end_with_their_samples(runs, from);
    if runs.len() > 0 {
        assert(runs[0].len > 0);
    }
}

/// The numbers of a run's samples are within the range of the counter.
proof fn lemma_run_stays_in_range(
    grain: FofState,
    part: GrainBlock,
    clock: u64,
    block_size: nat,
    i: int,
)
    requires
        grain_plays(grain, part, clock, block_size as int),
        grain.t + block_size <= u32::MAX,
        0 <= i < part.runs@.len(),
    ensures
        part.runs@[i].t + part.runs@[i].len <= u32::MAX + 1,
{
    let runs = part.runs@;
    let start = grain.params.start_sample;
    let n = crate::fof::samples_wanted(start, clock, block_size as int);
    crate::fof::law_samples_count_up(grain, n);
    assert(runs[i].len > 0);
    let at = run_samples_before(runs, i);
    lemma_run_in_samples(runs, i);
    assert(crate::fof::run_samples(runs)[at].t == runs[i].t);
}

spec fn run_samples_before(runs: Seq<crate::fof::FofRun>, i: int) -> int {
    crate::fof::run_samples(runs.take(i)).len() as int
}

proof fn lemma_run_in_samples(runs: Seq<crate::fof::FofRun>, i: int)
    requires
        0 <= i < runs.len(),
        runs[i].len > 0,
    ensures
        0 <= run_samples_before(runs, i),
        run_samples_before(runs, i) + runs[i].len <= crate::fof::run_samples(runs).len(),
        crate::fof::run_samples(runs)[run_samples_before(runs, i)].t == runs[i].t,
    decreases runs.len(),
{
    let fewer = runs.drop_last();
    if i < runs.len() - 1 {
        lemma_run_in_samples(fewer, i);
        assert(fewer.take(i) =~= runs.take(i));
        assert(fewer[i] == runs[i]);
    } else {
        assert(runs.take(i) =~= fewer);
    }
}

/// The plan of a block has one part for each grain that was active before the
/// block or is promoted in it, in the order of their keys, and no other part.
pub proof fn law_plan_has_each_grain_once(
    before: EngineModel,
    after: EngineModel,
    incoming: Seq<FofParams>,
    timings: Seq<FofTiming>,
    keys: Seq<usize>,
    kills: Seq<FofKillRequest>,
    fade_lens: Seq<u32>,
    plan: Seq<GrainBlock>,
    block_size: int,
)
    requires
        before.wf(),
        block_step(before, after, incoming, timings, keys, kills, fade_lens, plan, block_size),
    ensures
        forall|i: int, j: int|
            #![trigger plan[i], plan[j]]
            0 <= i < j < plan.len() ==> plan[i].key < plan[j].key,
        forall|j: int|
            #![trigger plan[j]]
            0 <= j < plan.len() ==> before.grains.contains_key(plan[j].key) || keys.contains(
                plan[j].key,
            ),
        forall|key: usize|
            #![trigger before.grains.contains_key(key)]
            #![trigger keys.contains(key)]
            before.grains.contains_key(key) || keys.contains(key) ==> exists|j: int|
                #![trigger plan[j]]
                0 <= j < plan.len() && plan[j].key == key,
        forall|i: int|
            #![trigger keys[i]]
            0 <= i < incoming.len() ==> !before.grains.contains_key(keys[i]),
{
    let promoted = before.with_grains(incoming, timings, keys);
    let ready = promoted.with_kills(kills, fade_lens);
    lemma_promoted(before, incoming, timings, keys);
    lemma_kills_keep_params(promoted, kills, fade_lens);
    assert forall|j: int| #![trigger plan[j]] 0 <= j < plan.len() implies
        before.grains.contains_key(plan[j].key) || keys.contains(plan[j].key) by {
        assert(ready.grains.contains_key(plan[j].key));
        assert(promoted.grains.contains_key(plan[j].key));
    }
    assert forall|key: usize|
        #![trigger before.grains.contains_key(key)]
        #![trigger keys.contains(key)]
        before.grains.contains_key(key) || keys.contains(key) implies exists|j: int|
        #![trigger plan[j]]
        0 <= j < plan.len() && plan[j].key == key by {
        if keys.contains(key) {
            let i = choose|i: int| 0 <= i < keys.len() && keys[i] == key;
            assert(promoted.grains.contains_key(keys[i]));
        } else {
            assert(promoted.grains[key] == before.grains[key]);
        }
        assert(promoted.grains.dom().contains(key));
        assert(ready.grains.dom().contains(key));
        assert(ready.grains.contains_key(key));
    }
}

/// An id leads to the last grain with it that was promoted; where none was, it
/// leads where it led. Id 0 leads nowhere.
pub proof fn law_id_leads_to_the_last_promoted(
    e: EngineModel,
    incoming: Seq<FofParams>,
    timings: Seq<FofTiming>,
    keys: Seq<usize>,
    id: u64,
    i: int,
)
    requires
        e.wf(),
        timings.len() == incoming.len(),
        keys.len() == incoming.len(),
        e.vacant(keys),
        -1 <= i < incoming.len(),
        i >= 0 ==> incoming[i].id == id,
        forall|j: int| #![trigger incoming[j]] i < j < incoming.len() ==> incoming[j].id != id,
    ensures
        ({
            let after = e.with_grains(incoming, timings, keys);
            &&& id == 0 ==> !after.ids.contains_key(id)
            &&& id != 0 && i >= 0 ==> after.ids.contains_key(id) && after.ids[id] == keys[i]
            &&& i < 0 ==> after.ids.contains_key(id) == e.ids.contains_key(id) && (
            e.ids.contains_key(id) ==> after.ids[id] == e.ids[id])
        }),
    decreases incoming.len(),
{
    lemma_promoted(e, incoming, timings, keys);
    if id != 0 && incoming.len() > 0 && i < incoming.len() - 1 {
        let fewer = incoming.drop_last();
        let rest = keys.drop_last();
        assert forall|j: int| #![trigger fewer[j]] i < j < fewer.len() implies fewer[j].id
            != id by {
            assert(fewer[j] == incoming[j]);
        }
        if i >= 0 {
            assert(fewer[i] == incoming[i]);
        }
        assert(e.vacant(rest)) by {
            assert forall|j: int| #![trigger rest[j]] 0 <= j < rest.len() implies
                !e.grains.contains_key(rest[j]) by {
                assert(rest[j] == keys[j]);
            }
            assert(rest.no_duplicates()) by {
                assert forall|a: int, b: int|
                    0 <= a < rest.len() && 0 <= b < rest.len() && a != b implies rest[a]
                    != rest[b] by {
                    assert(keys[a] != keys[b]);
                }
            }
        }
        law_id_leads_to_the_last_promoted(e, fewer, timings.drop_last(), rest, id, i);
        assert(incoming[incoming.len() - 1].id != id);
    }
}

/// Of the kill requests of a block for a grain that its id leads to, the first
/// one counts: the grain is killed with its duration and ramp. Where there is
/// none the grain is left as it is.
pub proof fn law_first_kill_of_a_grain_counts(
    e: EngineModel,
    kills: Seq<FofKillRequest>,
    fade_lens: Seq<u32>,
    id: u64,
    i: int,
)
    requires
        e.wf(),
        e.ids.contains_key(id),
        fade_lens.len() == kills.len(),
        0 <= i <= kills.len(),
        i < kills.len() ==> kills[i].id == id,
        forall|j: int| #![trigger kills[j]] 0 <= j < i ==> kills[j].id != id,
    ensures
        ({
            let grain = e.grains[e.ids[id]];
            let after = e.with_kills(kills, fade_lens).grains[e.ids[id]];
            after == (if i < kills.len() {
                grain.killed(kills[i].fade_dur, fade_lens[i])
            } else {
                grain
            })
        }),
    decreases kills.len(),
{
    let key = e.ids[id];
    if kills.len() > 0 {
        let n = kills.len() - 1;
        let fewer = kills.drop_last();
        let lens = fade_lens.drop_last();
        let mid = e.with_kills(fewer, lens);
        lemma_kills_keep_params(e, fewer, lens);
        assert(e.grains.dom().contains(key));
        assert(mid.grains.contains_key(key));
        assert forall|j: int| #![trigger fewer[j]] 0 <= j < i && j < fewer.len() implies fewer[j].id
            != id by {
            assert(fewer[j] == kills[j]);
        }
        if i < n {
            assert(fewer[i] == kills[i]);
            law_first_kill_of_a_grain_counts(e, fewer, lens, id, i);
            crate::fof::law_kill_begins_a_ramp_in_place(
                e.grains[key],
                kills[i].fade_dur,
                fade_lens[i],
            );
            crate::fof::law_kill_begins_a_ramp_in_place(
                mid.grains[key],
                kills[n].fade_dur,
                fade_lens[n],
            );
        } else {
            law_first_kill_of_a_grain_counts(e, fewer, lens, id, n);
        }
        law_kill_reaches_only_its_grain(mid, kills[n], fade_lens[n]);
        if kills[n].id != id {
            assert(mid.grains[key].params.id == id);
            assert(mid.with_kill(kills[n], fade_lens[n]).grains[key] == mid.grains[key]);
        }
    }
}

/// What plays in a block was active before it, or comes out of one of the wheels
/// in it: it waited there before, or was taken out of the wheel's ring.
pub proof fn law_nothing_plays_unasked<F: Fn(FofParams) -> FofTiming, G: Fn(u32) -> u32>(
    before: RfofsEngine,
    after: RfofsEngine,
    plan: Seq<GrainBlock>,
    block_size: int,
    timing_of: F,
    fade_len_of: G,
    j: int,
)
    requires
        before.wf(),
        block_size >= 0,
        processed(before, after, plan, block_size, timing_of, fade_len_of),
        0 <= j < plan.len(),
    ensures
        ({
            let p = plan[j].grain.params;
            ||| before@.grains.contains_key(plan[j].key) && before@.grains[plan[j].key].params == p
            ||| exists|w: int|
                #![trigger before.wheels()[w]]
                0 <= w < before.wheels().len() && (crate::delivery::waits(
                    before.wheels()[w]@,
                    p,
                ) || newly_taken(before.wheels()[w], after.wheels()[w]).contains(p))
        }),
{
    let end = before@.clock + block_size;
    let incoming = fired_by(before.wheels(), after.wheels(), end);
    let kills = newly_killed(before.kill_rx(), after.kill_rx());
    let (timings, keys, fade_lens) = choose|
        timings: Seq<FofTiming>,
        keys: Seq<usize>,
        fade_lens: Seq<u32>,
    |
        #[trigger] block_step(
            before@,
            after@,
            incoming,
            timings,
            keys,
            kills,
            fade_lens,
            plan,
            block_size,
        );
    let promoted = before@.with_grains(incoming, timings, keys);
    let ready = promoted.with_kills(kills, fade_lens);
    let key = plan[j].key;
    let p = plan[j].grain.params;
    lemma_promoted(before@, incoming, timings, keys);
    lemma_kills_keep_params(promoted, kills, fade_lens);
    assert(ready.grains.contains_key(key));
    assert(promoted.grains.contains_key(key));
    let now = ready.grains[key];
    crate::fof::law_phases_only_advance(
        now,
        crate::fof::samples_wanted(now.params.start_sample, ready.clock, block_size),
        0,
        0,
    );
    assert(grain_plays(now, plan[j], ready.clock, block_size));
    assert(p == promoted.grains[key].params);
    if before@.grains.contains_key(key) {
        assert(promoted.grains[key] == before@.grains[key]);
    } else {
        let i = choose|i: int| 0 <= i < keys.len() && keys[i] == key;
        assert(promoted.grains[keys[i]] == FofState::spawned(incoming[i], timings[i]));
        crate::fof::law_new_grain_is_as_asked_for(incoming[i], timings[i]);
        assert(incoming[i] == p);
        let w = lemma_fired_by_comes_from(before.wheels(), after.wheels(), end, i);
        assert(before.wheels()[w].wf());
        assert(crate::queue::drained_due(
            before.wheels()[w],
            after.wheels()[w],
            newly_taken(before.wheels()[w], after.wheels()[w]),
            end,
        ));
        crate::delivery::law_drain_invents_no_grain(
            before.wheels()[w],
            after.wheels()[w],
            newly_taken(before.wheels()[w], after.wheels()[w]),
            end,
            p,
        );
    }
}

/// What comes out of the wheels comes out of one of them.
proof fn lemma_fired_by_comes_from(
    before: Seq<TimeWheelConsumer>,
    after: Seq<TimeWheelConsumer>,
    block_end: int,
    i: int,
) -> (w: int)
    requires
        after.len() == before.len(),
        0 <= i < fired_by(before, after, block_end).len(),
    ensures
        0 <= w < before.len(),
        fired_by_one(before[w], after[w], block_end).contains(
            fired_by(before, after, block_end)[i],
        ),
    decreases before.len(),
{
    let n = before.len() - 1;
    let first = fired_by(before.drop_last(), after.drop_last(), block_end);
    let last = fired_by_one(before[n], after[n], block_end);
    if i < first.len() {
        let w = lemma_fired_by_comes_from(before.drop_last(), after.drop_last(), block_end, i);
        assert(before.drop_last()[w] == before[w]);
        assert(after.drop_last()[w] == after[w]);
        w
    } else {
        assert(last[i - first.len()] == fired_by(before, after, block_end)[i]);
        n
    }
}

/// What comes out of the wheels comes out wheel by wheel: for one wheel it is
/// what it hands out, and for two groups of wheels what the first hands out and
/// then what the second does.
pub proof fn law_wheels_are_drained_one_by_one(
    first: Seq<TimeWheelConsumer>,
    first_after: Seq<TimeWheelConsumer>,
    more: Seq<TimeWheelConsumer>,
    more_after: Seq<TimeWheelConsumer>,
    block_end: int,
)
    requires
        first_after.len() == first.len(),
        more_after.len() == more.len(),
    ensures
        fired_by(first + more, first_after + more_after, block_end) == fired_by(
            first,
            first_after,
            block_end,
        ) + fired_by(more, more_after, block_end),
        first.len() == 0 ==> fired_by(first, first_after, block_end).len() == 0,
        first.len() == 1 ==> fired_by(first, first_after, block_end) == first[0]@.fired_through(
            newly_taken(first[0], first_after[0]),
            block_end,
        ) + first[0]@.through(newly_taken(first[0], first_after[0]), block_end).due(block_end),
    decreases more.len(),
{
    reveal_with_fuel(fired_by, 2);
    if first.len() == 1 {
        assert(first.drop_last() =~= Seq::<TimeWheelConsumer>::empty());
        assert(fired_by(first, first_after, block_end) =~= fired_by_one(
            first[0],
            first_after[0],
            block_end,
        ));
    }
    if more.len() == 0 {
        assert(first + more =~= first);
        assert(first_after + more_after =~= first_after);
        assert(fired_by(first, first_after, block_end) + Seq::<FofParams>::empty() =~= fired_by(
            first,
            first_after,
            block_end,
        ));
    } else {
        law_wheels_are_drained_one_by_one(
            first,
            first_after,
            more.drop_last(),
            more_after.drop_last(),
            block_end,
        );
        assert((first + more).drop_last() =~= first + more.drop_last());
        assert((first_after + more_after).drop_last() =~= first_after + more_after.drop_last());
        assert((first + more).last() == more.last());
        assert((first_after + more_after).last() == more_after.last());
        assert(fired_by(first + more, first_after + more_after, block_end) =~= fired_by(
            first,
            first_after,
            block_end,
        ) + fired_by(more, more_after, block_end));
    }
}

/// A block can be processed if and only if its end is a time that the clock can
/// show and every wheel can be drained up to it.
pub proof fn law_block_can_be_processed_within_time(engine: RfofsEngine, block_size: int)
    ensures
        engine.can_process(block_size) <==> engine@.clock + block_size <= u64::MAX && forall|
            w: int,
        |
            #![trigger engine.wheels()[w]]
            0 <= w < engine.wheels().len() ==> engine.wheels()[w]@.fits(
                engine@.clock + block_size,
            ),
{
}

/// An id that leads to a grain leads there after a block too, unless a grain
/// with this id dies in the block: then it leads nowhere. A block makes no id
/// lead anywhere else.
pub proof fn law_ids_are_kept_until_death(
    before: EngineModel,
    after: EngineModel,
    incoming: Seq<FofParams>,
    timings: Seq<FofTiming>,
    keys: Seq<usize>,
    kills: Seq<FofKillRequest>,
    fade_lens: Seq<u32>,
    plan: Seq<GrainBlock>,
    block_size: int,
    id: u64,
)
    requires
        before.wf(),
        block_step(before, after, incoming, timings, keys, kills, fade_lens, plan, block_size),
    ensures
        ({
            let promoted = before.with_grains(incoming, timings, keys);
            let died = exists|j: int|
                #![trigger plan[j]]
                0 <= j < plan.len() && plan[j].grain.params.id == id && plan[j].grain.phase
                    is Dead;
            &&& after.ids.contains_key(id) <==> promoted.ids.contains_key(id) && !died
            &&& after.ids.contains_key(id) ==> after.ids[id] == promoted.ids[id]
        }),
{
    let promoted = before.with_grains(incoming, timings, keys);
    let ready = promoted.with_kills(kills, fade_lens);
    let played = ready.played(block_size);
    lemma_promoted(before, incoming, timings, keys);
    lemma_kills_keep_params(promoted, kills, fade_lens);
    if played.has_died(id) {
        let key = choose|key: usize|
            #![trigger played.grains[key]]
            played.grains.contains_key(key) && played.grains[key].phase is Dead
                && played.grains[key].params.id == id;
        assert(ready.grains.contains_key(key));
        let j = choose|j: int| #![trigger plan[j]] 0 <= j < plan.len() && plan[j].key == key;
        assert(plan[j].grain == played.grains[key]);
    }
    if exists|j: int|
        #![trigger plan[j]]
        0 <= j < plan.len() && plan[j].grain.params.id == id && plan[j].grain.phase is Dead {
        let j = choose|j: int|
            #![trigger plan[j]]
            0 <= j < plan.len() && plan[j].grain.params.id == id && plan[j].grain.phase is Dead;
        assert(ready.grains.contains_key(plan[j].key));
        assert(played.grains[plan[j].key] == plan[j].grain);
    }
}

} // verus!
