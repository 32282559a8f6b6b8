//! Offline rendering: which blocks are rendered when grains are submitted in
//! order of their start, and when the rendering is over.
use crate::engine::{EngineModel, GrainBlock, RfofsEngine};
use crate::fof::{FofParams, FofTiming};
use crate::pan::PanMode;
use crate::queue::{kill_queue, time_wheel, TimeWheelConsumer, TimeWheelProducer};
use crate::schedule::{ScheduleModel, StatsModel};
use crate::wheel::WheelModel;
use vstd::prelude::*;

verus! {

/// Longest tail that is rendered after the last grain, in seconds.
pub const MAX_TAIL_SECONDS: usize = 30;

/// How far ahead of its clock the schedule looks, in samples.
pub const LOOKAHEAD: u64 = 65536;

/// `after` is what a block with this plan makes of `before`, which may have
/// looked at the ring before it.
pub open spec fn block_rendered<F: Fn(FofParams) -> FofTiming, G: Fn(u32) -> u32>(
    before: RfofsEngine,
    after: RfofsEngine,
    plan: Seq<GrainBlock>,
    block_size: int,
    timing_of: F,
    fade_len_of: G,
) -> bool {
    &&& after@.clock == before@.clock + block_size
    &&& exists|seen: RfofsEngine|
        {
            &&& seen.wf()
            &&& crate::engine::looked(before, seen)
            &&& #[trigger] crate::engine::processed(
                seen,
                after,
                plan,
                block_size,
                timing_of,
                fade_len_of,
            )
        }
}

/// `plans` are the plans of consecutive blocks, and `states` the engine before
/// each of them and after the last.
pub open spec fn rendered<F: Fn(FofParams) -> FofTiming, G: Fn(u32) -> u32>(
    states: Seq<RfofsEngine>,
    plans: Seq<Vec<GrainBlock>>,
    block_size: int,
    timing_of: F,
    fade_len_of: G,
) -> bool {
    &&& states.len() == plans.len() + 1
    &&& forall|k: int| #![trigger states[k]] 0 <= k < states.len() ==> states[k].wf()
    &&& forall|k: int|
        #![trigger plans[k]]
        0 <= k < plans.len() ==> block_rendered(
            states[k],
            states[k + 1],
            plans[k]@,
            block_size,
            timing_of,
            fade_len_of,
        )
}

/// The first `n` blocks are rendered as long as a grain at `start` is more
/// than a block ahead of the clock, and no longer.
pub open spec fn just_behind(states: Seq<RfofsEngine>, n: int, start: u64, block_size: int) -> bool {
    &&& forall|k: int|
        #![trigger states[k]]
        0 <= k < n ==> start > states[k]@.clock + block_size
    &&& start <= states[n]@.clock + block_size
}

/// `plans` are the blocks that take the engine to just behind a grain at
/// `start`, once it has seen all of the `sent` grains.
pub open spec fn caught_up<F: Fn(FofParams) -> FofTiming, G: Fn(u32) -> u32>(
    before: RfofsEngine,
    after: RfofsEngine,
    plans: Seq<Vec<GrainBlock>>,
    sent: nat,
    start: u64,
    block_size: int,
    timing_of: F,
    fade_len_of: G,
) -> bool {
    exists|states: Seq<RfofsEngine>|
        {
            &&& #[trigger] rendered(states, plans, block_size, timing_of, fade_len_of)
            &&& crate::engine::looked(before, states[0])
            &&& states[0].wheels()[0].seen() == sent
            &&& in_line(states[0], sent - 1)
            &&& states.last() == after
            &&& just_behind(states, plans.len() as int, start, block_size)
        }
}

/// The blocks that close a rendering: as many as it takes until the next one
/// reaches past `last`, one more, and then as long as a grain is active or
/// waits, but not more than `max_extra`.
pub open spec fn closing(
    states: Seq<RfofsEngine>,
    reach: int,
    last: u64,
    block_size: int,
    max_extra: int,
) -> bool {
    let n = states.len() - 1;
    &&& 0 <= reach < n
    &&& forall|k: int|
        #![trigger states[k]]
        0 <= k < reach ==> states[k]@.clock + block_size <= last
    &&& states[reach]@.clock + block_size > last
    &&& n - (reach + 1) <= max_extra
    &&& forall|k: int|
        #![trigger states[k]]
        reach + 1 <= k < n ==> !is_silent(states[k])
    &&& n - (reach + 1) < max_extra ==> is_silent(states[n])
}

/// No grain is active and none waits.
pub open spec fn is_silent(engine: RfofsEngine) -> bool {
    &&& engine@.grains.dom().len() == 0
    &&& engine.wheels()[0]@.wheel.pending.flatten().len() == 0
}

/// Offline FOF synthesiser.
///
/// FOFs are submitted in order of their start. Blocks are rendered on demand,
/// driven by each FOF's start. Closing renders what remains.
pub struct OfflineRenderer {
    engine: RfofsEngine,
    wheel_tx: TimeWheelProducer,
    /// Samples per second, whole.
    sample_rate: usize,
    block_size: usize,
    /// Largest start seen so far.
    last_start_sample: u64,
}

/// Clock and wheel of an engine that renders offline go together.
pub open spec fn in_step(engine: RfofsEngine) -> bool {
    &&& engine.wheels().len() == 1
    &&& engine.wheels()[0]@.wheel.slot_duration == 256
    &&& engine.wheels()[0]@.wheel.slot_capacity == 64
    &&& engine.wheels()[0]@.wheel.pending.len() == 256
    &&& engine.wheels()[0]@.wheel.slot_index * 256 <= engine@.clock
}

/// The grains submitted so far are in order, up to `last`, the engine has seen
/// them all, and those that it has not taken do not start behind its clock.
pub open spec fn lined_up(engine: RfofsEngine, tx: TimeWheelProducer, last: u64) -> bool {
    let wheel = engine.wheels()[0];
    let sent = tx.log().take(tx.sent() as int);
    &&& tx.wf()
    &&& crate::queue::one_ring(tx, wheel)
    &&& tx.log() == wheel.log()
    &&& tx.sent() <= wheel.seen()
    &&& crate::delivery::in_start_order(sent)
    &&& forall|i: int| #![trigger sent[i]] 0 <= i < sent.len() ==> sent[i].start_sample <= last
    &&& forall|i: int|
        #![trigger sent[i]]
        wheel.taken() <= i < sent.len() ==> sent[i].start_sample >= engine@.clock
}

impl OfflineRenderer {
    pub closed spec fn engine(&self) -> RfofsEngine {
        self.engine
    }

    /// Where grains are submitted.
    pub closed spec fn ingress(&self) -> TimeWheelProducer {
        self.wheel_tx
    }

    pub closed spec fn block_frames(&self) -> usize {
        self.block_size
    }

    pub closed spec fn frames_per_second(&self) -> usize {
        self.sample_rate
    }

    /// Largest start seen so far.
    pub closed spec fn last_start(&self) -> u64 {
        self.last_start_sample
    }

    pub open spec fn wf(&self) -> bool {
        &&& self.engine().wf()
        &&& in_step(self.engine())
        &&& lined_up(self.engine(), self.ingress(), self.last_start())
        &&& self.block_frames() > 0
        &&& self.frames_per_second() * MAX_TAIL_SECONDS <= usize::MAX
        &&& self.engine()@.clock <= self.last_start()
    }

    /// A block that starts at `clock` and all it looks at is representable.
    pub open spec fn reaches(&self, clock: int) -> bool {
        clock + self.block_frames() + LOOKAHEAD <= u64::MAX
    }

    /// Set up a renderer.
    pub fn open(sample_rate: usize, pan_mode: PanMode, block_size: usize) -> (r: OfflineRenderer)
        requires
            block_size > 0,
            sample_rate * MAX_TAIL_SECONDS <= usize::MAX,
        ensures
            r.wf(),
            r.block_frames() == block_size,
            r.frames_per_second() == sample_rate,
            r.last_start() == 0,
            r.ingress().sent() == 0,
            r.ingress().capacity() == 4096,
            r.engine().mode() == pan_mode,
            r.engine()@ == (EngineModel { clock: 0, grains: Map::empty(), ids: Map::empty() }),
            r.engine().wheels().len() == 1,
            r.engine().wheels()[0].taken() == 0,
            r.engine().wheels()[0].seen() == 0,
            r.engine().kill_rx().taken() == 0,
            r.engine().kill_rx().seen() == 0,
            r.engine().wheels()[0]@ == (ScheduleModel {
                wheel: WheelModel {
                    slot_index: 0,
                    slot_duration: 256,
                    slot_capacity: 64,
                    pending: Seq::new(256, |j: int| Seq::empty()),
                },
                stats: StatsModel::zero(256),
            }),
    {
        let (wheel_tx, wheel_rx) = time_wheel(4096, 256, 256, 64);
        let (_kill_tx, kill_rx) = kill_queue(256);
        let mut wheels: Vec<TimeWheelConsumer> = Vec::with_capacity(1);
        wheels.push(wheel_rx);
        let engine: RfofsEngine = RfofsEngine::new(pan_mode, 4096, wheels, kill_rx);
        OfflineRenderer { engine, wheel_tx, sample_rate, block_size, last_start_sample: 0 }
    }

    /// The engine's clock.
    pub fn sample_clock(&self) -> (t: u64)
        ensures
            t == self.engine()@.clock,
    {
        self.engine.sample_clock()
    }

    /// Largest start seen so far.
    pub fn last_start_sample(&self) -> (t: u64)
        ensures
            t == self.last_start(),
    {
        self.last_start_sample
    }

    /// Submit a FOF for synthesis, and say which blocks were rendered.
    ///
    /// `params.start_sample` must not be below that of the previously
    /// submitted FOF. The engine's clock is kept just behind it: a block is
    /// rendered whenever `start_sample > clock + block_size`.
    ///
    /// Gives the FOF back, with nothing rendered, if the schedule is full: if
    /// as many FOFs wait to be taken as it holds.
    pub fn add_fof<F: Fn(FofParams) -> FofTiming + Copy, G: Fn(u32) -> u32 + Copy>(
        &mut self,
        params: FofParams,
        timing_of: F,
        fade_len_of: G,
    ) -> (r: Result<Vec<Vec<GrainBlock>>, FofParams>)
        requires
            old(self).wf(),
            params.start_sample >= old(self).last_start(),
            old(self).reaches(params.start_sample as int),
            forall|params: FofParams| call_requires(timing_of, (params,)),
            forall|fade_dur: u32| call_requires(fade_len_of, (fade_dur,)),
        ensures
            final(self).wf(),
            final(self).block_frames() == old(self).block_frames(),
            final(self).frames_per_second() == old(self).frames_per_second(),
            final(self).ingress().capacity() == old(self).ingress().capacity(),
            final(self).ingress().log() == old(self).ingress().log(),
            r is Ok <==> old(self).ingress().sent() - old(self).engine().wheels()[0].taken() < old(
                self,
            ).ingress().capacity(),
            match r {
                Ok(plans) => {
                    &&& final(self).last_start() == params.start_sample
                    &&& final(self).ingress().sent() == old(self).ingress().sent() + 1
                    &&& final(self).ingress().log()[old(self).ingress().sent() as int] == params
                    &&& caught_up(
                        old(self).engine(),
                        final(self).engine(),
                        plans@,
                        final(self).ingress().sent(),
                        params.start_sample,
                        old(self).block_frames() as int,
                        timing_of,
                        fade_len_of,
                    )
                },
                Err(back) => {
                    &&& back == params
                    &&& final(self).last_start() == old(self).last_start()
                    &&& final(self).ingress().sent() == old(self).ingress().sent()
                    &&& final(self).engine() == old(self).engine()
                },
            },
    {
        let ghost bs = self.block_size as int;
        let ghost before = *self;
        match self.engine.submit(0, &mut self.wheel_tx, params) {
            Ok(_) => {},
            Err(back) => {
                return Err(back);
            },
        }
        self.engine.look(0, &self.wheel_tx);
        proof {
            lemma_submitted_lines_up(
                before.engine(),
                before.ingress(),
                before.last_start(),
                self.engine(),
                self.ingress(),
                params,
            );
        }
        let block_size: u64 = self.block_size as u64;
        let mut plans: Vec<Vec<GrainBlock>> = Vec::new();
        let ghost mut states: Seq<RfofsEngine> = seq![self.engine];
        while params.start_sample > self.engine.sample_clock() + block_size
            invariant
                self.engine().wf(),
                in_step(self.engine()),
                self.engine()@.clock <= params.start_sample,
                self.ingress() == self.wheel_tx,
                lined_up(self.engine(), self.ingress(), params.start_sample),
                self.ingress().log() == old(self).ingress().log(),
                self.ingress().capacity() == old(self).ingress().capacity(),
                self.ingress().sent() == old(self).ingress().sent() + 1,
                self.ingress().log()[old(self).ingress().sent() as int] == params,
                self.block_frames() == old(self).block_frames(),
                self.frames_per_second() == old(self).frames_per_second(),
                self.last_start() == old(self).last_start(),
                block_size == bs,
                bs == self.block_frames(),
                bs > 0,
                self.reaches(params.start_sample as int),
                rendered(states, plans@, bs, timing_of, fade_len_of),
                crate::engine::looked(old(self).engine(), states[0]),
                states[0].wheels()[0].seen() == self.ingress().sent(),
                in_line(states[0], self.ingress().sent() - 1),
                states.last() == self.engine(),
                forall|k: int|
                    #![trigger states[k]]
                    0 <= k < plans@.len() ==> params.start_sample > states[k]@.clock + bs,
                forall|params: FofParams| call_requires(timing_of, (params,)),
                forall|fade_dur: u32| call_requires(fade_len_of, (fade_dur,)),
            decreases params.start_sample - self.engine()@.clock,
        {
            let ghost old_states = states;
            let ghost old_plans = plans@;
            let plan: Vec<GrainBlock> = self.process_one_block(Ghost(params.start_sample), timing_of, fade_len_of);
            plans.push(plan);
            proof {
                states = states.push(self.engine);
                lemma_one_more(old_states, old_plans, self.engine, plan, bs, timing_of, fade_len_of);
            }
        }
        self.last_start_sample = params.start_sample;
        proof {
            assert(states[plans@.len() as int] == states.last());
            assert(just_behind(states, plans@.len() as int, params.start_sample, bs));
            assert(rendered(states, plans@, bs, timing_of, fade_len_of));
            assert(caught_up(
                old(self).engine(),
                self.engine(),
                plans@,
                self.ingress().sent(),
                params.start_sample,
                bs,
                timing_of,
                fade_len_of,
            ));
        }
        Ok(plans)
    }

    /// Render all that remains, and say which blocks that were.
    ///
    /// Blocks are rendered until every FOF has been taken, has started and has
    /// fully decayed; a limit of 30 seconds keeps a FOF that never dies from
    /// going on for ever.
    pub fn close<F: Fn(FofParams) -> FofTiming + Copy, G: Fn(u32) -> u32 + Copy>(
        &mut self,
        timing_of: F,
        fade_len_of: G,
    ) -> (plans: Vec<Vec<GrainBlock>>)
        requires
            old(self).wf(),
            old(self).reaches(
                old(self).last_start() + old(self).block_frames() + old(self).frames_per_second()
                    * MAX_TAIL_SECONDS,
            ),
            forall|params: FofParams| call_requires(timing_of, (params,)),
            forall|fade_dur: u32| call_requires(fade_len_of, (fade_dur,)),
        ensures
            final(self).engine().wf(),
            final(self).engine().wheels()[0].taken() >= old(self).ingress().sent(),
            exists|states: Seq<RfofsEngine>, reach: int|
                {
                    &&& #[trigger] rendered(
                        states,
                        plans@,
                        old(self).block_frames() as int,
                        timing_of,
                        fade_len_of,
                    )
                    &&& states[0] == old(self).engine()
                    &&& states.last() == final(self).engine()
                    &&& #[trigger] closing(
                        states,
                        reach,
                        old(self).last_start(),
                        old(self).block_frames() as int,
                        (old(self).frames_per_second() * MAX_TAIL_SECONDS) / (
                        old(self).block_frames() as int),
                    )
                },
    {
        let ghost bs = self.block_size as int;
        let ghost last = self.last_start_sample;
        let ghost tail = self.sample_rate * MAX_TAIL_SECONDS;
        let block_size: u64 = self.block_size as u64;
        let mut plans: Vec<Vec<GrainBlock>> = Vec::new();
        let ghost mut states: Seq<RfofsEngine> = seq![self.engine];
        while self.engine.sample_clock() + block_size <= self.last_start_sample
            invariant
                self.engine().wf(),
                in_step(self.engine()),
                lined_up(self.engine(), self.ingress(), last),
                self.ingress() == old(self).ingress(),
                self.engine()@.clock <= last,
                self.last_start_sample == last,
                self.last_start() == last,
                self.block_frames() == bs,
                self.block_size == bs,
                self.sample_rate == old(self).sample_rate,
                self.frames_per_second() == self.sample_rate,
                block_size == bs,
                bs > 0,
                tail >= 0,
                self.reaches(last + bs + tail),
                rendered(states, plans@, bs, timing_of, fade_len_of),
                states[0] == old(self).engine(),
                states.last() == self.engine(),
                forall|k: int|
                    #![trigger states[k]]
                    0 <= k < plans@.len() ==> states[k]@.clock + bs <= last,
                forall|params: FofParams| call_requires(timing_of, (params,)),
                forall|fade_dur: u32| call_requires(fade_len_of, (fade_dur,)),
            decreases last - self.engine()@.clock,
        {
            let ghost old_states = states;
            let ghost old_plans = plans@;
            let plan: Vec<GrainBlock> = self.process_one_block(Ghost(last), timing_of, fade_len_of);
            plans.push(plan);
            proof {
                states = states.push(self.engine);
                lemma_one_more(old_states, old_plans, self.engine, plan, bs, timing_of, fade_len_of);
            }
        }
        // One more block, for a FOF that sits exactly at the block boundary.
        let ghost reach = plans@.len() as int;
        let ghost old_states = states;
        let ghost old_plans = plans@;
        let plan: Vec<GrainBlock> = self.process_one_block(Ghost(last), timing_of, fade_len_of);
        plans.push(plan);
        proof {
            states = states.push(self.engine);
            lemma_one_more(old_states, old_plans, self.engine, plan, bs, timing_of, fade_len_of);
        }

        let max_extra: usize = self.sample_rate * MAX_TAIL_SECONDS / self.block_size;
        let ghost from = self.engine()@.clock as int;
        let mut extra: usize = 0;
        proof {
            assert(max_extra * bs <= tail) by (nonlinear_arith)
                requires
                    max_extra == tail / bs,
                    bs > 0,
                    tail >= 0,
            ;
        }
        proof {
            lemma_waiting_is_counted(self.engine());
        }
        while extra < max_extra && (self.engine.active_count() != 0
            || self.engine.wheel_stats(0).queue_size != 0)
            invariant
                self.engine().wf(),
                self.engine() == self.engine,
                in_step(self.engine()),
                lined_up(self.engine(), self.ingress(), last),
                self.ingress() == old(self).ingress(),
                self.engine()@.clock > last,
                self.engine().wheels()[0]@.stats.queue_size
                    == self.engine().wheels()[0]@.wheel.pending.flatten().len(),
                extra <= max_extra,
                max_extra * bs <= tail,
                from <= last + bs,
                self.engine()@.clock == from + extra * bs,
                self.block_frames() == bs,
                bs > 0,
                self.reaches(last + bs + tail),
                rendered(states, plans@, bs, timing_of, fade_len_of),
                plans@.len() == reach + 1 + extra,
                reach >= 0,
                states[0] == old(self).engine(),
                states.last() == self.engine(),
                forall|k: int|
                    #![trigger states[k]]
                    0 <= k < reach ==> states[k]@.clock + bs <= last,
                states[reach]@.clock + bs > last,
                forall|k: int|
                    #![trigger states[k]]
                    reach + 1 <= k < reach + 1 + extra ==> !is_silent(states[k]),
                forall|params: FofParams| call_requires(timing_of, (params,)),
                forall|fade_dur: u32| call_requires(fade_len_of, (fade_dur,)),
            ensures
                extra == max_extra || is_silent(self.engine()),
            decreases max_extra - extra,
        {
            let ghost old_states = states;
            let ghost old_plans = plans@;
            proof {
                assert(extra * bs + bs <= max_extra * bs) by (nonlinear_arith)
                    requires
                        extra + 1 <= max_extra,
                        bs > 0,
                ;
                assert((extra + 1) * bs == extra * bs + bs) by (nonlinear_arith);
                assert(states.last() == states[reach + 1 + extra]);
            }
            let plan: Vec<GrainBlock> = self.process_one_block(Ghost(last), timing_of, fade_len_of);
            plans.push(plan);
            proof {
                states = states.push(self.engine);
                lemma_one_more(old_states, old_plans, self.engine, plan, bs, timing_of, fade_len_of);
            }
            extra = extra + 1;
            proof {
                lemma_waiting_is_counted(self.engine());
            }
        }
        proof {
            let sent = self.ingress().log().take(self.ingress().sent() as int);
            let at = self.engine().wheels()[0].taken() as int;
            if at < sent.len() {
                assert(sent[at].start_sample <= last);
            }
            assert(closing(states, reach, last, bs, tail / bs));
        }
        plans
    }

    /// Render one block.
    fn process_one_block<F: Fn(FofParams) -> FofTiming, G: Fn(u32) -> u32>(
        &mut self,
        Ghost(last): Ghost<u64>,
        timing_of: F,
        fade_len_of: G,
    ) -> (plan: Vec<GrainBlock>)
        requires
            old(self).engine().wf(),
            in_step(old(self).engine()),
            lined_up(old(self).engine(), old(self).ingress(), last),
            old(self).reaches(old(self).engine()@.clock as int),
            forall|params: FofParams| call_requires(timing_of, (params,)),
            forall|fade_dur: u32| call_requires(fade_len_of, (fade_dur,)),
        ensures
            final(self).engine().wf(),
            in_step(final(self).engine()),
            lined_up(final(self).engine(), final(self).ingress(), last),
            final(self).engine().wheels()[0].log() == old(self).engine().wheels()[0].log(),
            final(self).engine()@.clock == old(self).engine()@.clock + old(self).block_frames(),
            final(self).ingress() == old(self).ingress(),
            final(self).block_frames() == old(self).block_frames(),
            final(self).frames_per_second() == old(self).frames_per_second(),
            final(self).last_start() == old(self).last_start(),
            block_rendered(
                old(self).engine(),
                final(self).engine(),
                plan@,
                old(self).block_frames() as int,
                timing_of,
                fade_len_of,
            ),
    {
        let ghost before = self.engine;
        proof {
            lemma_block_is_representable(before, self.block_size as int);
        }
        let mut plan: Vec<GrainBlock> = Vec::new();
        self.engine.process_block(self.block_size, timing_of, fade_len_of, &mut plan);
        proof {
            assert(block_rendered(
                before,
                self.engine,
                plan@,
                self.block_size as int,
                timing_of,
                fade_len_of,
            )) by {
                assert(crate::engine::looked(before, before));
                assert(before.can_process(self.block_size as int));
                lemma_clock_moves(
                    before,
                    self.engine,
                    plan@,
                    self.block_size as int,
                    timing_of,
                    fade_len_of,
                );
            }
            lemma_block_keeps_step(
                before,
                self.engine,
                plan@,
                self.block_size as int,
                timing_of,
                fade_len_of,
            );
            lemma_block_keeps_line(
                before,
                self.engine,
                plan@,
                self.block_size as int,
                timing_of,
                fade_len_of,
                self.wheel_tx,
                last,
            );
        }
        plan
    }
}

/// A further block goes on from the last state.
proof fn lemma_one_more<F: Fn(FofParams) -> FofTiming, G: Fn(u32) -> u32>(
    states: Seq<RfofsEngine>,
    plans: Seq<Vec<GrainBlock>>,
    after: RfofsEngine,
    plan: Vec<GrainBlock>,
    block_size: int,
    timing_of: F,
    fade_len_of: G,
)
    requires
        rendered(states, plans, block_size, timing_of, fade_len_of),
        block_rendered(
            states.last(),
            after,
            plan@,
            block_size,
            timing_of,
            fade_len_of,
        ),
        after.wf(),
    ensures
        rendered(states.push(after), plans.push(plan), block_size, timing_of, fade_len_of),
{
    let more = states.push(after);
    let list = plans.push(plan);
    assert forall|k: int| #![trigger more[k]] 0 <= k < more.len() implies more[k].wf() by {
        if k < states.len() {
            assert(more[k] == states[k]);
        }
    }
    assert forall|k: int| #![trigger list[k]] 0 <= k < list.len() implies block_rendered(
        more[k],
        more[k + 1],
        list[k]@,
        block_size,
        timing_of,
        fade_len_of,
    ) by {
        if k < plans.len() {
            assert(list[k] == plans[k]);
            assert(more[k] == states[k]);
            assert(more[k + 1] == states[k + 1]);
        }
    }
}

/// Interleave the first `frames` samples of each channel: sample by sample,
/// channel after channel.
pub fn interleave<T: Copy>(channels: &Vec<Vec<T>>, frames: usize) -> (interleaved: Vec<T>)
    requires
        frames * channels@.len() <= usize::MAX,
        forall|ch: int|
            #![trigger channels@[ch]]
            0 <= ch < channels@.len() ==> channels@[ch]@.len() >= frames,
    ensures
        interleaved@.len() == frames * channels@.len(),
        forall|s: int, ch: int|
            #![trigger channels@[ch]@[s]]
            0 <= s < frames && 0 <= ch < channels@.len() ==> interleaved@[s * channels@.len() + ch]
                == channels@[ch]@[s],
{
    let n_ch: usize = channels.len();
    let mut interleaved: Vec<T> = Vec::with_capacity(frames * n_ch);
    let mut s: usize = 0;
    while s < frames
        invariant
            s <= frames,
            n_ch == channels@.len(),
            forall|ch: int|
                #![trigger channels@[ch]]
                0 <= ch < n_ch ==> channels@[ch]@.len() >= frames,
            interleaved@.len() == s * n_ch,
            forall|t: int, ch: int|
                #![trigger channels@[ch]@[t]]
                0 <= t < s && 0 <= ch < n_ch ==> interleaved@[t * n_ch + ch] == channels@[ch]@[t],
        decreases frames - s,
    {
        let ghost done = interleaved@;
        let mut ch: usize = 0;
        while ch < n_ch
            invariant
                ch <= n_ch,
                s < frames,
                n_ch == channels@.len(),
                forall|c: int|
                    #![trigger channels@[c]]
                    0 <= c < n_ch ==> channels@[c]@.len() >= frames,
                done.len() == s * n_ch,
                interleaved@.len() == s * n_ch + ch,
                forall|k: int| 0 <= k < done.len() ==> interleaved@[k] == done[k],
                forall|c: int|
                    #![trigger channels@[c]@[s as int]]
                    0 <= c < ch ==> interleaved@[s * n_ch + c] == channels@[c]@[s as int],
            decreases n_ch - ch,
        {
            interleaved.push(channels[ch][s]);
            ch = ch + 1;
        }
        proof {
            assert((s + 1) * n_ch == s * n_ch + n_ch) by (nonlinear_arith);
            assert forall|t: int, c: int|
                #![trigger channels@[c]@[t]]
                0 <= t < s + 1 && 0 <= c < n_ch implies interleaved@[t * n_ch + c]
                == channels@[c]@[t] by {
                if t < s {
                    assert(0 <= t * n_ch + c < s * n_ch) by (nonlinear_arith)
                        requires
                            0 <= t,
                            t + 1 <= s,
                            0 <= c < n_ch,
                    ;
                }
            }
        }
        s = s + 1;
    }
    interleaved
}

proof fn lemma_block_is_representable(engine: RfofsEngine, block_size: int)
    requires
        in_step(engine),
        block_size >= 0,
        engine@.clock + block_size + LOOKAHEAD <= u64::MAX,
    ensures
        engine.can_process(block_size),
{
    let w = engine.wheels()[0]@.wheel;
    let end = engine@.clock + block_size;
    assert(w.wheel_time() == w.slot_index * 256);
    assert(w.horizon() == 256 * 256);
    let after = w.advanced(end);
    assert(after.wheel_time() == after.slot_index * 256);
    assert(after.slot_index * 256 <= end);
}

proof fn lemma_clock_moves<F: Fn(FofParams) -> FofTiming, G: Fn(u32) -> u32>(
    before: RfofsEngine,
    after: RfofsEngine,
    plan: Seq<GrainBlock>,
    block_size: int,
    timing_of: F,
    fade_len_of: G,
)
    requires
        before.wf(),
        block_size >= 0,
        before@.clock + block_size <= u64::MAX,
        crate::engine::processed(before, after, plan, block_size, timing_of, fade_len_of),
    ensures
        after@.clock == before@.clock + block_size,
{
    let end = before@.clock + block_size;
    let incoming = crate::engine::fired_by(before.wheels(), after.wheels(), end);
    let kills = crate::engine::newly_killed(before.kill_rx(), after.kill_rx());
    let (timings, keys, fade_lens) = choose|
        timings: Seq<FofTiming>,
        keys: Seq<usize>,
        fade_lens: Seq<u32>,
    |
        crate::engine::block_step(
            before@,
            after@,
            incoming,
            timings,
            keys,
            kills,
            fade_lens,
            plan,
            block_size,
        );
    crate::engine::law_only_the_dead_leave(
        before@,
        after@,
        incoming,
        timings,
        keys,
        kills,
        fade_lens,
        plan,
        block_size,
    );
}

/// What a block does to the schedule of an engine that renders offline.
pub proof fn lemma_block_drains<F: Fn(FofParams) -> FofTiming, G: Fn(u32) -> u32>(
    before: RfofsEngine,
    after: RfofsEngine,
    plan: Seq<GrainBlock>,
    block_size: int,
    timing_of: F,
    fade_len_of: G,
) -> (wheel: TimeWheelConsumer)
    requires
        before.wf(),
        before.wheels().len() == 1,
        block_rendered(before, after, plan, block_size, timing_of, fade_len_of),
    ensures
        after.wheels().len() == 1,
        wheel.wf(),
        crate::engine::wheel_looked(before.wheels()[0], wheel),
        crate::queue::drained_due(
            wheel,
            after.wheels()[0],
            crate::engine::newly_taken(before.wheels()[0], after.wheels()[0]),
            after@.clock as int,
        ),
{
    let seen = choose|seen: RfofsEngine|
        {
            &&& seen.wf()
            &&& crate::engine::looked(before, seen)
            &&& #[trigger] crate::engine::processed(
                seen,
                after,
                plan,
                block_size,
                timing_of,
                fade_len_of,
            )
        };
    let wheel = seen.wheels()[0];
    assert(crate::engine::wheel_looked(before.wheels()[0], wheel));
    assert(wheel.wf());
    assert(crate::queue::drained_due(
        wheel,
        after.wheels()[0],
        crate::engine::newly_taken(wheel, after.wheels()[0]),
        after@.clock as int,
    ));
    wheel
}

proof fn lemma_block_keeps_step<F: Fn(FofParams) -> FofTiming, G: Fn(u32) -> u32>(
    before: RfofsEngine,
    after: RfofsEngine,
    plan: Seq<GrainBlock>,
    block_size: int,
    timing_of: F,
    fade_len_of: G,
)
    requires
        before.wf(),
        in_step(before),
        block_size >= 0,
        block_rendered(before, after, plan, block_size, timing_of, fade_len_of),
    ensures
        in_step(after),
        after.wheels()[0].log() == before.wheels()[0].log(),
{
    let wheel = lemma_block_drains(before, after, plan, block_size, timing_of, fade_len_of);
    let end = after@.clock as int;
    let entries = crate::engine::newly_taken(before.wheels()[0], after.wheels()[0]);
    let s = wheel@;
    crate::schedule::lemma_taking_all_keeps(s, entries);
    crate::schedule::lemma_taking_all_stops(s, entries, end);
    let w = s.wheel.advanced(end);
    assert(w.slot_index * 256 <= end);
}

/// A block leaves the submitted grains lined up.
proof fn lemma_block_keeps_line<F: Fn(FofParams) -> FofTiming, G: Fn(u32) -> u32>(
    before: RfofsEngine,
    after: RfofsEngine,
    plan: Seq<GrainBlock>,
    block_size: int,
    timing_of: F,
    fade_len_of: G,
    tx: TimeWheelProducer,
    last: u64,
)
    requires
        before.wf(),
        in_step(before),
        block_size >= 0,
        block_rendered(before, after, plan, block_size, timing_of, fade_len_of),
        lined_up(before, tx, last),
    ensures
        lined_up(after, tx, last),
        after@.clock > last ==> after.wheels()[0].taken() >= tx.sent(),
{
    let wheel = lemma_block_drains(before, after, plan, block_size, timing_of, fade_len_of);
    let now = after.wheels()[0];
    let end = after@.clock as int;
    let sent = tx.log().take(tx.sent() as int);
    let at = now.taken() as int;
    assert(crate::queue::one_ring(tx, now) == crate::queue::one_ring(tx, wheel));
    assert(crate::queue::one_ring(tx, wheel) == crate::queue::one_ring(tx, before.wheels()[0]));
    if at < sent.len() {
        assert(sent[at] == now.log()[at]);
        assert(sent[at].start_sample >= end);
        assert forall|i: int| #![trigger sent[i]] at <= i < sent.len() implies sent[i].start_sample
            >= end by {
            assert(sent[at].start_sample <= sent[i].start_sample);
        }
    }
}

/// A grain that is submitted, and then seen, lines up behind the others.
proof fn lemma_submitted_lines_up(
    before: RfofsEngine,
    tx: TimeWheelProducer,
    last: u64,
    after: RfofsEngine,
    now: TimeWheelProducer,
    params: FofParams,
)
    requires
        lined_up(before, tx, last),
        before.wheels().len() == 1,
        crate::engine::looked(before, after),
        now.wf(),
        now.log() == tx.log(),
        now.sent() == tx.sent() + 1,
        now.log()[tx.sent() as int] == params,
        after.wheels()[0].seen() == now.sent(),
        params.start_sample >= last,
        params.start_sample >= before@.clock,
        before.wheels()[0].taken() <= tx.sent(),
        crate::queue::one_ring(now, before.wheels()[0]),
    ensures
        lined_up(after, now, params.start_sample),
        in_line(after, tx.sent() as int),
{
    let sent = tx.log().take(tx.sent() as int);
    let more = now.log().take(now.sent() as int);
    let n = tx.sent() as int;
    assert(more[n] == params);
    assert forall|i: int| #![trigger more[i]] 0 <= i < n implies more[i] == sent[i] by {}
    assert forall|i: int, j: int|
        #![trigger more[i], more[j]]
        0 <= i <= j < more.len() implies more[i].start_sample <= more[j].start_sample by {
        if j < n {
            assert(sent[i].start_sample <= sent[j].start_sample);
        } else if i < n {
            assert(sent[i].start_sample <= last);
        }
    }
    assert forall|i: int| #![trigger more[i]] 0 <= i < more.len() implies more[i].start_sample
        <= params.start_sample by {
        assert(more[i].start_sample <= more[n].start_sample);
    }
    assert forall|i: int| #![trigger more[i]] after.wheels()[0].taken() <= i
        < more.len() implies more[i].start_sample >= after@.clock by {
        assert(crate::engine::wheel_looked(before.wheels()[0], after.wheels()[0]));
        if i < n {
            assert(sent[i].start_sample >= before@.clock);
        }
    }
    assert(crate::engine::wheel_looked(before.wheels()[0], after.wheels()[0]));
    assert(crate::queue::one_ring(now, after.wheels()[0]));
    let at = after.wheels()[0].taken() as int;
    let line = now.log().subrange(at, n + 1);
    assert forall|i: int, j: int|
        #![trigger line[i], line[j]]
        0 <= i <= j < line.len() implies line[i].start_sample <= line[j].start_sample by {
        assert(line[i] == more[at + i] && line[j] == more[at + j]);
    }
    assert(more[at] == now.log()[at]);
}

/// The counter of waiting grains is their number.
proof fn lemma_waiting_is_counted(engine: RfofsEngine)
    requires
        engine.wf(),
        in_step(engine),
    ensures
        engine.wheels()[0]@.stats.queue_size
            == engine.wheels()[0]@.wheel.pending.flatten().len(),
{
    let w = engine.wheels()[0];
    assert(w.wf());
    crate::schedule::lemma_flatten_bounded(w@.wheel.pending, 64);
    let n = w@.wheel.pending.flatten().len();
    assert(n % 0x1_0000_0000_0000_0000 == n) by (nonlinear_arith)
        requires
            n <= 256 * 64,
    ;
}

/// Renderings that go on from one another are one rendering.
pub proof fn law_renderings_join<F: Fn(FofParams) -> FofTiming, G: Fn(u32) -> u32>(
    first: Seq<RfofsEngine>,
    first_plans: Seq<Vec<GrainBlock>>,
    second: Seq<RfofsEngine>,
    second_plans: Seq<Vec<GrainBlock>>,
    block_size: int,
    timing_of: F,
    fade_len_of: G,
)
    requires
        rendered(first, first_plans, block_size, timing_of, fade_len_of),
        rendered(second, second_plans, block_size, timing_of, fade_len_of),
        crate::engine::looked(first.last(), second[0]),
    ensures
        rendered(
            first + second.skip(1),
            first_plans + second_plans,
            block_size,
            timing_of,
            fade_len_of,
        ),
        (first + second.skip(1))[0] == first[0],
        crate::engine::looked((first + second.skip(1)).last(), second.last()),
        second_plans.len() > 0 ==> (first + second.skip(1)).last() == second.last(),
{
    let n = first_plans.len() as int;
    let states = first + second.skip(1);
    let plans = first_plans + second_plans;
    assert(first.last() == first[n]);
    assert forall|k: int| #![trigger states[k]] 0 <= k < states.len() implies states[k].wf() by {
        if k <= n {
            assert(states[k] == first[k]);
        } else {
            assert(states[k] == second[k - n]);
        }
    }
    assert forall|k: int| #![trigger plans[k]] 0 <= k < plans.len() implies block_rendered(
        states[k],
        states[k + 1],
        plans[k]@,
        block_size,
        timing_of,
        fade_len_of,
    ) by {
        if k < n {
            assert(plans[k] == first_plans[k]);
            assert(states[k] == first[k] && states[k + 1] == first[k + 1]);
        } else {
            assert(plans[k] == second_plans[k - n]);
            assert(states[k + 1] == second[k - n + 1]);
            if k > n {
                assert(states[k] == second[k - n]);
            } else {
                assert(states[k] == first[n]);
                lemma_looked_before(
                    first[n],
                    second[0],
                    second[1],
                    second_plans[0]@,
                    block_size,
                    timing_of,
                    fade_len_of,
                );
            }
        }
    }
    if second_plans.len() == 0 {
        assert(states =~= first);
        assert(second.last() == second[0]);
    } else {
        assert(states.last() == second.last());
    }
}

/// A look more before a block makes no difference.
proof fn lemma_looked_before<F: Fn(FofParams) -> FofTiming, G: Fn(u32) -> u32>(
    earlier: RfofsEngine,
    before: RfofsEngine,
    after: RfofsEngine,
    plan: Seq<GrainBlock>,
    block_size: int,
    timing_of: F,
    fade_len_of: G,
)
    requires
        crate::engine::looked(earlier, before),
        block_rendered(before, after, plan, block_size, timing_of, fade_len_of),
    ensures
        block_rendered(earlier, after, plan, block_size, timing_of, fade_len_of),
{
    let seen = choose|seen: RfofsEngine|
        {
            &&& seen.wf()
            &&& crate::engine::looked(before, seen)
            &&& #[trigger] crate::engine::processed(
                seen,
                after,
                plan,
                block_size,
                timing_of,
                fade_len_of,
            )
        };
    assert(crate::engine::looked(earlier, seen)) by {
        assert forall|i: int|
            #![trigger earlier.wheels()[i]]
            #![trigger seen.wheels()[i]]
            0 <= i < earlier.wheels().len() implies crate::engine::wheel_looked(
            earlier.wheels()[i],
            seen.wheels()[i],
        ) by {
            let a = earlier.wheels()[i];
            let b = before.wheels()[i];
            let c = seen.wheels()[i];
            assert(crate::engine::wheel_looked(a, b));
            assert(crate::engine::wheel_looked(b, c));
            assert forall|tx: TimeWheelProducer|
                #![trigger crate::queue::one_ring(tx, c)]
                crate::queue::one_ring(tx, c) == crate::queue::one_ring(tx, a) by {
                assert(crate::queue::one_ring(tx, b) == crate::queue::one_ring(tx, a));
            }
        }
    }
}

/// No grain that starts at `last` or before is still waiting in the schedule
/// once a rendering is closed.
pub proof fn law_no_due_grain_waits_after_close<
    F: Fn(FofParams) -> FofTiming,
    G: Fn(u32) -> u32,
>(
    states: Seq<RfofsEngine>,
    plans: Seq<Vec<GrainBlock>>,
    reach: int,
    last: u64,
    block_size: int,
    max_extra: int,
    timing_of: F,
    fade_len_of: G,
    p: FofParams,
)
    requires
        rendered(states, plans, block_size, timing_of, fade_len_of),
        closing(states, reach, last, block_size, max_extra),
        in_step(states[0]),
        block_size > 0,
        crate::delivery::waits(states.last().wheels()[0]@, p),
    ensures
        p.start_sample > last,
{
    let n = plans.len() as int;
    lemma_steps(states, plans, block_size, timing_of, fade_len_of, reach);
    lemma_steps(states, plans, block_size, timing_of, fade_len_of, n - 1);
    lemma_clock_grows(states, plans, block_size, timing_of, fade_len_of, reach, n - 1);
    assert(states[n - 1].wf());
    let wheel = lemma_block_drains(
        states[n - 1],
        states[n],
        plans[n - 1]@,
        block_size,
        timing_of,
        fade_len_of,
    );
    crate::delivery::law_no_due_grain_waits(
        wheel,
        states[n].wheels()[0],
        crate::engine::newly_taken(states[n - 1].wheels()[0], states[n].wheels()[0]),
        states[n]@.clock as int,
        p,
    );
}

pub proof fn lemma_steps<F: Fn(FofParams) -> FofTiming, G: Fn(u32) -> u32>(
    states: Seq<RfofsEngine>,
    plans: Seq<Vec<GrainBlock>>,
    block_size: int,
    timing_of: F,
    fade_len_of: G,
    n: int,
)
    requires
        rendered(states, plans, block_size, timing_of, fade_len_of),
        in_step(states[0]),
        block_size >= 0,
        0 <= n <= plans.len(),
    ensures
        in_step(states[n]),
        states[n].wheels()[0].log() == states[0].wheels()[0].log(),
    decreases n,
{
    if n > 0 {
        lemma_steps(states, plans, block_size, timing_of, fade_len_of, n - 1);
        assert(states[n - 1].wf());
        lemma_block_keeps_step(
            states[n - 1],
            states[n],
            plans[n - 1]@,
            block_size,
            timing_of,
            fade_len_of,
        );
    }
}

pub proof fn lemma_clock_grows<F: Fn(FofParams) -> FofTiming, G: Fn(u32) -> u32>(
    states: Seq<RfofsEngine>,
    plans: Seq<Vec<GrainBlock>>,
    block_size: int,
    timing_of: F,
    fade_len_of: G,
    from: int,
    to: int,
)
    requires
        rendered(states, plans, block_size, timing_of, fade_len_of),
        block_size >= 0,
        0 <= from <= to <= plans.len(),
    ensures
        states[from]@.clock <= states[to]@.clock,
        to < plans.len() ==> states[to + 1]@.clock == states[to]@.clock + block_size,
    decreases to - from,
{
    if to < plans.len() {
        assert(block_rendered(
            states[to],
            states[to + 1],
            plans[to]@,
            block_size,
            timing_of,
            fade_len_of,
        ));
    }
    if from < to {
        lemma_clock_grows(states, plans, block_size, timing_of, fade_len_of, from, to - 1);
    }
}

/// The grain at `i` of the log has been seen and not been taken, the grains up
/// to it are in order, and none of them starts behind the clock.
pub open spec fn in_line(engine: RfofsEngine, i: int) -> bool {
    let wheel = engine.wheels()[0];
    let at = wheel.taken() as int;
    &&& at <= i < wheel.seen()
    &&& crate::delivery::in_start_order(wheel.log().subrange(at, i + 1))
    &&& wheel.log()[at].start_sample >= engine@.clock
}

/// The clock of a rendering moves by a block with each block.
pub proof fn law_rendering_moves_block_by_block<
    F: Fn(FofParams) -> FofTiming,
    G: Fn(u32) -> u32,
>(
    states: Seq<RfofsEngine>,
    plans: Seq<Vec<GrainBlock>>,
    block_size: int,
    timing_of: F,
    fade_len_of: G,
    k: int,
)
    requires
        rendered(states, plans, block_size, timing_of, fade_len_of),
        0 <= k <= plans.len(),
    ensures
        states.len() == plans.len() + 1,
        states[k]@.clock == states[0]@.clock + k * block_size,
    decreases k,
{
    if k > 0 {
        law_rendering_moves_block_by_block(
            states,
            plans,
            block_size,
            timing_of,
            fade_len_of,
            k - 1,
        );
        assert(block_rendered(
            states[k - 1],
            states[k],
            plans[k - 1]@,
            block_size,
            timing_of,
            fade_len_of,
        ));
        assert(k * block_size == (k - 1) * block_size + block_size) by (nonlinear_arith);
    } else {
        assert(k * block_size == 0) by (nonlinear_arith)
            requires
                k == 0,
        ;
    }
}

/// Submitting a grain renders as many blocks as take the clock to within a block
/// of its start, and no further: the grain is then ahead of the clock, or was
/// within a block of it before and nothing is rendered.
pub proof fn law_rendering_stays_just_behind<F: Fn(FofParams) -> FofTiming, G: Fn(u32) -> u32>(
    states: Seq<RfofsEngine>,
    plans: Seq<Vec<GrainBlock>>,
    block_size: int,
    timing_of: F,
    fade_len_of: G,
    start: u64,
)
    requires
        rendered(states, plans, block_size, timing_of, fade_len_of),
        block_size > 0,
        just_behind(states, plans.len() as int, start, block_size),
    ensures
        ({
            let n = plans.len();
            let first = states[0]@.clock;
            let clock = states.last()@.clock;
            &&& clock == first + n * block_size
            &&& start <= clock + block_size
            &&& n == 0 <==> start <= first + block_size
            &&& n > 0 ==> clock < start
        }),
{
    let n = plans.len() as int;
    law_rendering_moves_block_by_block(states, plans, block_size, timing_of, fade_len_of, n);
    assert(states.last() == states[n]);
    if n > 0 {
        law_rendering_moves_block_by_block(
            states,
            plans,
            block_size,
            timing_of,
            fade_len_of,
            n - 1,
        );
        assert(n * block_size == (n - 1) * block_size + block_size) by (nonlinear_arith);
        assert(start > states[n - 1]@.clock + block_size);
        assert(start > states[0]@.clock + block_size);
    }
}

/// Closing a rendering takes the clock past the start of the last grain, and goes
/// on for as long as a grain sounds or waits, but for no more than 30 seconds: it
/// ends with the first block after which none does, or at that limit.
pub proof fn law_closing_renders_to_silence<F: Fn(FofParams) -> FofTiming, G: Fn(u32) -> u32>(
    states: Seq<RfofsEngine>,
    plans: Seq<Vec<GrainBlock>>,
    block_size: int,
    timing_of: F,
    fade_len_of: G,
    reach: int,
    last: u64,
    frames_per_second: int,
)
    requires
        rendered(states, plans, block_size, timing_of, fade_len_of),
        block_size > 0,
        closing(
            states,
            reach,
            last,
            block_size,
            (frames_per_second * MAX_TAIL_SECONDS) / block_size,
        ),
        states[0]@.clock <= last,
    ensures
        ({
            let n = plans.len();
            let limit = (frames_per_second * 30) / block_size;
            let reached = states[0]@.clock + (reach + 1) * block_size;
            let sounds = |e: RfofsEngine|
                e@.grains.dom().len() > 0 || e.wheels()[0]@.wheel.pending.flatten().len() > 0;
            &&& reached - block_size <= last < reached
            &&& reach + 1 <= n <= reach + 1 + limit
            &&& states.last()@.clock > last
            &&& n < reach + 1 + limit ==> !sounds(states.last())
            &&& forall|k: int|
                #![trigger states[k]]
                reach + 1 <= k < n ==> sounds(states[k])
        }),
{
    let n = plans.len() as int;
    law_rendering_moves_block_by_block(states, plans, block_size, timing_of, fade_len_of, reach);
    law_rendering_moves_block_by_block(states, plans, block_size, timing_of, fade_len_of, n);
    assert(states.last() == states[n]);
    assert((reach + 1) * block_size == reach * block_size + block_size) by (nonlinear_arith);
    assert((reach + 1) * block_size <= n * block_size) by (nonlinear_arith)
        requires
            reach + 1 <= n,
            block_size > 0,
    ;
    if reach > 0 {
        law_rendering_moves_block_by_block(
            states,
            plans,
            block_size,
            timing_of,
            fade_len_of,
            reach - 1,
        );
        assert(reach * block_size == (reach - 1) * block_size + block_size) by (nonlinear_arith);
        assert(states[reach - 1]@.clock + block_size <= last);
    } else {
        assert(reach * block_size == 0) by (nonlinear_arith)
            requires
                reach == 0,
        ;
    }
}

/// Each of the blocks of a rendering is a block of the engine, with nothing in
/// between but a look at how many grains were submitted.
pub proof fn law_rendering_is_made_of_blocks<F: Fn(FofParams) -> FofTiming, G: Fn(u32) -> u32>(
    states: Seq<RfofsEngine>,
    plans: Seq<Vec<GrainBlock>>,
    block_size: int,
    timing_of: F,
    fade_len_of: G,
    k: int,
)
    requires
        rendered(states, plans, block_size, timing_of, fade_len_of),
        0 <= k < plans.len(),
    ensures
        exists|seen: RfofsEngine|
            {
                &&& seen@ == states[k]@
                &&& seen.kill_rx() == states[k].kill_rx()
                &&& seen.wheels().len() == states[k].wheels().len()
                &&& forall|w: int|
                    #![trigger seen.wheels()[w]]
                    0 <= w < seen.wheels().len() ==> seen.wheels()[w]@ == states[k].wheels()[w]@
                        && seen.wheels()[w].taken() == states[k].wheels()[w].taken()
                &&& #[trigger] crate::engine::processed(
                    seen,
                    states[k + 1],
                    plans[k]@,
                    block_size,
                    timing_of,
                    fade_len_of,
                )
            },
{
    assert(block_rendered(
        states[k],
        states[k + 1],
        plans[k]@,
        block_size,
        timing_of,
        fade_len_of,
    ));
}

} // verus!
