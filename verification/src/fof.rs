//! FOF grains: what describes one, and the life of one that is sounding.
//!
//! A grain goes through [`FofPhase::Attack`], [`FofPhase::Decay`] and
//! [`FofPhase::FadeOut`], and is [`FofPhase::Dead`] afterwards. Which phase a
//! sample falls in is settled by whole sample counts alone, so it is settled
//! here; the waveform itself is computed from those counts elsewhere.
//!
//! Real-valued parameters are carried as IEEE-754 single-precision bit
//! patterns (`f32::to_bits`): nothing in this crate computes with them.
use crate::runs::FofRuns;
use vstd::prelude::*;

verus! {

/// All parameters needed to fully describe a FOF grain.
///
/// - `id == 0`: fire-and-forget; the grain cannot be killed.
/// - `id != 0`: caller-assigned stable id; eligible for a targeted kill.
#[derive(Clone, Copy, Debug, PartialEq, Eq, Structural)]
pub struct FofParams {
    /// Caller-assigned id. 0 = fire-and-forget.
    pub id: u64,
    /// Absolute sample clock at which this FOF begins its attack.
    pub start_sample: u64,
    /// Formant frequency at grain start (Hz), as a bit pattern.
    pub f: u32,
    /// Glissando rate in octaves/second, as a bit pattern.
    pub gliss: u32,
    /// Initial sine phase (radians), as a bit pattern.
    pub phi: u32,
    /// Peak amplitude, as a bit pattern.
    pub amp: u32,
    /// Exponential decay coefficient (1/s), as a bit pattern.
    pub alpha: u32,
    /// Attack duration (s), as a bit pattern.
    pub beta: u32,
    /// Level relative to `amp` at which the natural fade-out begins, as a bit pattern.
    pub fade_level: u32,
    /// Duration of the fade-out ramp (s), as a bit pattern.
    pub fade_dur: u32,
    /// Azimuth (radians), as a bit pattern.
    pub azm: u32,
    /// Elevation (radians), as a bit pattern.
    pub elev: u32,
    /// Distance, as a bit pattern.
    pub distance: u32,
}

/// Request to trigger an early fade-out on a tracked (`id != 0`) FOF.
#[derive(Clone, Copy, Debug, PartialEq, Eq, Structural)]
pub struct FofKillRequest {
    /// Must match the `id` in `FofParams`; ignored if not found.
    pub id: u64,
    /// Duration of the fade-out ramp (s), as a bit pattern.
    pub fade_dur: u32,
}

/// Lifecycle phase of an active FOF.
#[derive(Clone, Copy, Debug, PartialEq, Eq, Structural)]
pub enum FofPhase {
    /// Sigmoid attack.
    Attack,
    /// Pure exponential decay.
    Decay,
    /// Linear ramp to zero, triggered naturally or by a kill.
    FadeOut,
    /// Amplitude reached zero.
    Dead,
}

impl FofPhase {
    /// How many phases are still to come.
    pub open spec fn remaining(self) -> nat {
        match self {
            FofPhase::Attack => 3,
            FofPhase::Decay => 2,
            FofPhase::FadeOut => 1,
            FofPhase::Dead => 0,
        }
    }
}

/// The durations of a grain's phases, in whole samples.
#[derive(Clone, Copy, Debug, PartialEq, Eq, Structural)]
pub struct FofTiming {
    /// Length of the attack.
    pub attack_len: u32,
    /// Samples from grain start until the envelope has fallen to `fade_level`;
    /// `None` if it never does.
    pub decay_len: Option<u32>,
    /// Length of the fade-out ramp.
    pub fade_len: u32,
}

/// What one sounding sample is: the phase it is in and how many samples of the
/// grain came before it.
#[derive(Clone, Copy, Debug, PartialEq, Eq, Structural)]
pub struct FofSample {
    pub phase: FofPhase,
    pub t: u32,
}

/// A stretch of consecutive samples in one phase.
#[derive(Clone, Copy, Debug, PartialEq, Eq, Structural)]
pub struct FofRun {
    pub phase: FofPhase,
    /// Index in the block of the first sample.
    pub offset: usize,
    /// Number of samples, never 0.
    pub len: usize,
    /// Grain-relative index of the first sample.
    pub t: u32,
}

impl FofRun {
    /// The samples that the run stands for.
    pub open spec fn samples(self) -> Seq<FofSample> {
        Seq::new(
            self.len as nat,
            |k: int| FofSample { phase: self.phase, t: (self.t + k) as u32 },
        )
    }
}

/// The samples that consecutive runs stand for.
pub open spec fn run_samples(runs: Seq<FofRun>) -> Seq<FofSample>
    decreases runs.len(),
{
    if runs.len() == 0 {
        Seq::empty()
    } else {
        run_samples(runs.drop_last()) + runs.last().samples()
    }
}

/// The runs follow each other without gap or overlap, the first at `start`.
pub open spec fn runs_contiguous(runs: Seq<FofRun>, start: int) -> bool {
    forall|i: int|
        #![trigger runs[i]]
        0 <= i < runs.len() ==> runs[i].len > 0 && runs[i].offset == start + run_samples(
            runs.take(i),
        ).len()
}

/// Where in the block starting at `block_start` a grain begins to sound.
pub open spec fn start_offset(start_sample: u64, block_start: u64) -> int {
    if start_sample > block_start {
        start_sample - block_start
    } else {
        0
    }
}

/// How many samples a grain is asked for in a block.
pub open spec fn samples_wanted(start_sample: u64, block_start: u64, block_size: int) -> nat {
    if start_offset(start_sample, block_start) < block_size {
        (block_size - start_offset(start_sample, block_start)) as nat
    } else {
        0
    }
}

/// Runtime state of one active FOF grain.
#[derive(Clone, Copy, Debug, PartialEq, Eq, Structural)]
pub struct FofState {
    /// What describes the grain.
    pub params: FofParams,
    /// Current lifecycle phase.
    pub phase: FofPhase,
    /// Samples sounded since the start of the attack.
    pub t: u32,
    /// `t` at which the fade-out was entered.
    pub t_fo: u32,
    /// The phase that the fade-out cut short. With `t_fo` it fixes the level
    /// that the ramp starts from.
    pub fade_from: FofPhase,
    /// Duration (s, as a bit pattern) of the fade-out in effect.
    pub fade_dur: u32,
    /// Length in samples of the fade-out that ends a natural decay.
    pub fade_len: u32,
    /// Sample index (grain-relative) at which Attack ends and Decay begins.
    pub attack_end: u32,
    /// Sample index (grain-relative) at which Decay ends and FadeOut begins.
    /// Never before `attack_end`.
    pub decay_end: u32,
    /// Sample index (grain-relative) at which FadeOut ends.
    pub fadeout_end: u32,
}

impl FofState {
    /// Phase boundaries are in order.
    pub open spec fn wf(self) -> bool {
        self.attack_end <= self.decay_end
    }

    /// A grain that has just been promoted from its parameters.
    pub open spec fn spawned(params: FofParams, timing: FofTiming) -> FofState {
        let decay_end = match timing.decay_len {
            Some(n) => n,
            None => u32::MAX,
        };
        FofState {
            params,
            phase: FofPhase::Attack,
            t: 0,
            t_fo: 0,
            fade_from: FofPhase::Decay,
            fade_dur: params.fade_dur,
            fade_len: timing.fade_len,
            attack_end: timing.attack_len,
            decay_end: if decay_end < timing.attack_len {
                timing.attack_len
            } else {
                decay_end
            },
            fadeout_end: u32::MAX,
        }
    }

    /// Grain-relative index of the first sample that is past the current phase.
    pub open spec fn phase_end(self) -> u32 {
        match self.phase {
            FofPhase::Attack => self.attack_end,
            FofPhase::Decay => self.decay_end,
            FofPhase::FadeOut => self.fadeout_end,
            FofPhase::Dead => 0,
        }
    }

    /// The grain with a fade-out ramp of `fade_len` samples begun.
    pub open spec fn fading(self, fade_dur: u32, fade_len: u32) -> FofState {
        FofState {
            phase: FofPhase::FadeOut,
            t_fo: self.t,
            fade_from: self.phase,
            fade_dur,
            fadeout_end: ((self.t + fade_len) % 0x1_0000_0000) as u32,
            ..self
        }
    }

    /// The grain in its next phase.
    pub open spec fn transitioned(self) -> FofState {
        match self.phase {
            FofPhase::Attack => FofState { phase: FofPhase::Decay, ..self },
            FofPhase::Decay => self.fading(self.params.fade_dur, self.fade_len),
            FofPhase::FadeOut => FofState { phase: FofPhase::Dead, ..self },
            FofPhase::Dead => self,
        }
    }

    /// The grain in the phase that its next sample falls in.
    pub open spec fn settled(self) -> FofState
        decreases self.phase.remaining(),
    {
        if self.phase is Dead || self.t < self.phase_end() {
            self
        } else {
            self.transitioned().settled()
        }
    }

    /// The grain one sample later.
    pub open spec fn ticked(self) -> FofState {
        FofState { t: (self.t + 1) as u32, ..self }
    }

    /// The grain after it was asked for `n` samples, one by one.
    pub open spec fn after(self, n: nat) -> FofState
        decreases n,
    {
        if n == 0 {
            self
        } else if self.settled().phase is Dead {
            self.settled()
        } else {
            self.settled().ticked().after((n - 1) as nat)
        }
    }

    /// The samples that the grain gives when it is asked for `n`, one by one:
    /// fewer than `n` if it dies on the way.
    pub open spec fn samples(self, n: nat) -> Seq<FofSample>
        decreases n,
    {
        if n == 0 || self.settled().phase is Dead {
            Seq::empty()
        } else {
            let s = self.settled();
            seq![FofSample { phase: s.phase, t: s.t }] + s.ticked().samples((n - 1) as nat)
        }
    }

    /// The grain after the block of `block_size` samples starting at `block_start`.
    pub open spec fn after_block(self, block_start: u64, block_size: int) -> FofState {
        self.after(samples_wanted(self.params.start_sample, block_start, block_size))
    }

    /// The grain after a kill request: one that is already fading or dead is
    /// not touched.
    pub open spec fn killed(self, fade_dur: u32, fade_len: u32) -> FofState {
        if self.phase is FadeOut || self.phase is Dead {
            self
        } else {
            self.fading(fade_dur, fade_len)
        }
    }

    /// Promote a `FofParams` into an active `FofState`.
    pub fn spawn(params: FofParams, timing: FofTiming) -> (state: FofState)
        ensures
            state == FofState::spawned(params, timing),
            state.wf(),
    {
        let decay_end_raw: u32 = match timing.decay_len {
            Some(n) => n,
            None => u32::MAX,
        };
        // The fade level is never looked at before Decay has begun.
        let decay_end: u32 = if decay_end_raw < timing.attack_len {
            timing.attack_len
        } else {
            decay_end_raw
        };
        FofState {
            params,
            phase: FofPhase::Attack,
            t: 0,
            t_fo: 0,
            fade_from: FofPhase::Decay,
            fade_dur: params.fade_dur,
            fade_len: timing.fade_len,
            attack_end: timing.attack_len,
            decay_end,
            fadeout_end: u32::MAX,
        }
    }

    /// Begin the fade-out ramp at the current sample.
    fn enter_fade_out(&mut self, fade_dur: u32, fade_len: u32)
        ensures
            *final(self) == old(self).fading(fade_dur, fade_len),
    {
        self.t_fo = self.t;
        self.fade_from = self.phase;
        self.fade_dur = fade_dur;
        self.fadeout_end = self.t.wrapping_add(fade_len);
        self.phase = FofPhase::FadeOut;
    }

    /// Trigger an external fade-out (from a kill request).
    /// No-op if already in FadeOut or Dead.
    pub fn trigger_fade_out(&mut self, fade_dur: u32, fade_len: u32)
        ensures
            *final(self) == old(self).killed(fade_dur, fade_len),
            old(self).wf() ==> final(self).wf(),
    {
        match self.phase {
            FofPhase::FadeOut => {},
            FofPhase::Dead => {},
            FofPhase::Attack => self.enter_fade_out(fade_dur, fade_len),
            FofPhase::Decay => self.enter_fade_out(fade_dur, fade_len),
        }
    }

    /// Advance to the next lifecycle phase.
    fn transition_phase(&mut self)
        ensures
            *final(self) == old(self).transitioned(),
    {
        match self.phase {
            FofPhase::Attack => {
                self.phase = FofPhase::Decay;
            },
            FofPhase::Decay => {
                let fade_dur: u32 = self.params.fade_dur;
                let fade_len: u32 = self.fade_len;
                self.enter_fade_out(fade_dur, fade_len);
            },
            FofPhase::FadeOut => {
                self.phase = FofPhase::Dead;
            },
            FofPhase::Dead => {},
        }
    }

    /// Play the block of `block_size` samples that starts at the absolute
    /// sample `block_start`, and say which stretches of it are in which phase.
    ///
    /// A grain that starts inside the block sounds from its start on, and one
    /// that dies inside it is silent from there on.
    pub fn fill_block(&mut self, block_start: u64, block_size: usize) -> (runs: FofRuns)
        ensures
            *final(self) == old(self).after_block(block_start, block_size as int),
            run_samples(runs@) == old(self).samples(
                samples_wanted(old(self).params.start_sample, block_start, block_size as int),
            ),
            runs_contiguous(runs@, start_offset(old(self).params.start_sample, block_start)),
            old(self).wf() ==> final(self).wf(),
    {
        let mut runs: FofRuns = FofRuns::none();
        let start: u64 = if self.params.start_sample > block_start {
            self.params.start_sample - block_start
        } else {
            0
        };
        if start >= block_size as u64 {
            return runs;
        }
        let first: usize = start as usize;
        let mut i: usize = first;
        let ghost start0 = *self;
        let ghost wanted = (block_size - first) as nat;
        while i < block_size && self.phase != FofPhase::Dead
            invariant
                first <= i <= block_size,
                wanted == block_size - first,
                start0.after(wanted) == self.after((block_size - i) as nat),
                start0.samples(wanted) == run_samples(runs@) + self.samples(
                    (block_size - i) as nat,
                ),
                runs_contiguous(runs@, first as int),
                i == first + run_samples(runs@).len(),
                start0.wf() ==> self.wf(),
                runs@.len() + self.phase.remaining() <= 3 || (runs@.len() + self.phase.remaining()
                    == 4 && (i >= block_size || self.t >= self.phase_end())),
            decreases block_size - i, self.phase.remaining(),
        {
            let phase_end: u32 = match self.phase {
                FofPhase::Attack => self.attack_end,
                FofPhase::Decay => self.decay_end,
                FofPhase::FadeOut => self.fadeout_end,
                FofPhase::Dead => 0,
            };
            let remaining: u32 = phase_end.saturating_sub(self.t);
            if remaining == 0 {
                proof {
                    lemma_transition(*self, (block_size - i) as nat);
                }
                self.transition_phase();
            } else {
                let run_len: usize = if remaining as u64 <= (block_size - i) as u64 {
                    remaining as usize
                } else {
                    block_size - i
                };
                let run = FofRun { phase: self.phase, offset: i, len: run_len, t: self.t };
                let ghost before = *self;
                let ghost old_runs = runs@;
                runs.push(run);
                self.t = self.t + run_len as u32;
                i = i + run_len;
                proof {
                    lemma_run(before, run_len as nat);
                    law_playing_is_continuous(before, run_len as nat, (block_size - i) as nat);
                    assert(runs@.drop_last() =~= old_runs);
                    assert(run.samples() =~= before.samples(run_len as nat));
                    assert(run_samples(runs@) == run_samples(old_runs) + run.samples());
                    assert(start0.samples(wanted) =~= run_samples(runs@) + self.samples(
                        (block_size - i) as nat,
                    ));
                    assert forall|k: int| #![trigger runs@[k]] 0 <= k < runs@.len() implies
                        runs@[k].len > 0 && runs@[k].offset == first + run_samples(runs@.take(k)).len() by {
                        if k < old_runs.len() {
                            assert(runs@.take(k) =~= old_runs.take(k));
                            assert(old_runs[k].len > 0);
                        } else {
                            assert(runs@.take(k) =~= old_runs);
                        }
                    }
                }
            }
        }
        proof {
            if i >= block_size {
                assert(self.samples(0) =~= Seq::empty());
            }
            assert(run_samples(runs@) + Seq::<FofSample>::empty() =~= run_samples(runs@));
        }
        runs
    }
}

/// Entering the next phase when the current one is over changes nothing for
/// the samples to come.
proof fn lemma_transition(s: FofState, n: nat)
    requires
        !(s.phase is Dead),
        s.t >= s.phase_end(),
        n > 0,
    ensures
        s.after(n) == s.transitioned().after(n),
        s.samples(n) == s.transitioned().samples(n),
{
    assert(s.settled() == s.transitioned().settled());
}

/// A grain that is asked for no more samples than its phase has left stays in
/// that phase.
proof fn lemma_run(s: FofState, n: nat)
    requires
        !(s.phase is Dead),
        s.t + n <= s.phase_end(),
    ensures
        s.after(n) == (FofState { t: (s.t + n) as u32, ..s }),
        s.samples(n) =~= Seq::new(
            n,
            |k: int| FofSample { phase: s.phase, t: (s.t + k) as u32 },
        ),
    decreases n,
{
    if n > 0 {
        assert(s.settled() == s);
        lemma_run(s.ticked(), (n - 1) as nat);
    }
}

/// Asking a grain for `n` samples and then for `m` is asking it for `n + m`:
/// where blocks are cut makes no difference.
pub proof fn law_playing_is_continuous(s: FofState, n: nat, m: nat)
    ensures
        s.after(n + m) == s.after(n).after(m),
        s.samples(n + m) =~= s.samples(n) + s.after(n).samples(m),
    decreases n,
{
    if n > 0 {
        if s.settled().phase is Dead {
            lemma_settled_is_settled(s);
        } else {
            law_playing_is_continuous(s.settled().ticked(), (n - 1) as nat, m);
            assert((n + m - 1) as nat == (n - 1) as nat + m);
        }
    }
}

proof fn lemma_settled_is_settled(s: FofState)
    ensures
        s.settled().settled() == s.settled(),
        s.settled().params == s.params,
        s.settled().phase.remaining() <= s.phase.remaining(),
        s.settled().t == s.t,
    decreases s.phase.remaining(),
{
    if !(s.phase is Dead || s.t < s.phase_end()) {
        lemma_settled_is_settled(s.transitioned());
    }
}

/// A grain never returns to an earlier phase, neither by playing nor by a
/// kill, and it keeps its parameters.
pub proof fn law_phases_only_advance(s: FofState, n: nat, fade_dur: u32, fade_len: u32)
    ensures
        s.after(n).phase.remaining() <= s.phase.remaining(),
        s.killed(fade_dur, fade_len).phase.remaining() <= s.phase.remaining(),
        s.after(n).params == s.params,
        s.killed(fade_dur, fade_len).params == s.params,
    decreases n,
{
    lemma_settled_is_settled(s);
    if n > 0 && !(s.settled().phase is Dead) {
        law_phases_only_advance(s.settled().ticked(), (n - 1) as nat, fade_dur, fade_len);
    }
}

/// Two blocks played one after the other are one block of their total length:
/// the same samples, and the same state at the end.
pub proof fn law_consecutive_blocks(s: FofState, block_start: u64, first: nat, second: nat)
    requires
        block_start + first <= u64::MAX,
    ensures
        ({
            let mid = (block_start + first) as u64;
            let wanted = |start: u64, len: nat|
                samples_wanted(s.params.start_sample, start, len as int);
            &&& s.after_block(block_start, (first + second) as int) == s.after_block(
                block_start,
                first as int,
            ).after_block(mid, second as int)
            &&& s.samples(wanted(block_start, first + second)) == s.samples(
                wanted(block_start, first),
            ) + s.after_block(block_start, first as int).samples(wanted(mid, second))
        }),
{
    let mid = (block_start + first) as u64;
    let n = samples_wanted(s.params.start_sample, block_start, first as int);
    let m = samples_wanted(s.params.start_sample, mid, second as int);
    law_phases_only_advance(s, n, 0, 0);
    law_playing_is_continuous(s, n, m);
    assert(samples_wanted(s.params.start_sample, block_start, (first + second) as int) == n + m);
}

/// A dead grain stays as it is, gives no sample and cannot be killed.
pub proof fn law_dead_is_silent(s: FofState, n: nat, fade_dur: u32, fade_len: u32)
    requires
        s.phase is Dead,
    ensures
        s.after(n) == s,
        s.samples(n) == Seq::<FofSample>::empty(),
        s.killed(fade_dur, fade_len) == s,
{
}

/// The phase of the sample with grain-relative index `t` in a life that
/// nothing cuts short.
pub open spec fn natural_phase(s: FofState, t: int) -> FofPhase {
    if t < s.attack_end {
        FofPhase::Attack
    } else if t < s.decay_end {
        FofPhase::Decay
    } else {
        FofPhase::FadeOut
    }
}

/// What is left of a fade-out ramp is what sounds.
proof fn lemma_fade_life(s: FofState, n: nat)
    requires
        s.phase is FadeOut,
        s.t <= s.fadeout_end,
    ensures
        s.samples(n) =~= Seq::new(
            if n <= s.fadeout_end - s.t {
                n
            } else {
                (s.fadeout_end - s.t) as nat
            },
            |k: int| FofSample { phase: FofPhase::FadeOut, t: (s.t + k) as u32 },
        ),
        s.after(n).phase is Dead <==> n > s.fadeout_end - s.t,
{
    let left = (s.fadeout_end - s.t) as nat;
    if n <= left {
        lemma_run(s, n);
    } else {
        lemma_run(s, left);
        law_playing_is_continuous(s, left, (n - left) as nat);
        assert(left + (n - left) as nat == n);
        let end = s.after(left);
        lemma_transition(end, (n - left) as nat);
        law_dead_is_silent(end.transitioned(), (n - left) as nat, 0, 0);
    }
}

proof fn lemma_decay_life(s: FofState, n: nat)
    requires
        s.phase is Decay,
        s.t <= s.decay_end,
        s.decay_end + s.fade_len <= u32::MAX,
        s.attack_end <= s.t,
    ensures
        s.samples(n) =~= Seq::new(
            if n <= s.decay_end + s.fade_len - s.t {
                n
            } else {
                (s.decay_end + s.fade_len - s.t) as nat
            },
            |k: int| FofSample { phase: natural_phase(s, s.t + k), t: (s.t + k) as u32 },
        ),
        s.after(n).phase is Dead <==> n > s.decay_end + s.fade_len - s.t,
{
    let left = (s.decay_end - s.t) as nat;
    if n <= left {
        lemma_run(s, n);
    } else {
        let more = (n - left) as nat;
        lemma_run(s, left);
        law_playing_is_continuous(s, left, more);
        assert(left + more == n);
        let end = s.after(left);
        lemma_transition(end, more);
        lemma_fade_life(end.transitioned(), more);
    }
}

/// The natural life of a grain: `attack_end` samples of attack, decay up to
/// `decay_end`, then a ramp of `fade_len` samples, each sample once and in
/// order; asked for one more, the grain is dead. (A life that does not end
/// within the sample counter's range is left out.)
pub proof fn law_natural_life(params: FofParams, timing: FofTiming, n: nat)
    requires
        FofState::spawned(params, timing).decay_end + timing.fade_len <= u32::MAX,
    ensures
        ({
            let s = FofState::spawned(params, timing);
            let life = (s.decay_end + s.fade_len) as nat;
            &&& s.samples(n) == Seq::new(
                if n <= life {
                    n
                } else {
                    life
                },
                |k: int| FofSample { phase: natural_phase(s, k), t: k as u32 },
            )
            &&& s.after(n).phase is Dead <==> n > life
        }),
{
    let s = FofState::spawned(params, timing);
    let life = (s.decay_end + s.fade_len) as nat;
    let left = s.attack_end as nat;
    let natural = Seq::new(
        if n <= life {
            n
        } else {
            life
        },
        |k: int| FofSample { phase: natural_phase(s, k), t: k as u32 },
    );
    if n <= left {
        lemma_run(s, n);
    } else {
        let more = (n - left) as nat;
        lemma_run(s, left);
        law_playing_is_continuous(s, left, more);
        assert(left + more == n);
        let end = s.after(left);
        lemma_transition(end, more);
        lemma_decay_life(end.transitioned(), more);
    }
    assert(s.samples(n) =~= natural);
}

/// A grain that is not killed does not die before its decay has ended. One
/// without a natural end decays on for as long as its sample counter reaches.
pub proof fn law_grain_lives_to_the_end_of_its_decay(params: FofParams, timing: FofTiming, n: nat)
    requires
        n <= FofState::spawned(params, timing).decay_end,
    ensures
        !(FofState::spawned(params, timing).after(n).phase is Dead),
        timing.decay_len is None ==> FofState::spawned(params, timing).decay_end == u32::MAX,
{
    lemma_lives_on(FofState::spawned(params, timing), n);
}

proof fn lemma_lives_on(s: FofState, n: nat)
    requires
        s.phase is Attack || s.phase is Decay,
        s.t + n <= s.decay_end,
    ensures
        !(s.after(n).phase is Dead),
    decreases n,
{
    if n > 0 {
        reveal_with_fuel(FofState::settled, 3);
        lemma_lives_on(s.settled().ticked(), (n - 1) as nat);
    }
}

/// A kill that lands during attack or decay leaves exactly `fade_len` samples,
/// all of them on the ramp; a second kill changes nothing. (A ramp that runs
/// past the sample counter's range is left out.)
pub proof fn law_killed_life(
    s: FofState,
    n: nat,
    fade_dur: u32,
    fade_len: u32,
    again_dur: u32,
    again_len: u32,
)
    requires
        s.phase is Attack || s.phase is Decay,
        s.t + fade_len <= u32::MAX,
    ensures
        ({
            let k = s.killed(fade_dur, fade_len);
            &&& k.samples(n) == Seq::new(
                if n <= fade_len {
                    n
                } else {
                    fade_len as nat
                },
                |i: int| FofSample { phase: FofPhase::FadeOut, t: (s.t + i) as u32 },
            )
            &&& k.after(n).phase is Dead <==> n > fade_len
            &&& k.killed(again_dur, again_len) == k
        }),
{
    lemma_fade_life(s.killed(fade_dur, fade_len), n);
}

/// A grain that fades has not begun to before it sounded.
pub open spec fn ramp_begun(s: FofState) -> bool {
    s.phase is FadeOut ==> s.t_fo <= s.t
}

proof fn lemma_ramp_is_kept(s: FofState, n: nat)
    requires
        s.phase is FadeOut || s.phase is Dead,
    ensures
        s.after(n).t_fo == s.t_fo,
        s.after(n).fadeout_end == s.fadeout_end,
    decreases n,
{
    if s.phase is FadeOut {
        assert(s.transitioned().settled() == s.transitioned());
    }
    if n > 0 && !(s.settled().phase is Dead) {
        lemma_ramp_is_kept(s.settled().ticked(), (n - 1) as nat);
    }
}

proof fn lemma_settled_ramp(s: FofState)
    requires
        ramp_begun(s),
    ensures
        ramp_begun(s.settled()),
        s.settled().phase is Dead || s.settled().t < s.settled().phase_end(),
    decreases s.phase.remaining(),
{
    if !(s.phase is Dead || s.t < s.phase_end()) {
        lemma_settled_ramp(s.transitioned());
    }
}

/// Every sample of a fade-out lies on its ramp: not before the ramp begins, and
/// before it ends.
pub proof fn law_fade_out_stays_on_its_ramp(s: FofState, n: nat, k: int)
    requires
        ramp_begun(s),
        0 <= k < s.samples(n).len(),
        s.samples(n)[k].phase is FadeOut,
    ensures
        s.after(n).t_fo <= s.samples(n)[k].t < s.after(n).fadeout_end,
    decreases n,
{
    let now = s.settled();
    lemma_settled_ramp(s);
    if k == 0 {
        lemma_ramp_is_kept(now.ticked(), (n - 1) as nat);
    } else {
        law_fade_out_stays_on_its_ramp(now.ticked(), (n - 1) as nat, k - 1);
    }
}

/// A ramp begins where the grain stands, whether the grain is new, was killed
/// or has been playing.
pub proof fn law_ramps_begin_in_place(
    params: FofParams,
    timing: FofTiming,
    s: FofState,
    n: nat,
    fade_dur: u32,
    fade_len: u32,
)
    requires
        ramp_begun(s),
    ensures
        ramp_begun(FofState::spawned(params, timing)),
        ramp_begun(s.killed(fade_dur, fade_len)),
        ramp_begun(s.after(n)),
    decreases n,
{
    lemma_settled_ramp(s);
    if n > 0 && !(s.settled().phase is Dead) {
        law_ramps_begin_in_place(
            params,
            timing,
            s.settled().ticked(),
            (n - 1) as nat,
            fade_dur,
            fade_len,
        );
    }
}

/// A grain that fades does so to its end, on the ramp that it is on: from the
/// level of the sample at `t_fo` of the phase that was cut short.
pub proof fn law_fading_goes_on_to_the_end(s: FofState, n: nat)
    requires
        s.phase is FadeOut || s.phase is Dead,
    ensures
        s.after(n).phase is FadeOut || s.after(n).phase is Dead,
        s.after(n).t_fo == s.t_fo,
        s.after(n).fade_from == s.fade_from,
        s.after(n).fade_dur == s.fade_dur,
        s.after(n).fadeout_end == s.fadeout_end,
        forall|k: int|
            #![trigger s.samples(n)[k]]
            0 <= k < s.samples(n).len() ==> s.samples(n)[k].phase is FadeOut,
    decreases n,
{
    if s.phase is FadeOut {
        assert(s.transitioned().settled() == s.transitioned());
    }
    if n > 0 && !(s.settled().phase is Dead) {
        let next = s.settled().ticked();
        law_fading_goes_on_to_the_end(next, (n - 1) as nat);
        assert forall|k: int| #![trigger s.samples(n)[k]] 0 <= k < s.samples(n).len() implies
            s.samples(n)[k].phase is FadeOut by {
            if k > 0 {
                assert(s.samples(n)[k] == next.samples((n - 1) as nat)[k - 1]);
            }
        }
    }
}

/// A new grain carries what was asked for, unchanged, and has not sounded yet.
pub proof fn law_new_grain_is_as_asked_for(params: FofParams, timing: FofTiming)
    ensures
        FofState::spawned(params, timing).params == params,
        FofState::spawned(params, timing).phase is Attack,
        FofState::spawned(params, timing).t == 0,
        FofState::spawned(params, timing).wf(),
{
}

/// The samples of a grain up to the end of its decay: sample `k` rises while
/// `k` is below the length of the attack that was given, and decays from there
/// on. The decay ends at the length that was given for it, or with the attack
/// where that is longer, and never if none was given: then the grain decays for
/// as long as its samples can be counted.
pub proof fn law_rise_and_decay(params: FofParams, timing: FofTiming, n: nat)
    requires
        timing.decay_len matches Some(d) ==> n <= d || n <= timing.attack_len,
        n <= u32::MAX,
    ensures
        ({
            let given = FofState::spawned(params, timing).samples(n);
            &&& given.len() == n
            &&& forall|k: int|
                #![trigger given[k]]
                0 <= k < n ==> given[k].t == k && (if k < timing.attack_len {
                    given[k].phase is Attack
                } else {
                    given[k].phase is Decay
                })
        }),
        !(FofState::spawned(params, timing).after(n).phase is Dead),
{
    let s = FofState::spawned(params, timing);
    let left = s.attack_end as nat;
    law_grain_lives_to_the_end_of_its_decay(params, timing, n);
    if n <= left {
        lemma_run(s, n);
    } else {
        let more = (n - left) as nat;
        lemma_run(s, left);
        law_playing_is_continuous(s, left, more);
        assert(left + more == n);
        let end = s.after(left);
        lemma_transition(end, more);
        lemma_run(end.transitioned(), more);
    }
}

/// The life of a grain that nothing cuts short, by the lengths that were given
/// for it: it rises for `attack_len` samples, decays up to sample `decay_len`,
/// or not at all where the attack is longer, and is on its ramp for `fade_len`
/// samples after that. It has one sample for each of these, and asked for more
/// it is dead. (A life that does not end within the sample counter's range is
/// left out.)
pub proof fn law_life_has_the_lengths_given(params: FofParams, timing: FofTiming, d: u32, n: nat)
    requires
        timing.decay_len == Some(d),
        d + timing.fade_len <= u32::MAX,
        timing.attack_len + timing.fade_len <= u32::MAX,
    ensures
        ({
            let grain = FofState::spawned(params, timing);
            let given = grain.samples(n);
            let decayed: int = if d > timing.attack_len {
                d as int
            } else {
                timing.attack_len as int
            };
            let life = decayed + timing.fade_len;
            &&& given.len() == (if n < life {
                n as int
            } else {
                life
            })
            &&& forall|k: int|
                #![trigger given[k]]
                0 <= k < given.len() ==> given[k].t == k && (if k < timing.attack_len {
                    given[k].phase is Attack
                } else if k < decayed {
                    given[k].phase is Decay
                } else {
                    given[k].phase is FadeOut
                })
            &&& grain.after(n).phase is Dead <==> n > life
        }),
{
    law_natural_life(params, timing, n);
}

/// A kill that lands while a grain rises or decays begins a ramp where the grain
/// stands: at the sample that comes next, from the phase that was cut short,
/// over the duration that was asked for. Nothing else changes, and the grain is
/// as far as it was. One that fades or is dead is left as it is.
pub proof fn law_kill_begins_a_ramp_in_place(s: FofState, fade_dur: u32, fade_len: u32)
    ensures
        ({
            let k = s.killed(fade_dur, fade_len);
            &&& s.phase is Attack || s.phase is Decay ==> {
                &&& k.phase is FadeOut
                &&& k.t_fo == s.t
                &&& k.fade_from == s.phase
                &&& k.fade_dur == fade_dur
                &&& s.t + fade_len <= u32::MAX ==> k.fadeout_end == s.t + fade_len
                &&& k.t == s.t
                &&& k.params == s.params
                &&& k.fade_len == s.fade_len
                &&& k.attack_end == s.attack_end
                &&& k.decay_end == s.decay_end
            }
            &&& s.phase is FadeOut || s.phase is Dead ==> k == s
        }),
{
}

/// The ramp that ends a natural life begins at the end of the decay, from the
/// level that the decay has fallen to, over the duration that the grain's own
/// parameters give, and the grain stays on it.
pub proof fn law_decay_ends_in_its_own_ramp(params: FofParams, timing: FofTiming, d: u32, n: nat)
    requires
        timing.decay_len == Some(d),
        n > d,
        n > timing.attack_len,
    ensures
        ({
            let s = FofState::spawned(params, timing).after(n);
            &&& s.phase is FadeOut || s.phase is Dead
            &&& s.t_fo == (if d > timing.attack_len {
                d
            } else {
                timing.attack_len
            })
            &&& s.fade_from is Decay
            &&& s.fade_dur == params.fade_dur
        }),
{
    let s = FofState::spawned(params, timing);
    let left = s.attack_end as nat;
    let more = (n - left) as nat;
    lemma_run(s, left);
    law_playing_is_continuous(s, left, more);
    assert(left + more == n);
    let end = s.after(left);
    lemma_transition(end, more);
    let falling = end.transitioned();
    let fall = (s.decay_end - left) as nat;
    let rest = (more - fall) as nat;
    lemma_run(falling, fall);
    law_playing_is_continuous(falling, fall, rest);
    assert(fall + rest == more);
    let fallen = falling.after(fall);
    lemma_transition(fallen, rest);
    law_fading_goes_on_to_the_end(fallen.transitioned(), rest);
}

/// A grain gives its samples one after the other from where it stands, each
/// once, and stands behind the last of them afterwards. It gives fewer than it
/// was asked for only by dying.
pub proof fn law_samples_count_up(s: FofState, n: nat)
    requires
        s.t + n <= u32::MAX,
    ensures
        s.samples(n).len() <= n,
        forall|k: int|
            #![trigger s.samples(n)[k]]
            0 <= k < s.samples(n).len() ==> s.samples(n)[k].t == s.t + k && !(s.samples(
                n,
            )[k].phase is Dead),
        s.after(n).t == s.t + s.samples(n).len(),
        s.samples(n).len() < n ==> s.after(n).phase is Dead,
    decreases n,
{
    lemma_settled_is_settled(s);
    if n > 0 && !(s.settled().phase is Dead) {
        let next = s.settled().ticked();
        law_samples_count_up(next, (n - 1) as nat);
        assert forall|k: int| #![trigger s.samples(n)[k]] 0 <= k < s.samples(n).len() implies
            s.samples(n)[k].t == s.t + k && !(s.samples(n)[k].phase is Dead) by {
            if k > 0 {
                assert(s.samples(n)[k] == next.samples((n - 1) as nat)[k - 1]);
            }
        }
    }
}

/// A grain sounds in a block from its start on, or from the start of the block
/// where that is later, and to the end of the block: what it is asked for lies
/// at these absolute times.
pub proof fn law_grain_sounds_from_its_start(start_sample: u64, block_start: u64, block_size: nat)
    ensures
        ({
            let from = block_start + start_offset(start_sample, block_start);
            let until = from + samples_wanted(start_sample, block_start, block_size as int);
            &&& from >= start_sample
            &&& from >= block_start
            &&& from == start_sample || from == block_start
            &&& start_sample < block_start + block_size ==> until == block_start + block_size
            &&& start_sample >= block_start + block_size ==> until == from
        }),
{
}

/// Runs say of each of their samples where in the block it lies and what it is.
pub proof fn law_runs_place_their_samples(runs: Seq<FofRun>, start: int, i: int, k: int)
    requires
        runs_contiguous(runs, start),
        0 <= i < runs.len(),
        0 <= k < runs[i].len,
        runs[i].t + runs[i].len <= u32::MAX + 1,
    ensures
        0 <= runs[i].offset + k - start < run_samples(runs).len(),
        run_samples(runs)[runs[i].offset + k - start].phase == runs[i].phase,
        run_samples(runs)[runs[i].offset + k - start].t == runs[i].t + k,
    decreases runs.len(),
{
    let fewer = runs.drop_last();
    let n = runs.len() - 1;
    if i < n {
        assert forall|j: int| #![trigger fewer[j]] 0 <= j < fewer.len() implies fewer[j].len > 0
            && fewer[j].offset == start + run_samples(fewer.take(j)).len() by {
            assert(fewer[j] == runs[j]);
            assert(fewer.take(j) =~= runs.take(j));
        }
        law_runs_place_their_samples(fewer, start, i, k);
        assert(fewer[i] == runs[i]);
    } else {
        assert(runs.take(i) =~= fewer);
    }
}

/// Runs have no other samples than these: as many in all as the runs are long,
/// so that the last one ends where the samples do.
pub proof fn law_runs_end_with_their_samples(runs: Seq<FofRun>, start: int)
    requires
        runs_contiguous(runs, start),
    ensures
        runs.len() == 0 ==> run_samples(runs).len() == 0,
        runs.len() > 0 ==> runs[0].offset == start && runs.last().offset + runs.last().len == start
            + run_samples(runs).len(),
        forall|i: int, j: int|
            #![trigger runs[i], runs[j]]
            0 <= i < runs.len() && j == i + 1 && j < runs.len() ==> runs[i].offset + runs[i].len
                == runs[j].offset,
{
    if runs.len() > 0 {
        assert(runs.take(runs.len() - 1) =~= runs.drop_last());
        assert(runs[runs.len() - 1].len > 0);
        assert(runs.take(0) =~= Seq::<FofRun>::empty());
        assert(run_samples(runs.take(0)).len() == 0);
        assert(runs[0].len > 0);
    }
    assert forall|i: int, j: int|
        #![trigger runs[i], runs[j]]
        0 <= i < runs.len() && j == i + 1 && j < runs.len() implies runs[i].offset + runs[i].len
        == runs[j].offset by {
        assert(runs.take(j).drop_last() =~= runs.take(i));
        assert(runs.take(j).last() == runs[i]);
    }
}

/// Playing changes a grain only as it has to: its parameters, the lengths of its
/// phases and of its own ramp stay, and while it rises or decays nothing changes
/// but its phase and how far it is.
pub proof fn law_playing_changes_phase_and_count(s: FofState, n: nat)
    ensures
        s.after(n).params == s.params,
        s.after(n).fade_len == s.fade_len,
        s.after(n).attack_end == s.attack_end,
        s.after(n).decay_end == s.decay_end,
        s.after(n).phase is Attack || s.after(n).phase is Decay ==> s.after(n) == (FofState {
            phase: s.after(n).phase,
            t: s.after(n).t,
            ..s
        }),
    decreases n,
{
    lemma_settled_changes(s);
    if n > 0 && !(s.settled().phase is Dead) {
        law_playing_changes_phase_and_count(s.settled().ticked(), (n - 1) as nat);
        law_phases_only_advance(s.settled().ticked(), (n - 1) as nat, 0, 0);
    }
}

proof fn lemma_settled_changes(s: FofState)
    ensures
        s.settled().params == s.params,
        s.settled().fade_len == s.fade_len,
        s.settled().attack_end == s.attack_end,
        s.settled().decay_end == s.decay_end,
        s.settled().phase is Attack || s.settled().phase is Decay ==> s.settled() == (FofState {
            phase: s.settled().phase,
            ..s
        }),
        s.settled().phase.remaining() <= s.phase.remaining(),
    decreases s.phase.remaining(),
{
    if !(s.phase is Dead || s.t < s.phase_end()) {
        lemma_settled_changes(s.transitioned());
    }
}

/// In a block a grain is played for as many samples as lie between the later of
/// its start and that of the block, and the end of the block.
pub proof fn law_block_plays_what_lies_in_it(s: FofState, block_start: u64, block_size: nat)
    ensures
        ({
            let from: int = if s.params.start_sample > block_start {
                s.params.start_sample as int
            } else {
                block_start as int
            };
            let end = block_start + block_size;
            s.after_block(block_start, block_size as int) == s.after(
                if from < end {
                    (end - from) as nat
                } else {
                    0
                },
            )
        }),
{
}

/// Samples that are computed at a time.
pub const LANES: usize = 8;

/// How many of `n` samples are computed `LANES` at a time; the rest follow one
/// by one.
pub fn lane_samples(n: usize) -> (whole: usize)
    ensures
        whole == n / LANES * LANES,
        n - LANES < whole <= n,
        whole % 8 == 0,
        n < whole + 8,
{
    n - n % LANES
}

} // verus!
