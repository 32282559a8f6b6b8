//! What a client of a running server asks for, and the codes it is answered
//! with: submitting grains, requesting early fade-outs, reading the stats.
//!
//! Every function takes the handle that connecting gave. Without one it
//! answers as documented and changes nothing.
use crate::clock::ClockMode;
use crate::fof::{FofKillRequest, FofParams};
use crate::queue::{KillQueueProducer, TimeWheelProducer};
use crate::schedule::QueueStats;
use crate::setup::AttachError;
use crate::shm::{BlockModel, SharedControlBlock, FOF_CAP, KILL_CAP};
use vstd::prelude::*;

verus! {

/// Answer to a request that was accepted.
pub const OK: i32 = 0;

/// Answer to a request without a handle, or without a place for the result.
pub const NO_HANDLE: i32 = -1;

/// Answer to a request for which the ring has no room; it can be repeated.
pub const RING_FULL: i32 = -2;

/// Answer to a switch to a clock mode that there is none of.
pub const UNKNOWN_MODE: i32 = -2;

/// A client's attachment to a running server.
pub struct ClientHandle {
    block: SharedControlBlock,
}

impl View for ClientHandle {
    type V = BlockModel;

    closed spec fn view(&self) -> BlockModel {
        self.block@
    }
}

impl ClientHandle {
    /// The control block is in order, and holds no more than it has room for.
    pub open spec fn wf(&self) -> bool {
        &&& self.block_wf()
        &&& self@.is_bounded()
    }

    pub closed spec fn block_wf(&self) -> bool {
        self.block.wf()
    }
}

/// A handle, where there is one, is in order.
pub open spec fn handle_wf(handle: Option<ClientHandle>) -> bool {
    handle matches Some(h) ==> h.wf()
}

/// Snapshot of the queue stats living in the shared control block.
#[derive(Clone, Copy, Debug, PartialEq, Eq, Structural)]
pub struct RfofsStats {
    pub too_late: u64,
    pub too_early: u64,
    pub slot_full: u64,
    pub queue_size: u64,
}

impl RfofsStats {
    /// What the counters say.
    pub open spec fn of(stats: crate::schedule::StatsModel) -> RfofsStats {
        RfofsStats {
            too_late: stats.too_late,
            too_early: stats.too_early,
            slot_full: stats.slot_full,
            queue_size: stats.queue_size,
        }
    }

    /// A snapshot of the counters.
    pub fn snapshot(stats: &QueueStats) -> (snapshot: RfofsStats)
        ensures
            snapshot == RfofsStats::of(stats@),
    {
        RfofsStats {
            too_late: stats.too_late,
            too_early: stats.too_early,
            slot_full: stats.slot_full,
            queue_size: stats.queue_size,
        }
    }
}

/// The answer to a request, given how the push went, if there was a handle to
/// push through.
pub fn reply<T>(pushed: Option<Result<(), T>>) -> (code: i32)
    ensures
        code == (match pushed {
            None => NO_HANDLE,
            Some(Ok(_)) => OK,
            Some(Err(_)) => RING_FULL,
        }),
        pushed is None ==> code == -1,
        pushed matches Some(Ok(_)) ==> code == 0,
        pushed matches Some(Err(_)) ==> code == -2,
{
    match pushed {
        None => NO_HANDLE,
        Some(Ok(_)) => OK,
        Some(Err(_)) => RING_FULL,
    }
}

/// The handle that an attempt to attach gives: none if no running server was
/// found, or if its segment doesn't match this build.
pub fn rfofs_connect(attached: Result<SharedControlBlock, AttachError>) -> (handle: Option<
    ClientHandle,
>)
    requires
        attached matches Ok(block) ==> block.wf(),
    ensures
        handle_wf(handle),
        match attached {
            Ok(block) => handle matches Some(h) && h@ == block@,
            Err(_) => handle is None,
        },
{
    match attached {
        Ok(block) => Some(ClientHandle { block }),
        Err(_) => None,
    }
}

/// The bits of the audio server's sample rate in Hz, an `f32`; those of 0.0
/// without a handle.
pub fn rfofs_sample_rate(handle: &Option<ClientHandle>) -> (bits: u32)
    ensures
        bits == (match handle {
            Some(h) => h@.header.sample_rate_bits,
            None => 0,
        }),
{
    match handle {
        Some(h) => h.block.sample_rate(),
        None => 0,
    }
}

/// The audio server's nominal buffer size, in frames; 0 without a handle.
pub fn rfofs_block_size(handle: &Option<ClientHandle>) -> (frames: u32)
    ensures
        frames == (match handle {
            Some(h) => h@.header.block_size,
            None => 0,
        }),
{
    match handle {
        Some(h) => h.block.block_size(),
        None => 0,
    }
}

/// The number of the clock mode in force; 0 without a handle.
pub fn rfofs_clock_mode(handle: &Option<ClientHandle>) -> (mode: u32)
    ensures
        mode == (match handle {
            Some(h) => h@.header.clock_mode,
            None => 0,
        }),
{
    match handle {
        Some(h) => h.block.clock_mode(),
        None => 0,
    }
}

/// Switch the clock mode of the running server. A number that is not that of a
/// mode changes nothing.
///
/// Answers 0 on success, -1 without a handle, -2 for an unknown mode.
pub fn rfofs_set_clock_mode(handle: &mut Option<ClientHandle>, mode: u32) -> (code: i32)
    requires
        handle_wf(*old(handle)),
    ensures
        handle_wf(*final(handle)),
        match *old(handle) {
            Some(h) => {
                &&& code == (if ClockMode::numbered(mode) is Some {
                    OK
                } else {
                    UNKNOWN_MODE
                })
                &&& *final(handle) matches Some(after) && after@ == h@.with_clock_mode(mode)
                &&& mode == 1 || mode == 2 ==> code == 0 && final(handle)->0@.header.clock_mode
                    == mode
                &&& mode != 1 && mode != 2 ==> code == -2 && final(handle)->0@ == h@
            },
            None => code == NO_HANDLE && *final(handle) is None,
        },
{
    match handle.take() {
        Some(mut h) => {
            let accepted: bool = h.block.set_clock_mode(mode);
            *handle = Some(h);
            if accepted {
                OK
            } else {
                UNKNOWN_MODE
            }
        },
        None => NO_HANDLE,
    }
}

/// The engine's current absolute sample clock; 0 without a handle.
pub fn rfofs_current_sample(handle: &Option<ClientHandle>) -> (sample: u64)
    ensures
        sample == (match handle {
            Some(h) => h@.header.current_sample,
            None => 0,
        }),
{
    match handle {
        Some(h) => h.block.current_sample(),
        None => 0,
    }
}

/// Release a handle.
pub fn rfofs_disconnect(handle: &mut Option<ClientHandle>)
    ensures
        *final(handle) is None,
{
    *handle = None;
}

/// Submit a new grain. Its floats are given by their bits.
///
/// Answers 0 on success, -1 without a handle, -2 if the ring is full.
pub fn rfofs_add_fof(handle: &mut Option<ClientHandle>, params: FofParams) -> (code: i32)
    requires
        handle_wf(*old(handle)),
    ensures
        handle_wf(*final(handle)),
        match *old(handle) {
            Some(h) => {
                &&& code == (if h@.fofs.len() == FOF_CAP {
                    RING_FULL
                } else {
                    OK
                })
                &&& *final(handle) matches Some(after) && after@ == h@.with_fof(params)
                &&& h@.fofs.len() < FOF_CAP ==> code == 0 && final(handle)->0@.fofs
                    == h@.fofs.push(params)
                &&& h@.fofs.len() == FOF_CAP ==> code == -2 && final(handle)->0@ == h@
            },
            None => code == NO_HANDLE && *final(handle) is None,
        },
{
    match handle.take() {
        Some(mut h) => {
            let pushed: Result<(), FofParams> = h.block.try_push_fof(params);
            *handle = Some(h);
            reply(Some(pushed))
        },
        None => reply::<FofParams>(None),
    }
}

/// Request an early fade-out on a tracked grain. The bits of the duration in
/// seconds, an `f32`, are given.
///
/// Answers 0 on success, -1 without a handle, -2 if the ring is full.
pub fn rfofs_kill(handle: &mut Option<ClientHandle>, id: u64, fade_dur: u32) -> (code: i32)
    requires
        handle_wf(*old(handle)),
    ensures
        handle_wf(*final(handle)),
        match *old(handle) {
            Some(h) => {
                &&& code == (if h@.kills.len() == KILL_CAP {
                    RING_FULL
                } else {
                    OK
                })
                &&& *final(handle) matches Some(after) && after@ == h@.with_kill(
                    (FofKillRequest { id, fade_dur }),
                )
                &&& h@.kills.len() < KILL_CAP ==> code == 0 && final(handle)->0@.kills
                    == h@.kills.push((FofKillRequest { id, fade_dur }))
                &&& h@.kills.len() == KILL_CAP ==> code == -2 && final(handle)->0@ == h@
            },
            None => code == NO_HANDLE && *final(handle) is None,
        },
{
    match handle.take() {
        Some(mut h) => {
            let pushed: Result<(), FofKillRequest> = h.block.try_push_kill(
                FofKillRequest { id, fade_dur },
            );
            *handle = Some(h);
            reply(Some(pushed))
        },
        None => reply::<FofKillRequest>(None),
    }
}

/// Read a live snapshot of the queue stats.
///
/// Answers 0 on success, -1 without a handle or without a place for it.
pub fn rfofs_get_stats(handle: &Option<ClientHandle>, out: &mut Option<RfofsStats>) -> (code: i32)
    ensures
        if handle is Some && *old(out) is Some {
            &&& code == OK && *final(out) == Some(RfofsStats::of(handle->0@.stats))
            &&& code == 0
            &&& final(out)->0.too_late == handle->0@.stats.too_late
            &&& final(out)->0.too_early == handle->0@.stats.too_early
            &&& final(out)->0.slot_full == handle->0@.stats.slot_full
            &&& final(out)->0.queue_size == handle->0@.stats.queue_size
        } else {
            code == NO_HANDLE && code == -1 && *final(out) == *old(out)
        },
{
    match handle {
        Some(h) => {
            if out.is_none() {
                return NO_HANDLE;
            }
            *out = Some(RfofsStats::snapshot(h.block.stats()));
            OK
        },
        None => NO_HANDLE,
    }
}

/// Hand what came through the control plane on to the queues that feed the
/// engine, and say whether anything came. What a queue refuses is dropped: one
/// that was found full by a look at what has been taken.
pub fn forward(
    fof: Option<FofParams>,
    kill: Option<FofKillRequest>,
    wheel_tx: &mut TimeWheelProducer,
    kill_tx: &mut KillQueueProducer,
) -> (did_work: bool)
    requires
        old(wheel_tx).wf(),
        old(kill_tx).wf(),
    ensures
        did_work == (fof is Some || kill is Some),
        final(wheel_tx).wf(),
        final(wheel_tx).log() == old(wheel_tx).log(),
        final(wheel_tx).capacity() == old(wheel_tx).capacity(),
        match fof {
            Some(params) => {
                ||| final(wheel_tx).sent() == old(wheel_tx).sent() + 1
                    && final(wheel_tx).log()[old(wheel_tx).sent() as int] == params
                ||| final(wheel_tx).sent() == old(wheel_tx).sent() && final(wheel_tx).looks()
                    > old(wheel_tx).looks() && final(wheel_tx).sent() - final(wheel_tx).freed()
                    == final(wheel_tx).capacity()
            },
            None => *final(wheel_tx) == *old(wheel_tx),
        },
        fof is Some && old(wheel_tx).sent() - old(wheel_tx).freed() < old(wheel_tx).capacity()
            ==> final(wheel_tx).sent() == old(wheel_tx).sent() + 1,
        final(kill_tx).wf(),
        final(kill_tx).log() == old(kill_tx).log(),
        final(kill_tx).capacity() == old(kill_tx).capacity(),
        match kill {
            Some(req) => {
                ||| final(kill_tx).sent() == old(kill_tx).sent() + 1
                    && final(kill_tx).log()[old(kill_tx).sent() as int] == req
                ||| final(kill_tx).sent() == old(kill_tx).sent() && final(kill_tx).looks() > old(
                    kill_tx,
                ).looks() && final(kill_tx).sent() - final(kill_tx).freed() == final(
                    kill_tx).capacity()
            },
            None => *final(kill_tx) == *old(kill_tx),
        },
        kill is Some && old(kill_tx).sent() - old(kill_tx).freed() < old(kill_tx).capacity()
            ==> final(kill_tx).sent() == old(kill_tx).sent() + 1,
{
    let mut did_work: bool = false;
    if let Some(params) = fof {
        let _ = wheel_tx.push(params);
        did_work = true;
    }
    if let Some(req) = kill {
        let _ = kill_tx.push(req);
        did_work = true;
    }
    did_work
}

/// A snapshot of the stats says what the counters say.
pub proof fn law_snapshot_says_what_was_counted(stats: crate::schedule::StatsModel)
    ensures
        RfofsStats::of(stats).too_late == stats.too_late,
        RfofsStats::of(stats).too_early == stats.too_early,
        RfofsStats::of(stats).slot_full == stats.slot_full,
        RfofsStats::of(stats).queue_size == stats.queue_size,
{
}

} // verus!
