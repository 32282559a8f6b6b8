//! Bookkeeping of the level probe: which ports it listens to, and where each
//! sample that passes between its threads belongs.
use vstd::prelude::*;

verus! {

/// Frames that are collected before they are written out.
pub const CHUNK_FRAMES: usize = 4096;

/// Least capacity of the ring between the threads.
pub const MIN_RING: usize = 4096;

/// The range of the matching ports to probe, or `None` if there are not that
/// many.
pub fn select_ports(start: usize, count: usize, n_matches: usize) -> (range: Option<(usize, usize)>)
    ensures
        range == (if start + count <= n_matches {
            Some((start, (start + count) as usize))
        } else {
            None::<(usize, usize)>
        }),
{
    if start > n_matches || count > n_matches - start {
        None
    } else {
        Some((start, start + count))
    }
}

/// Capacity of the ring between the threads: two seconds of all channels, and
/// not less than the least.
pub fn ring_capacity(n_channels: usize, sample_rate: usize) -> (capacity: usize)
    requires
        n_channels * sample_rate * 2 <= usize::MAX,
    ensures
        capacity == (if n_channels * sample_rate * 2 > MIN_RING {
            n_channels * sample_rate * 2
        } else {
            MIN_RING as int
        }),
        capacity >= 4096,
        capacity >= n_channels * sample_rate * 2,
        capacity == 4096 || capacity == n_channels * sample_rate * 2,
{
    proof {
        assert(n_channels * sample_rate >= 0) by (nonlinear_arith);
    }
    let two_seconds: usize = n_channels * sample_rate * 2;
    if two_seconds > MIN_RING {
        two_seconds
    } else {
        MIN_RING
    }
}

/// Lets whole frames into the ring, and counts those that have no room. A part
/// of a frame would shift the channels of every sample after it.
pub struct FrameGate {
    n_channels: usize,
    dropped: u64,
}

impl FrameGate {
    pub closed spec fn channels(&self) -> usize {
        self.n_channels
    }

    /// Frames dropped so far.
    pub closed spec fn drops(&self) -> u64 {
        self.dropped
    }

    pub fn new(n_channels: usize) -> (gate: FrameGate)
        ensures
            gate.channels() == n_channels,
            gate.drops() == 0,
    {
        FrameGate { n_channels, dropped: 0 }
    }

    /// Whether a frame goes into a ring with this many free slots.
    pub fn offer(&mut self, slots: usize) -> (enters: bool)
        ensures
            final(self).channels() == old(self).channels(),
            enters == (slots >= old(self).channels()),
            final(self).drops() == (if enters {
                old(self).drops() as int
            } else {
                (old(self).drops() + 1) % 0x1_0000_0000_0000_0000
            }),
    {
        if slots < self.n_channels {
            self.dropped = self.dropped.wrapping_add(1);
            false
        } else {
            true
        }
    }

    /// Frames dropped so far.
    pub fn dropped(&self) -> (n: u64)
        ensures
            n == self.drops(),
    {
        self.dropped
    }
}

/// Where a sample belongs.
#[derive(Clone, Copy, Debug, PartialEq, Eq, Structural)]
pub struct SamplePlace {
    pub channel: usize,
    /// Position in the chunk.
    pub at: usize,
    /// Whether the chunk is full with it.
    pub flush: bool,
}

/// Keeps track of the channel and chunk position of interleaved samples.
pub struct SampleTracker {
    n_channels: usize,
    total: u64,
    frames: u64,
    channel: usize,
    at: usize,
}

impl SampleTracker {
    /// Samples seen so far.
    pub closed spec fn total(&self) -> u64 {
        self.total
    }

    pub closed spec fn channels(&self) -> usize {
        self.n_channels
    }

    /// Samples of a chunk.
    pub open spec fn chunk(&self) -> int {
        self.channels() * CHUNK_FRAMES
    }

    pub closed spec fn wf(&self) -> bool {
        &&& self.n_channels > 0
        &&& self.chunk() <= usize::MAX
        &&& self.channel == self.total as int % self.n_channels as int
        &&& self.frames == self.total as int / self.n_channels as int
        &&& self.at == self.total as int % self.chunk()
    }

    pub fn new(n_channels: usize) -> (tracker: SampleTracker)
        requires
            n_channels > 0,
            n_channels * CHUNK_FRAMES <= usize::MAX,
        ensures
            tracker.wf(),
            tracker.total() == 0,
            tracker.channels() == n_channels,
    {
        proof {
            vstd::arithmetic::div_mod::lemma_small_mod(0, n_channels as nat);
            vstd::arithmetic::div_mod::lemma_small_mod(0, (n_channels * CHUNK_FRAMES) as nat);
            vstd::arithmetic::div_mod::lemma_basic_div(0, n_channels as int);
        }
        SampleTracker { n_channels, total: 0, frames: 0, channel: 0, at: 0 }
    }

    /// Samples of a chunk.
    pub fn chunk_len(&self) -> (n: usize)
        requires
            self.wf(),
        ensures
            n == self.chunk(),
            n == self.channels() * 4096,
    {
        self.n_channels * CHUNK_FRAMES
    }

    /// Whether one more sample can be counted.
    pub fn can_take(&self) -> (b: bool)
        ensures
            b == (self.total() < u64::MAX),
    {
        self.total < u64::MAX
    }

    /// Take in the next sample, and say where it belongs.
    pub fn take(&mut self) -> (place: SamplePlace)
        requires
            old(self).wf(),
            old(self).total() < u64::MAX,
        ensures
            final(self).wf(),
            final(self).channels() == old(self).channels(),
            final(self).total() == old(self).total() + 1,
            place.channel == old(self).total() as int % old(self).channels() as int,
            place.at == old(self).total() as int % old(self).chunk(),
            place.flush == ((old(self).total() + 1) % old(self).chunk() == 0),
            place.at == old(self).total() as int % (old(self).channels() * 4096),
    {
        let chunk: usize = self.n_channels * CHUNK_FRAMES;
        let channel: usize = self.channel;
        let at: usize = self.at;
        proof {
            lemma_next(self.total as int, self.n_channels as int);
            lemma_next(self.total as int, chunk as int);
        }
        self.total = self.total + 1;
        if channel == self.n_channels - 1 {
            self.frames = self.frames + 1;
            self.channel = 0;
        } else {
            self.channel = channel + 1;
        }
        let flush: bool = at == chunk - 1;
        if flush {
            self.at = 0;
        } else {
            self.at = at + 1;
        }
        SamplePlace { channel, at, flush }
    }

    /// Whole frames seen so far.
    pub fn frame_count(&self) -> (n: u64)
        requires
            self.wf(),
        ensures
            n == self.total() as int / self.channels() as int,
    {
        self.frames
    }

    /// Samples in the chunk that have not been written out.
    pub fn pending(&self) -> (n: usize)
        requires
            self.wf(),
        ensures
            n == self.total() as int % self.chunk(),
    {
        self.at
    }
}

/// Quotient and remainder of the next number.
proof fn lemma_next(x: int, m: int)
    requires
        x >= 0,
        m > 0,
    ensures
        0 <= x % m < m,
        x / m <= x,
        x / m >= 0,
        (x + 1) % m == (if x % m == m - 1 {
            0
        } else {
            x % m + 1
        }),
        (x + 1) / m == (if x % m == m - 1 {
            x / m + 1
        } else {
            x / m
        }),
{
    let q = x / m;
    let r = x % m;
    vstd::arithmetic::div_mod::lemma_fundamental_div_mod(x, m);
    vstd::arithmetic::div_mod::lemma_mod_bound(x, m);
    vstd::arithmetic::div_mod::lemma_div_pos_is_pos(x, m);
    assert(q <= x) by (nonlinear_arith)
        requires
            x == m * q + r,
            m >= 1,
            q >= 0,
            r >= 0,
    ;
    if r == m - 1 {
        assert((q + 1) * m == x + 1) by (nonlinear_arith)
            requires
                x == m * q + r,
                r == m - 1,
        ;
        vstd::arithmetic::div_mod::lemma_fundamental_div_mod_converse(x + 1, m, q + 1, 0);
    } else {
        assert(q * m + (r + 1) == x + 1) by (nonlinear_arith)
            requires
                x == m * q + r,
        ;
        vstd::arithmetic::div_mod::lemma_fundamental_div_mod_converse(x + 1, m, q, r + 1);
    }
}

/// Only whole frames enter the ring, so that a sample's place in the stream
/// tells its channel: after any number of frames the next one starts at
/// channel 0.
pub proof fn law_frames_stay_aligned(frames: int, n_channels: int, channel: int)
    requires
        frames >= 0,
        0 <= channel < n_channels,
    ensures
        (frames * n_channels + channel) % n_channels == channel,
        (frames * n_channels + channel) / n_channels == frames,
{
    vstd::arithmetic::div_mod::lemma_fundamental_div_mod_converse(
        frames * n_channels + channel,
        n_channels,
        frames,
        channel,
    );
}

} // verus!
