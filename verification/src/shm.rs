//! Control plane: two single-producer/single-consumer rings (new grains, kill
//! requests) and a live stats block, through which another process controls a
//! running server.
//!
//! Here is what each side does with the counters and what the block holds. The
//! memory itself, shared between processes, is mapped by the caller.
use crate::clock::ClockMode;
use crate::fof::{FofKillRequest, FofParams};
use crate::schedule::{QueueStats, StatsModel};
use vstd::arithmetic::div_mod;
use vstd::prelude::*;

verus! {

/// First word of the segment, checked on attach.
pub const MAGIC: u64 = 0x5246_4F46_535F_4331;

/// Layout of the segment, checked on attach.
pub const VERSION: u32 = 1;

/// Capacity of the ring of new grains.
pub const FOF_CAP: usize = 4096;

/// Capacity of the ring of kill requests.
pub const KILL_CAP: usize = 256;

/// Name of the segment.
pub const SHM_NAME: &'static str = "/rfofs_ctl";

/// Environment variable that overrides the name of the segment.
pub const SHM_NAME_ENV: &'static str = "RFOFS_SHM_NAME";

/// The name of the segment, given the value of the environment variable.
pub fn shm_name(from_env: Option<String>) -> (name: String)
    ensures
        name@ == (match from_env {
            Some(value) => value@,
            None => SHM_NAME@,
        }),
{
    match from_env {
        Some(value) => value,
        None => SHM_NAME.to_owned(),
    }
}

/// One more than the largest counter.
pub open spec fn counters() -> int {
    0x1_0000_0000_0000_0000
}

/// How far `tail` is ahead of `head`, both wrapping.
pub open spec fn pending(head: u64, tail: u64) -> int {
    if head <= tail {
        tail - head
    } else {
        tail - head + counters()
    }
}

/// A counter `n` steps on, wrapping.
pub open spec fn stepped(counter: u64, n: int) -> u64 {
    ((counter + n) % counters()) as u64
}

/// The slot that a counter stands for in a ring of `cap` slots.
pub open spec fn slot_of(counter: u64, cap: usize) -> int {
    counter as int % cap as int
}

/// Slots follow each other across the wrap of the counters.
pub open spec fn wraps_cleanly(cap: usize) -> bool {
    counters() % (cap as int) == 0
}

/// Where the producer writes next and its counter after that, or `None` while
/// the ring is full.
pub open spec fn push_at(head: u64, tail: u64, cap: usize) -> Option<(int, u64)> {
    if pending(head, tail) >= cap {
        None
    } else {
        Some((slot_of(tail, cap), stepped(tail, 1)))
    }
}

/// Where the consumer reads next and its counter after that, or `None` while
/// the ring is empty.
pub open spec fn pop_at(head: u64, tail: u64, cap: usize) -> Option<(int, u64)> {
    if head == tail {
        None
    } else {
        Some((slot_of(head, cap), stepped(head, 1)))
    }
}

/// The producer's step: the slot to write and the counter to publish after
/// the write, or `None` if the ring is full.
pub fn push_slot(head: u64, tail: u64, cap: usize) -> (step: Option<(usize, u64)>)
    requires
        cap > 0,
    ensures
        match push_at(head, tail, cap) {
            Some((slot, next)) => step matches Some((s, n)) && s == slot && n == next && s < cap,
            None => step is None,
        },
{
    if tail.wrapping_sub(head) >= cap as u64 {
        return None;
    }
    let slot: u64 = tail % (cap as u64);
    Some((slot as usize, tail.wrapping_add(1)))
}

/// The consumer's step: the slot to read and the counter to publish after the
/// read, or `None` if the ring is empty.
pub fn pop_slot(head: u64, tail: u64, cap: usize) -> (step: Option<(usize, u64)>)
    requires
        cap > 0,
    ensures
        match pop_at(head, tail, cap) {
            Some((slot, next)) => step matches Some((s, n)) && s == slot && n == next && s < cap,
            None => step is None,
        },
{
    if head == tail {
        return None;
    }
    let slot: u64 = head % (cap as u64);
    Some((slot as usize, head.wrapping_add(1)))
}

proof fn lemma_slot(counter: u64, n: int, cap: usize)
    requires
        cap > 0,
        n >= 0,
        wraps_cleanly(cap) || counter + n < counters(),
    ensures
        slot_of(stepped(counter, n), cap) == (counter + n) % (cap as int),
{
    let x = counter + n;
    let c = cap as int;
    if x < counters() {
        div_mod::lemma_small_mod(x as nat, counters() as nat);
    } else {
        let k = counters() / c;
        assert(counters() == c * k && k > 0) by (nonlinear_arith)
            requires
                c > 0,
                counters() % c == 0,
                k == counters() / c,
                counters() > 0,
        ;
        div_mod::lemma_mod_mod(x, c, k);
    }
}

pub proof fn lemma_slots_differ(x: int, y: int, cap: usize)
    requires
        cap > 0,
        0 < y - x < cap,
    ensures
        x % (cap as int) != y % (cap as int),
{
    if x % (cap as int) == y % (cap as int) {
        div_mod::lemma_mod_equivalence(y, x, cap as int);
        div_mod::lemma_small_mod((y - x) as nat, cap as nat);
    }
}

/// A fixed-capacity single-producer/single-consumer ring. `head` and `tail` are
/// ever-growing counters; only the slot index is reduced by the capacity.
pub struct Ring<T: Copy, const CAP: usize> {
    head: u64,
    tail: u64,
    slots: Vec<T>,
}

impl<T: Copy, const CAP: usize> View for Ring<T, CAP> {
    type V = Seq<T>;

    /// The items in the ring, oldest first.
    closed spec fn view(&self) -> Seq<T> {
        Seq::new(
            pending(self.head, self.tail) as nat,
            |i: int| self.slots@[slot_of(stepped(self.head, i), CAP)],
        )
    }
}

impl<T: Copy, const CAP: usize> Ring<T, CAP> {
    /// The ring is in order, and holds no more items than it has slots.
    pub open spec fn wf(&self) -> bool {
        &&& self.counters_agree()
        &&& self@.len() <= CAP
    }

    /// The counters stand for slots of the ring.
    pub closed spec fn counters_agree(&self) -> bool {
        &&& CAP > 0
        &&& self.slots@.len() == CAP
        &&& pending(self.head, self.tail) <= CAP
        &&& wraps_cleanly(CAP) || self.head <= self.tail
    }

    /// There is a counter for one more item. Only a ring whose capacity does
    /// not divide the number of counters runs out of them.
    pub closed spec fn can_count(&self) -> bool {
        wraps_cleanly(CAP) || self.tail < u64::MAX
    }

    /// An empty ring.
    pub fn new(fill: T) -> (ring: Ring<T, CAP>)
        requires
            CAP > 0,
        ensures
            ring.wf(),
            ring.can_count(),
            ring@ == Seq::<T>::empty(),
    {
        let mut slots: Vec<T> = Vec::with_capacity(CAP);
        let mut i: usize = 0;
        while i < CAP
            invariant
                i <= CAP,
                slots@.len() == i,
            decreases CAP - i,
        {
            slots.push(fill);
            i = i + 1;
        }
        let ring: Ring<T, CAP> = Ring { head: 0, tail: 0, slots };
        proof {
            assert(ring@ =~= Seq::empty());
        }
        ring
    }

    /// Push `item`. Fails (returning it back) if the ring is full.
    pub fn try_push(&mut self, item: T) -> (r: Result<(), T>)
        requires
            old(self).wf(),
            old(self).can_count(),
        ensures
            final(self).wf(),
            wraps_cleanly(CAP) ==> final(self).can_count(),
            if old(self)@.len() < CAP {
                r == Ok::<(), T>(()) && final(self)@ == old(self)@.push(item)
            } else {
                r == Err::<(), T>(item) && *final(self) == *old(self)
            },
    {
        match push_slot(self.head, self.tail, CAP) {
            Some((slot, next)) => {
                let ghost before = *self;
                self.slots[slot] = item;
                self.tail = next;
                proof {
                    let n = pending(before.head, before.tail);
                    lemma_stepped(before.head, n);
                    lemma_stepped(before.head, n + 1);
                    assert(stepped(before.head, n) == before.tail);
                    assert(stepped(before.head, n + 1) == next);
                    assert(pending(self.head, self.tail) == n + 1);
                    assert forall|i: int| 0 <= i < n implies self@[i] == before@[i] by {
                        lemma_slot(before.head, i, CAP);
                        lemma_slot(before.head, n, CAP);
                        lemma_slots_differ(before.head + i, before.head + n, CAP);
                    }
                    assert(self@ =~= before@.push(item));
                }
                Ok(())
            },
            None => Err(item),
        }
    }

    /// Pop the oldest item, if any.
    pub fn try_pop(&mut self) -> (r: Option<T>)
        requires
            old(self).wf(),
        ensures
            final(self).wf(),
            old(self).can_count() ==> final(self).can_count(),
            if old(self)@.len() > 0 {
                r == Some(old(self)@[0]) && final(self)@ == old(self)@.drop_first()
            } else {
                r is None && *final(self) == *old(self)
            },
    {
        match pop_slot(self.head, self.tail, CAP) {
            Some((slot, next)) => {
                let ghost before = *self;
                let item: T = self.slots[slot];
                self.head = next;
                proof {
                    let n = pending(before.head, before.tail);
                    lemma_stepped(before.head, 0);
                    lemma_stepped(before.head, 1);
                    assert(pending(self.head, self.tail) == n - 1);
                    assert forall|i: int| 0 <= i < n - 1 implies self@[i] == before@[i + 1] by {
                        lemma_stepped(before.head, i + 1);
                        lemma_stepped(next, i);
                        assert(stepped(next, i) == stepped(before.head, i + 1));
                    }
                    assert(self@ =~= before@.drop_first());
                }
                Some(item)
            },
            None => None,
        }
    }
}

proof fn lemma_stepped(counter: u64, n: int)
    requires
        0 <= n < counters(),
    ensures
        stepped(counter, n) == (if counter + n < counters() {
            counter + n
        } else {
            counter + n - counters()
        }),
{
    let x = counter + n;
    if x < counters() {
        div_mod::lemma_small_mod(x as nat, counters() as nat);
    } else {
        div_mod::lemma_small_mod((x - counters()) as nat, counters() as nat);
        div_mod::lemma_mod_equivalence(x, x - counters(), counters());
    }
}

/// A producer that sees an old position of the consumer writes, if it writes,
/// where it would have written knowing the present one, and never into a slot
/// that the consumer has yet to read.
pub proof fn law_stale_head_is_safe(seen: u64, head: u64, tail: u64, cap: usize)
    requires
        cap > 0,
        pending(head, tail) <= pending(seen, tail) <= cap,
        wraps_cleanly(cap) || head <= tail,
        push_at(seen, tail, cap) is Some,
    ensures
        push_at(head, tail, cap) == push_at(seen, tail, cap),
        forall|i: int|
            #![trigger stepped(head, i)]
            0 <= i < pending(head, tail) ==> slot_of(stepped(head, i), cap) != slot_of(tail, cap),
{
    let n = pending(head, tail);
    assert forall|i: int| #![trigger stepped(head, i)] 0 <= i < n implies slot_of(
        stepped(head, i),
        cap,
    ) != slot_of(tail, cap) by {
        lemma_stepped(head, n);
        lemma_slot(head, i, cap);
        lemma_slot(head, n, cap);
        lemma_slots_differ(head + i, head + n, cap);
    }
}

/// A consumer that sees an old position of the producer reads, if it reads,
/// the item that it would have read knowing the present one.
pub proof fn law_stale_tail_is_safe(head: u64, seen: u64, tail: u64, cap: usize)
    requires
        cap > 0,
        pending(head, seen) <= pending(head, tail) <= cap,
        pop_at(head, seen, cap) is Some,
    ensures
        pop_at(head, tail, cap) == pop_at(head, seen, cap),
{
}

/// The contents of a ring after pushes, each of which fails if it is full.
pub open spec fn pushed_all<T>(contents: Seq<T>, items: Seq<T>, cap: int) -> Seq<T>
    decreases items.len(),
{
    if items.len() == 0 {
        contents
    } else {
        let before = pushed_all(contents, items.drop_last(), cap);
        if before.len() < cap {
            before.push(items.last())
        } else {
            before
        }
    }
}

/// The contents of a ring after `n` pops, each of which does nothing if it is
/// empty.
pub open spec fn popped<T>(contents: Seq<T>, n: nat) -> Seq<T>
    decreases n,
{
    if n == 0 {
        contents
    } else {
        let before = popped(contents, (n - 1) as nat);
        if before.len() > 0 {
            before.drop_first()
        } else {
            before
        }
    }
}

/// Items come out of a ring in the order in which they went in, after what was
/// there before them; where there is no room the first ones stay.
pub proof fn law_first_in_first_out<T>(contents: Seq<T>, items: Seq<T>, cap: int, n: nat)
    requires
        contents.len() <= cap,
    ensures
        ({
            let room = cap - contents.len();
            let kept = if items.len() <= room {
                items
            } else {
                items.take(room)
            };
            &&& pushed_all(contents, items, cap) == contents + kept
            &&& n <= contents.len() + kept.len() ==> popped(
                pushed_all(contents, items, cap),
                n,
            ) == (contents + kept).skip(n as int)
        }),
{
    lemma_pushed_all(contents, items, cap);
    let full = pushed_all(contents, items, cap);
    if n <= full.len() {
        lemma_popped(full, n);
    }
}

proof fn lemma_pushed_all<T>(contents: Seq<T>, items: Seq<T>, cap: int)
    requires
        contents.len() <= cap,
    ensures
        pushed_all(contents, items, cap) == contents + (if items.len() <= cap - contents.len() {
            items
        } else {
            items.take(cap - contents.len())
        }),
    decreases items.len(),
{
    let room = cap - contents.len();
    if items.len() == 0 {
        assert(contents + items =~= contents);
    } else {
        let rest = items.drop_last();
        lemma_pushed_all(contents, rest, cap);
        if items.len() <= room {
            assert((contents + rest).push(items.last()) =~= contents + items);
        } else if rest.len() <= room {
            assert(items.take(room) =~= rest);
        } else {
            assert(items.take(room) =~= rest.take(room));
        }
    }
}

proof fn lemma_popped<T>(contents: Seq<T>, n: nat)
    requires
        n <= contents.len(),
    ensures
        popped(contents, n) == contents.skip(n as int),
    decreases n,
{
    if n == 0 {
        assert(contents.skip(0) =~= contents);
    } else {
        lemma_popped(contents, (n - 1) as nat);
        assert(contents.skip(n - 1).drop_first() =~= contents.skip(n as int));
    }
}

/// Something that is done to a ring.
pub enum RingOp<T> {
    Push(T),
    Pop,
}

/// What a ring holds after pushes and pops, in whatever sequence.
pub open spec fn held<T>(contents: Seq<T>, ops: Seq<RingOp<T>>, cap: int) -> Seq<T>
    decreases ops.len(),
{
    if ops.len() == 0 {
        contents
    } else {
        let before = held(contents, ops.drop_last(), cap);
        match ops.last() {
            RingOp::Push(item) => if before.len() < cap {
                before.push(item)
            } else {
                before
            },
            RingOp::Pop => if before.len() > 0 {
                before.drop_first()
            } else {
                before
            },
        }
    }
}

/// The items that were accepted on the way, in order.
pub open spec fn accepted<T>(contents: Seq<T>, ops: Seq<RingOp<T>>, cap: int) -> Seq<T>
    decreases ops.len(),
{
    if ops.len() == 0 {
        Seq::empty()
    } else {
        let so_far = accepted(contents, ops.drop_last(), cap);
        match ops.last() {
            RingOp::Push(item) => if held(contents, ops.drop_last(), cap).len() < cap {
                so_far.push(item)
            } else {
                so_far
            },
            RingOp::Pop => so_far,
        }
    }
}

/// The items that came out on the way, in order.
pub open spec fn came_out<T>(contents: Seq<T>, ops: Seq<RingOp<T>>, cap: int) -> Seq<T>
    decreases ops.len(),
{
    if ops.len() == 0 {
        Seq::empty()
    } else {
        let before = held(contents, ops.drop_last(), cap);
        let so_far = came_out(contents, ops.drop_last(), cap);
        match ops.last() {
            RingOp::Push(_) => so_far,
            RingOp::Pop => if before.len() > 0 {
                so_far.push(before[0])
            } else {
                so_far
            },
        }
    }
}

/// However pushes and pops follow each other, nothing that was accepted is
/// lost, doubled or overtaken: what was there at first and what was accepted is
/// what came out and what is still there, in this order. The ring never holds
/// more than it has room for.
pub proof fn law_nothing_is_lost_or_overtaken<T>(contents: Seq<T>, ops: Seq<RingOp<T>>, cap: int)
    requires
        contents.len() <= cap,
    ensures
        contents + accepted(contents, ops, cap) == came_out(contents, ops, cap) + held(
            contents,
            ops,
            cap,
        ),
        held(contents, ops, cap).len() <= cap,
    decreases ops.len(),
{
    if ops.len() == 0 {
        assert(contents + accepted(contents, ops, cap) =~= came_out(contents, ops, cap) + held(
            contents,
            ops,
            cap,
        ));
    } else {
        let fewer = ops.drop_last();
        law_nothing_is_lost_or_overtaken(contents, fewer, cap);
        let before = held(contents, fewer, cap);
        let went_in = accepted(contents, fewer, cap);
        let went_out = came_out(contents, fewer, cap);
        match ops.last() {
            RingOp::Push(item) => {
                assert(contents + went_in.push(item) =~= (contents + went_in).push(item));
                assert(went_out + before.push(item) =~= (went_out + before).push(item));
            },
            RingOp::Pop => {
                if before.len() > 0 {
                    assert(went_out.push(before[0]) + before.drop_first() =~= went_out + before);
                }
            },
        }
    }
}

/// The words of the segment besides the rings and the stats.
#[derive(Clone, Copy, Debug, PartialEq, Eq, Structural)]
pub struct Header {
    pub magic: u64,
    pub version: u32,
    /// 1 once the creator has finished initializing the segment.
    pub ready: u32,
    /// Bits of the audio server's sample rate, an `f32`. Written once.
    pub sample_rate_bits: u32,
    /// The audio server's nominal buffer size in frames. Written once.
    pub block_size: u32,
    /// Number of the clock mode in force.
    pub clock_mode: u32,
    /// 1 where the server keeps the stats.
    pub stats_enabled: u32,
    /// The engine's sample clock: start of the next block to be processed.
    pub current_sample: u64,
}

/// One word stored on the way to a ready segment.
#[derive(Clone, Copy, Debug, PartialEq, Eq, Structural)]
pub enum HeaderStore {
    Magic(u64),
    Version(u32),
    SampleRateBits(u32),
    BlockSize(u32),
    ClockMode(u32),
    StatsEnabled(u32),
    Ready(u32),
}

impl Header {
    /// What fresh pages hold.
    pub open spec fn blank() -> Header {
        Header {
            magic: 0,
            version: 0,
            ready: 0,
            sample_rate_bits: 0,
            block_size: 0,
            clock_mode: 0,
            stats_enabled: 0,
            current_sample: 0,
        }
    }

    /// The header of a server that is up.
    pub open spec fn of(sample_rate_bits: u32, block_size: u32, clock_mode: u32) -> Header {
        Header {
            magic: MAGIC,
            version: VERSION,
            ready: 1,
            sample_rate_bits,
            block_size,
            clock_mode,
            stats_enabled: 1,
            current_sample: 0,
        }
    }

    /// With one word stored.
    pub open spec fn stored(self, store: HeaderStore) -> Header {
        match store {
            HeaderStore::Magic(v) => Header { magic: v, ..self },
            HeaderStore::Version(v) => Header { version: v, ..self },
            HeaderStore::SampleRateBits(v) => Header { sample_rate_bits: v, ..self },
            HeaderStore::BlockSize(v) => Header { block_size: v, ..self },
            HeaderStore::ClockMode(v) => Header { clock_mode: v, ..self },
            HeaderStore::StatsEnabled(v) => Header { stats_enabled: v, ..self },
            HeaderStore::Ready(v) => Header { ready: v, ..self },
        }
    }

    /// With several words stored, in order.
    pub open spec fn stored_all(self, stores: Seq<HeaderStore>) -> Header
        decreases stores.len(),
    {
        if stores.len() == 0 {
            self
        } else {
            self.stored_all(stores.drop_last()).stored(stores.last())
        }
    }

    /// The segment is one of this build's.
    pub open spec fn matches_build(self) -> bool {
        self.magic == MAGIC && self.version == VERSION
    }
}

/// The stores that make blank pages a ready segment, in order.
pub open spec fn publication_order(
    sample_rate_bits: u32,
    block_size: u32,
    clock_mode: u32,
) -> Seq<HeaderStore> {
    seq![
        HeaderStore::Magic(MAGIC),
        HeaderStore::Version(VERSION),
        HeaderStore::SampleRateBits(sample_rate_bits),
        HeaderStore::BlockSize(block_size),
        HeaderStore::ClockMode(clock_mode),
        HeaderStore::StatsEnabled(1),
        HeaderStore::Ready(1),
    ]
}

/// The stores that make blank pages a ready segment, in order. `Ready` comes
/// last, so that a client that attaches meanwhile never sees it before the
/// rest.
pub fn publication(sample_rate_bits: u32, block_size: u32, clock_mode: u32) -> (stores: Vec<
    HeaderStore,
>)
    ensures
        stores@ == publication_order(sample_rate_bits, block_size, clock_mode),
{
    let mut stores: Vec<HeaderStore> = Vec::with_capacity(7);
    stores.push(HeaderStore::Magic(MAGIC));
    stores.push(HeaderStore::Version(VERSION));
    stores.push(HeaderStore::SampleRateBits(sample_rate_bits));
    stores.push(HeaderStore::BlockSize(block_size));
    stores.push(HeaderStore::ClockMode(clock_mode));
    stores.push(HeaderStore::StatsEnabled(1));
    stores.push(HeaderStore::Ready(1));
    stores
}

/// Whoever sees a segment ready, however far its creator has come, sees all
/// that the creator publishes, and a magic and version that match.
pub proof fn law_ready_means_published(
    sample_rate_bits: u32,
    block_size: u32,
    clock_mode: u32,
    n: int,
)
    requires
        0 <= n <= publication_order(sample_rate_bits, block_size, clock_mode).len(),
    ensures
        ({
            let seen = Header::blank().stored_all(
                publication_order(sample_rate_bits, block_size, clock_mode).take(n),
            );
            &&& seen.ready == 0 || seen.ready == 1
            &&& seen.ready == 1 ==> seen == Header::of(sample_rate_bits, block_size, clock_mode)
                && seen.matches_build()
            &&& seen.ready == 1 <==> n == publication_order(
                sample_rate_bits,
                block_size,
                clock_mode,
            ).len()
        }),
{
    reveal_with_fuel(Header::stored_all, 8);
    let all = publication_order(sample_rate_bits, block_size, clock_mode);
    assert(all.take(0) =~= Seq::<HeaderStore>::empty());
    assert(all.take(1).drop_last() =~= all.take(0));
    assert(all.take(2).drop_last() =~= all.take(1));
    assert(all.take(3).drop_last() =~= all.take(2));
    assert(all.take(4).drop_last() =~= all.take(3));
    assert(all.take(5).drop_last() =~= all.take(4));
    assert(all.take(6).drop_last() =~= all.take(5));
    assert(all.take(7).drop_last() =~= all.take(6));
    assert(n == 0 || n == 1 || n == 2 || n == 3 || n == 4 || n == 5 || n == 6 || n == 7);
}

/// What a control block holds.
#[verifier::ext_equal]
pub struct BlockModel {
    pub header: Header,
    /// Pending grains, oldest first.
    pub fofs: Seq<FofParams>,
    /// Pending kill requests, oldest first.
    pub kills: Seq<FofKillRequest>,
    pub stats: StatsModel,
}

impl BlockModel {
    /// No more grains and kill requests are pending than there is room for.
    pub open spec fn is_bounded(self) -> bool {
        self.fofs.len() <= FOF_CAP && self.kills.len() <= KILL_CAP
    }

    /// With another clock mode, if the number is that of one.
    pub open spec fn with_clock_mode(self, mode: u32) -> BlockModel {
        if ClockMode::numbered(mode) is Some {
            BlockModel { header: Header { clock_mode: mode, ..self.header }, ..self }
        } else {
            self
        }
    }

    /// With the sample clock moved.
    pub open spec fn with_current_sample(self, sample: u64) -> BlockModel {
        BlockModel { header: Header { current_sample: sample, ..self.header }, ..self }
    }

    /// With a grain pushed, if there is room.
    pub open spec fn with_fof(self, params: FofParams) -> BlockModel {
        if self.fofs.len() < FOF_CAP {
            BlockModel { fofs: self.fofs.push(params), ..self }
        } else {
            self
        }
    }

    /// With the oldest grain popped.
    pub open spec fn without_fof(self) -> BlockModel {
        if self.fofs.len() > 0 {
            BlockModel { fofs: self.fofs.drop_first(), ..self }
        } else {
            self
        }
    }

    /// With a kill request pushed, if there is room.
    pub open spec fn with_kill(self, req: FofKillRequest) -> BlockModel {
        if self.kills.len() < KILL_CAP {
            BlockModel { kills: self.kills.push(req), ..self }
        } else {
            self
        }
    }

    /// With the oldest kill request popped.
    pub open spec fn without_kill(self) -> BlockModel {
        if self.kills.len() > 0 {
            BlockModel { kills: self.kills.drop_first(), ..self }
        } else {
            self
        }
    }
}

pub proof fn lemma_capacities_wrap_cleanly()
    ensures
        wraps_cleanly(FOF_CAP),
        wraps_cleanly(KILL_CAP),
{
    assert(0x1_0000_0000_0000_0000int % 4096int == 0) by (nonlinear_arith);
    assert(0x1_0000_0000_0000_0000int % 256int == 0) by (nonlinear_arith);
}

/// The full contents of the shared segment.
pub struct SharedControlBlock {
    header: Header,
    fof_ring: Ring<FofParams, FOF_CAP>,
    kill_ring: Ring<FofKillRequest, KILL_CAP>,
    stats: QueueStats,
}

impl View for SharedControlBlock {
    type V = BlockModel;

    closed spec fn view(&self) -> BlockModel {
        BlockModel {
            header: self.header,
            fofs: self.fof_ring@,
            kills: self.kill_ring@,
            stats: self.stats@,
        }
    }
}

impl SharedControlBlock {
    /// The rings are in order, and hold no more than they have room for.
    pub open spec fn wf(&self) -> bool {
        &&& self.rings_wf()
        &&& self@.is_bounded()
    }

    pub closed spec fn rings_wf(&self) -> bool {
        &&& self.fof_ring.wf()
        &&& self.fof_ring.can_count()
        &&& self.kill_ring.wf()
        &&& self.kill_ring.can_count()
    }

    /// A block as fresh pages hold it, with room for a histogram over
    /// `n_slots` slots.
    pub fn blank(n_slots: usize) -> (block: SharedControlBlock)
        ensures
            block.wf(),
            block@ == (BlockModel {
                header: Header::blank(),
                fofs: Seq::empty(),
                kills: Seq::empty(),
                stats: StatsModel::zero(n_slots as nat),
            }),
    {
        let no_fof: FofParams = FofParams {
            id: 0,
            start_sample: 0,
            f: 0,
            gliss: 0,
            phi: 0,
            amp: 0,
            alpha: 0,
            beta: 0,
            fade_level: 0,
            fade_dur: 0,
            azm: 0,
            elev: 0,
            distance: 0,
        };
        SharedControlBlock {
            header: Header {
                magic: 0,
                version: 0,
                ready: 0,
                sample_rate_bits: 0,
                block_size: 0,
                clock_mode: 0,
                stats_enabled: 0,
                current_sample: 0,
            },
            fof_ring: Ring::new(no_fof),
            kill_ring: Ring::new(FofKillRequest { id: 0, fade_dur: 0 }),
            stats: QueueStats::zero(n_slots),
        }
    }

    /// Store one word of the header.
    pub fn store(&mut self, store: HeaderStore)
        requires
            old(self).wf(),
        ensures
            final(self).wf(),
            final(self)@ == (BlockModel { header: old(self)@.header.stored(store), ..old(self)@ }),
    {
        match store {
            HeaderStore::Magic(v) => self.header.magic = v,
            HeaderStore::Version(v) => self.header.version = v,
            HeaderStore::SampleRateBits(v) => self.header.sample_rate_bits = v,
            HeaderStore::BlockSize(v) => self.header.block_size = v,
            HeaderStore::ClockMode(v) => self.header.clock_mode = v,
            HeaderStore::StatsEnabled(v) => self.header.stats_enabled = v,
            HeaderStore::Ready(v) => self.header.ready = v,
        }
    }

    /// Publish what the server runs with, and mark the block ready.
    pub fn publish(&mut self, sample_rate_bits: u32, block_size: u32, clock_mode: u32)
        requires
            old(self).wf(),
            old(self)@.header == Header::blank(),
        ensures
            final(self).wf(),
            final(self)@ == (BlockModel {
                header: Header::of(sample_rate_bits, block_size, clock_mode),
                ..old(self)@
            }),
    {
        let stores: Vec<HeaderStore> = publication(sample_rate_bits, block_size, clock_mode);
        let ghost before = self@;
        let mut i: usize = 0;
        proof {
            assert(stores@.take(0) =~= Seq::<HeaderStore>::empty());
        }
        while i < stores.len()
            invariant
                i <= stores@.len(),
                self.wf(),
                self@ == (BlockModel {
                    header: before.header.stored_all(stores@.take(i as int)),
                    ..before
                }),
            decreases stores@.len() - i,
        {
            proof {
                assert(stores@.take(i + 1).drop_last() =~= stores@.take(i as int));
            }
            self.store(stores[i]);
            i = i + 1;
        }
        proof {
            law_ready_means_published(sample_rate_bits, block_size, clock_mode, i as int);
        }
    }

    /// The words besides the rings and the stats.
    pub fn header(&self) -> (header: Header)
        ensures
            header == self@.header,
    {
        self.header
    }

    /// The audio server's sample rate in Hz, as the bits of an `f32`.
    pub fn sample_rate(&self) -> (bits: u32)
        ensures
            bits == self@.header.sample_rate_bits,
    {
        self.header.sample_rate_bits
    }

    /// The audio server's nominal buffer size, in frames.
    pub fn block_size(&self) -> (frames: u32)
        ensures
            frames == self@.header.block_size,
    {
        self.header.block_size
    }

    /// The number of the clock mode in force.
    pub fn clock_mode(&self) -> (mode: u32)
        ensures
            mode == self@.header.clock_mode,
    {
        self.header.clock_mode
    }

    /// Switch the clock mode. A number that is not that of a mode is refused
    /// and changes nothing.
    pub fn set_clock_mode(&mut self, mode: u32) -> (accepted: bool)
        requires
            old(self).wf(),
        ensures
            final(self).wf(),
            accepted == (ClockMode::numbered(mode) is Some),
            final(self)@ == old(self)@.with_clock_mode(mode),
    {
        match ClockMode::from_u32(mode) {
            Some(_) => {
                self.header.clock_mode = mode;
                true
            },
            None => false,
        }
    }

    /// The stats, as last recorded.
    pub fn stats(&self) -> (stats: &QueueStats)
        ensures
            stats@ == self@.stats,
    {
        &self.stats
    }

    /// Record the stats.
    pub fn set_stats(&mut self, stats: QueueStats)
        requires
            old(self).wf(),
        ensures
            final(self).wf(),
            final(self)@ == (BlockModel { stats: stats@, ..old(self)@ }),
    {
        self.stats = stats;
    }

    /// Whether the server keeps the stats.
    pub fn stats_enabled(&self) -> (enabled: bool)
        ensures
            enabled == (self@.header.stats_enabled == 1),
    {
        self.header.stats_enabled == 1
    }

    /// The engine's current absolute sample clock. A client submits grains
    /// that start at this plus some headroom.
    pub fn current_sample(&self) -> (sample: u64)
        ensures
            sample == self@.header.current_sample,
    {
        self.header.current_sample
    }

    /// Publish the engine's current sample clock, once per block.
    pub fn set_current_sample(&mut self, sample: u64)
        requires
            old(self).wf(),
        ensures
            final(self).wf(),
            final(self)@ == old(self)@.with_current_sample(sample),
    {
        self.header.current_sample = sample;
    }

    /// Submit a new grain. Called by the client.
    pub fn try_push_fof(&mut self, params: FofParams) -> (r: Result<(), FofParams>)
        requires
            old(self).wf(),
        ensures
            final(self).wf(),
            r == (if old(self)@.fofs.len() < FOF_CAP {
                Ok::<(), FofParams>(())
            } else {
                Err::<(), FofParams>(params)
            }),
            final(self)@ == old(self)@.with_fof(params),
            old(self)@.fofs.len() < FOF_CAP ==> final(self)@.fofs == old(self)@.fofs.push(params),
            old(self)@.fofs.len() == FOF_CAP ==> final(self)@ == old(self)@,
    {
        proof {
            lemma_capacities_wrap_cleanly();
        }
        self.fof_ring.try_push(params)
    }

    /// Take one pending grain, if any. Called by the server.
    pub fn try_pop_fof(&mut self) -> (r: Option<FofParams>)
        requires
            old(self).wf(),
        ensures
            final(self).wf(),
            r == (if old(self)@.fofs.len() > 0 {
                Some(old(self)@.fofs[0])
            } else {
                None::<FofParams>
            }),
            final(self)@ == old(self)@.without_fof(),
            r matches Some(params) ==> old(self)@.fofs == seq![params] + final(self)@.fofs,
    {
        self.fof_ring.try_pop()
    }

    /// Submit a kill request. Called by the client.
    pub fn try_push_kill(&mut self, req: FofKillRequest) -> (r: Result<(), FofKillRequest>)
        requires
            old(self).wf(),
        ensures
            final(self).wf(),
            r == (if old(self)@.kills.len() < KILL_CAP {
                Ok::<(), FofKillRequest>(())
            } else {
                Err::<(), FofKillRequest>(req)
            }),
            final(self)@ == old(self)@.with_kill(req),
            old(self)@.kills.len() < KILL_CAP ==> final(self)@.kills == old(self)@.kills.push(req),
            old(self)@.kills.len() == KILL_CAP ==> final(self)@ == old(self)@,
    {
        proof {
            lemma_capacities_wrap_cleanly();
        }
        self.kill_ring.try_push(req)
    }

    /// Take one pending kill request, if any. Called by the server.
    pub fn try_pop_kill(&mut self) -> (r: Option<FofKillRequest>)
        requires
            old(self).wf(),
        ensures
            final(self).wf(),
            r == (if old(self)@.kills.len() > 0 {
                Some(old(self)@.kills[0])
            } else {
                None::<FofKillRequest>
            }),
            final(self)@ == old(self)@.without_kill(),
            r matches Some(req) ==> old(self)@.kills == seq![req] + final(self)@.kills,
    {
        self.kill_ring.try_pop()
    }
}

/// Grains and kill requests do not get in each other's way.
pub proof fn law_rings_are_independent(b: BlockModel, params: FofParams, req: FofKillRequest)
    ensures
        b.with_fof(params).kills == b.kills,
        b.without_fof().kills == b.kills,
        b.with_kill(req).fofs == b.fofs,
        b.without_kill().fofs == b.fofs,
        b.with_fof(params).with_kill(req) == b.with_kill(req).with_fof(params),
        b.without_fof().with_kill(req) == b.with_kill(req).without_fof(),
{
}

/// What a client submits to an empty ring is what the server takes next, and
/// the block is then as it was.
pub proof fn law_server_takes_what_client_submits(
    b: BlockModel,
    params: FofParams,
    req: FofKillRequest,
)
    ensures
        b.fofs.len() == 0 ==> b.with_fof(params).fofs[0] == params && b.with_fof(
            params,
        ).without_fof() == b,
        b.kills.len() == 0 ==> b.with_kill(req).kills[0] == req && b.with_kill(req).without_kill()
            == b,
{
    if b.fofs.len() == 0 {
        assert(b.with_fof(params).without_fof() =~= b);
    }
    if b.kills.len() == 0 {
        assert(b.with_kill(req).without_kill() =~= b);
    }
}

/// Whatever is pending, a grain that is submitted while there is room is pending
/// behind the others, as it was submitted, and so is a kill request. Where there
/// is no room nothing changes. Nothing but the one ring is touched.
pub proof fn law_submission_is_appended(b: BlockModel, params: FofParams, req: FofKillRequest)
    ensures
        b.fofs.len() < 4096 ==> b.with_fof(params).fofs == b.fofs.push(params),
        b.fofs.len() >= 4096 ==> b.with_fof(params) == b,
        b.with_fof(params).header == b.header,
        b.with_fof(params).kills == b.kills,
        b.with_fof(params).stats == b.stats,
        b.kills.len() < 256 ==> b.with_kill(req).kills == b.kills.push(req),
        b.kills.len() >= 256 ==> b.with_kill(req) == b,
        b.with_kill(req).header == b.header,
        b.with_kill(req).fofs == b.fofs,
        b.with_kill(req).stats == b.stats,
{
}

/// What is taken is what has been pending longest; the others stay, in their
/// order. Where nothing is pending nothing changes. Nothing but the one ring is
/// touched.
pub proof fn law_oldest_submission_is_taken(b: BlockModel)
    ensures
        b.fofs.len() > 0 ==> seq![b.fofs[0]] + b.without_fof().fofs == b.fofs,
        b.fofs.len() == 0 ==> b.without_fof() == b,
        b.without_fof().header == b.header,
        b.without_fof().kills == b.kills,
        b.without_fof().stats == b.stats,
        b.kills.len() > 0 ==> seq![b.kills[0]] + b.without_kill().kills == b.kills,
        b.kills.len() == 0 ==> b.without_kill() == b,
        b.without_kill().header == b.header,
        b.without_kill().fofs == b.fofs,
        b.without_kill().stats == b.stats,
{
    if b.fofs.len() > 0 {
        assert(seq![b.fofs[0]] + b.without_fof().fofs =~= b.fofs);
    }
    if b.kills.len() > 0 {
        assert(seq![b.kills[0]] + b.without_kill().kills =~= b.kills);
    }
}

/// The block after a client has submitted grains, one after the other.
pub open spec fn with_fofs(b: BlockModel, items: Seq<FofParams>) -> BlockModel
    decreases items.len(),
{
    if items.len() == 0 {
        b
    } else {
        with_fofs(b, items.drop_last()).with_fof(items.last())
    }
}

/// The block after a server has taken `n` grains.
pub open spec fn without_fofs(b: BlockModel, n: nat) -> BlockModel
    decreases n,
{
    if n == 0 {
        b
    } else {
        without_fofs(b, (n - 1) as nat).without_fof()
    }
}

/// However many grains a client submits before the server takes any, the server
/// takes each as it was submitted and in this order, behind those that were
/// pending: the one after `n` others is the `n`th of them all.
pub proof fn law_server_takes_all_that_was_submitted(
    b: BlockModel,
    items: Seq<FofParams>,
    n: nat,
)
    requires
        b.fofs.len() + items.len() <= 4096,
        n < b.fofs.len() + items.len(),
    ensures
        without_fofs(with_fofs(b, items), n).fofs.len() == b.fofs.len() + items.len() - n,
        without_fofs(with_fofs(b, items), n).fofs[0] == (b.fofs + items)[n as int],
{
    lemma_all_pending(b, items);
    lemma_some_taken(with_fofs(b, items), n);
}

proof fn lemma_all_pending(b: BlockModel, items: Seq<FofParams>)
    requires
        b.fofs.len() + items.len() <= 4096,
    ensures
        with_fofs(b, items).fofs == b.fofs + items,
    decreases items.len(),
{
    if items.len() == 0 {
        assert(b.fofs + items =~= b.fofs);
    } else {
        lemma_all_pending(b, items.drop_last());
        law_submission_is_appended(
            with_fofs(b, items.drop_last()),
            items.last(),
            FofKillRequest { id: 0, fade_dur: 0 },
        );
        assert((b.fofs + items.drop_last()).push(items.last()) =~= b.fofs + items);
    }
}

proof fn lemma_some_taken(b: BlockModel, n: nat)
    requires
        n <= b.fofs.len(),
    ensures
        without_fofs(b, n).fofs == b.fofs.skip(n as int),
    decreases n,
{
    if n == 0 {
        assert(b.fofs.skip(0) =~= b.fofs);
    } else {
        lemma_some_taken(b, (n - 1) as nat);
        assert(b.fofs.skip(n - 1).drop_first() =~= b.fofs.skip(n as int));
    }
}

/// A switch to mode 1 or 2 is what the header says then; any other number
/// changes nothing, and nothing else is touched.
pub proof fn law_clock_mode_is_switched(b: BlockModel, mode: u32)
    ensures
        ({
            let after = b.with_clock_mode(mode);
            &&& mode == 1 || mode == 2 ==> after.header.clock_mode == mode
            &&& mode != 1 && mode != 2 ==> after == b
            &&& after.header == (Header { clock_mode: after.header.clock_mode, ..b.header })
            &&& after.fofs == b.fofs
            &&& after.kills == b.kills
            &&& after.stats == b.stats
        }),
{
}

/// The sample clock is what it was set to, and nothing else is touched.
pub proof fn law_sample_clock_is_published(b: BlockModel, sample: u64)
    ensures
        ({
            let after = b.with_current_sample(sample);
            &&& after.header.current_sample == sample
            &&& after.header == (Header { current_sample: sample, ..b.header })
            &&& after.fofs == b.fofs
            &&& after.kills == b.kills
            &&& after.stats == b.stats
        }),
{
}

/// A word that is stored is read back, and every other word is as it was.
pub proof fn law_stored_word_is_read_back(h: Header, store: HeaderStore)
    ensures
        ({
            let after = h.stored(store);
            &&& after.magic == (if let HeaderStore::Magic(v) = store {
                v
            } else {
                h.magic
            })
            &&& after.version == (if let HeaderStore::Version(v) = store {
                v
            } else {
                h.version
            })
            &&& after.ready == (if let HeaderStore::Ready(v) = store {
                v
            } else {
                h.ready
            })
            &&& after.sample_rate_bits == (if let HeaderStore::SampleRateBits(v) = store {
                v
            } else {
                h.sample_rate_bits
            })
            &&& after.block_size == (if let HeaderStore::BlockSize(v) = store {
                v
            } else {
                h.block_size
            })
            &&& after.clock_mode == (if let HeaderStore::ClockMode(v) = store {
                v
            } else {
                h.clock_mode
            })
            &&& after.stats_enabled == (if let HeaderStore::StatsEnabled(v) = store {
                v
            } else {
                h.stats_enabled
            })
            &&& after.current_sample == h.current_sample
        }),
{
}

/// What a server publishes is what it runs with: whoever sees the segment ready
/// reads the sample rate, the block size and the clock mode that were given, a
/// segment of this build, and stats that are kept.
pub proof fn law_published_words_are_those_given(
    sample_rate_bits: u32,
    block_size: u32,
    clock_mode: u32,
    n: int,
)
    requires
        0 <= n <= publication_order(sample_rate_bits, block_size, clock_mode).len(),
    ensures
        ({
            let seen = Header::blank().stored_all(
                publication_order(sample_rate_bits, block_size, clock_mode).take(n),
            );
            &&& seen.ready == 1 ==> {
                &&& seen.sample_rate_bits == sample_rate_bits
                &&& seen.block_size == block_size
                &&& seen.clock_mode == clock_mode
                &&& seen.stats_enabled == 1
                &&& seen.current_sample == 0
                &&& seen.magic == MAGIC
                &&& seen.version == VERSION
            }
            &&& n == publication_order(sample_rate_bits, block_size, clock_mode).len()
                ==> seen.ready == 1
        }),
        Header::blank().ready == 0,
        Header::blank().magic == 0,
        Header::blank().version == 0,
        Header::blank().current_sample == 0,
        Header::of(sample_rate_bits, block_size, clock_mode).matches_build(),
{
    law_ready_means_published(sample_rate_bits, block_size, clock_mode, n);
}

/// A header is of this build if and only if its magic and its version are.
pub proof fn law_build_is_told_by_magic_and_version(h: Header)
    ensures
        h.matches_build() <==> h.magic == 0x5246_4F46_535F_4331 && h.version == 1,
{
}

/// How far a producer is ahead is how often it has to step back to the consumer,
/// across the wrap of the counters too, and a step is a step.
pub proof fn law_counters_count(head: u64, n: int)
    requires
        0 <= n < 0x1_0000_0000_0000_0000,
    ensures
        pending(head, stepped(head, n)) == n,
        head + n <= u64::MAX ==> stepped(head, n) == head + n,
        head + n > u64::MAX ==> stepped(head, n) == head + n - u64::MAX - 1,
{
    lemma_stepped(head, n);
}

/// A producer writes if and only if fewer items are pending than there are
/// slots, a consumer reads if and only if any is, each at the slot of its counter
/// and one step on.
pub proof fn law_ring_steps(head: u64, tail: u64, n: int, cap: usize)
    requires
        cap > 0,
        0 <= n <= cap,
        tail == stepped(head, n),
        n < 0x1_0000_0000_0000_0000,
    ensures
        push_at(head, tail, cap) is Some <==> n < cap,
        push_at(head, tail, cap) matches Some((slot, next)) ==> slot == tail as int % cap as int
            && next == stepped(head, n + 1),
        pop_at(head, tail, cap) is Some <==> n > 0,
        pop_at(head, tail, cap) matches Some((slot, next)) ==> slot == head as int % cap as int
            && next == stepped(head, 1),
{
    lemma_stepped(head, n);
    lemma_stepped(tail, 1);
    if n + 1 < counters() {
        lemma_stepped(head, n + 1);
    }
}

} // verus!
