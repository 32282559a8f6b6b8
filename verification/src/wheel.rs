//! A single-level timing wheel.
//!
//! [`Wheel`] holds events until their slot of time has passed; [`WheelModel`]
//! is what it is about: the slots from the read head onwards, each a sequence
//! of events.
use vstd::arithmetic::div_mod::{
    lemma_div_is_ordered,
    lemma_fundamental_div_mod,
    lemma_fundamental_div_mod_converse,
    lemma_mod_add_multiples_vanish,
    lemma_mod_bound,
    lemma_small_mod,
};
use vstd::arithmetic::mul::lemma_mul_is_distributive_add_other_way;
use vstd::prelude::*;

verus! {

/// Why an event is not taken into the wheel.
#[derive(Clone, Copy, Debug, PartialEq, Eq, Structural)]
pub enum RejectReason {
    /// The deadline is behind the wheel's clock.
    TooLate,
    /// The deadline is at or beyond the horizon.
    TooEarly,
    /// The slot of the deadline is at capacity.
    SlotFull,
}

/// The contents of a wheel, seen from its read head.
#[verifier::ext_equal]
pub struct WheelModel<T> {
    /// Absolute number of the slot at the read head.
    pub slot_index: nat,
    /// Samples that one slot spans.
    pub slot_duration: nat,
    /// Events that one slot holds at most.
    pub slot_capacity: nat,
    /// The events of each slot, that of the read head first, each slot in the
    /// order in which its events were scheduled.
    pub pending: Seq<Seq<T>>,
}

impl<T> WheelModel<T> {
    pub open spec fn wf(self) -> bool {
        &&& self.slot_duration > 0
        &&& self.pending.len() > 0
        &&& forall|j: int|
            #![trigger self.pending[j]]
            0 <= j < self.pending.len() ==> self.pending[j].len() <= self.slot_capacity
    }

    /// Start of the slot at the read head.
    pub open spec fn wheel_time(self) -> nat {
        self.slot_index * self.slot_duration
    }

    /// How far ahead of the wheel's clock a deadline may lie (exclusive).
    pub open spec fn horizon(self) -> nat {
        self.pending.len() * self.slot_duration
    }

    /// How many slots ahead of the read head a deadline lies.
    pub open spec fn slot_offset(self, deadline: int) -> int {
        (deadline - self.wheel_time()) / (self.slot_duration as int)
    }

    /// Why an event with this deadline is turned away, if it is.
    pub open spec fn reject(self, deadline: int) -> Option<RejectReason> {
        if deadline < self.wheel_time() {
            Some(RejectReason::TooLate)
        } else if deadline - self.wheel_time() >= self.horizon() {
            Some(RejectReason::TooEarly)
        } else if self.pending[self.slot_offset(deadline)].len() >= self.slot_capacity {
            Some(RejectReason::SlotFull)
        } else {
            None
        }
    }

    /// The wheel with the event appended to the slot of its deadline.
    pub open spec fn inserted(self, event: T, deadline: int) -> WheelModel<T> {
        let j = self.slot_offset(deadline);
        WheelModel { pending: self.pending.update(j, self.pending[j].push(event)), ..self }
    }

    /// The wheel after an attempt to schedule an event.
    pub open spec fn scheduled(self, event: T, deadline: int) -> WheelModel<T> {
        if self.reject(deadline) is None {
            self.inserted(event, deadline)
        } else {
            self
        }
    }

    /// The wheel with other events in the slot at its read head.
    pub open spec fn with_current(self, events: Seq<T>) -> WheelModel<T> {
        WheelModel { pending: self.pending.update(0, events), ..self }
    }

    /// How many slots are over once the clock stands at `now`.
    pub open spec fn elapsed(self, now: int) -> nat {
        if now / (self.slot_duration as int) > self.slot_index {
            (now / (self.slot_duration as int) - self.slot_index) as nat
        } else {
            0
        }
    }

    /// The events of the first `m` slots, oldest slot first.
    pub open spec fn first_slots(self, m: nat) -> Seq<T> {
        self.pending.take(
            if m < self.pending.len() {
                m as int
            } else {
                self.pending.len() as int
            },
        ).flatten()
    }

    /// The wheel with the read head `m` slots further on and the slots passed
    /// emptied.
    pub open spec fn rotated(self, m: nat) -> WheelModel<T> {
        WheelModel {
            slot_index: self.slot_index + m,
            pending: Seq::new(
                self.pending.len(),
                |j: int|
                    if j + m < self.pending.len() {
                        self.pending[j + m]
                    } else {
                        Seq::empty()
                    },
            ),
            ..self
        }
    }

    /// The events that fire when the clock moves to `now`.
    pub open spec fn fired(self, now: int) -> Seq<T> {
        self.first_slots(self.elapsed(now))
    }

    /// The slot that is current at `now` ends at a representable time.
    pub open spec fn can_advance(self, now: int) -> bool {
        self.advanced(now).wheel_time() + self.slot_duration <= u64::MAX
    }

    /// The wheel after its clock has moved to `now`.
    pub open spec fn advanced(self, now: int) -> WheelModel<T> {
        self.rotated(self.elapsed(now))
    }
}

/// A single-level timing wheel: `N` slots, each spanning a fixed duration `D`
/// (samples) and holding up to `M` events. The wheel's horizon, the furthest
/// deadline it can currently accept, is `N * D`.
///
/// When the wheel's clock advances past a slot's boundary, every event in that
/// slot fires together. Events deadlined beyond the horizon, or already in the
/// past relative to the wheel's clock, are rejected.
pub struct Wheel<T> {
    slots: Vec<Vec<T>>,
    slot_duration: u64,
    slot_capacity: usize,
    /// Absolute slot counter since epoch (not reduced modulo the slot count).
    slot_index: u64,
}

impl<T> View for Wheel<T> {
    type V = WheelModel<T>;

    closed spec fn view(&self) -> WheelModel<T> {
        WheelModel {
            slot_index: self.slot_index as nat,
            slot_duration: self.slot_duration as nat,
            slot_capacity: self.slot_capacity as nat,
            pending: Seq::new(
                self.slots@.len(),
                |j: int| self.slots@[(self.slot_index + j) % (self.slots@.len() as int)]@,
            ),
        }
    }
}

/// The slots at distances `i` and `j` from the read head are the same array
/// entry only if the distances are.
proof fn lemma_slots_distinct(a: int, i: int, j: int, n: int)
    requires
        0 <= a,
        0 <= i < n,
        0 <= j < n,
        (a + i) % n == (a + j) % n,
    ensures
        i == j,
{
    lemma_fundamental_div_mod(a + i, n);
    lemma_fundamental_div_mod(a + j, n);
    let p = (a + i) / n;
    let q = (a + j) / n;
    assert(i - j == n * (p - q)) by (nonlinear_arith)
        requires
            a + i == n * p + (a + i) % n,
            a + j == n * q + (a + j) % n,
            (a + i) % n == (a + j) % n,
    ;
    assert(p == q) by (nonlinear_arith)
        requires
            i - j == n * (p - q),
            -n < i - j < n,
            n > 0,
    ;
}

/// Dividing first from the read head on and then adding its number is dividing
/// the absolute deadline.
proof fn lemma_slot_number(index: int, duration: int, deadline: int)
    requires
        duration > 0,
        index >= 0,
        deadline >= index * duration,
    ensures
        index + (deadline - index * duration) / duration == deadline / duration,
        (deadline - index * duration) / duration >= 0,
{
    let off = deadline - index * duration;
    lemma_fundamental_div_mod(off, duration);
    let q = off / duration;
    let r = off % duration;
    lemma_mul_is_distributive_add_other_way(duration, index, q);
    assert(q * duration == duration * q) by (nonlinear_arith);
    assert(deadline == (index + q) * duration + r);
    lemma_fundamental_div_mod_converse(deadline, duration, index + q, r);
    assert(q >= 0) by (nonlinear_arith)
        requires
            off == duration * q + r,
            off >= 0,
            r < duration,
            duration > 0,
    ;
}

impl<T> Wheel<T> {
    /// The slot count and duration are positive, no slot holds more than its
    /// capacity, and the end of the current slot is a representable time.
    pub open spec fn wf(&self) -> bool {
        &&& self@.wf()
        &&& self@.wheel_time() + self@.slot_duration <= u64::MAX
    }

    pub fn new(n_slots: usize, slot_duration: u64, slot_capacity: usize) -> (wheel: Self)
        requires
            n_slots > 0,
            slot_duration > 0,
        ensures
            wheel.wf(),
            wheel@ == (WheelModel::<T> {
                slot_index: 0,
                slot_duration: slot_duration as nat,
                slot_capacity: slot_capacity as nat,
                pending: Seq::new(n_slots as nat, |j: int| Seq::empty()),
            }),
    {
        let mut slots: Vec<Vec<T>> = Vec::with_capacity(n_slots);
        let mut i: usize = 0;
        while i < n_slots
            invariant
                i <= n_slots,
                slots@.len() == i,
                forall|k: int| #![trigger slots@[k]] 0 <= k < i ==> slots@[k]@ == Seq::<T>::empty(),
            decreases n_slots - i,
        {
            slots.push(Vec::with_capacity(slot_capacity));
            i = i + 1;
        }
        let wheel = Wheel { slots, slot_duration, slot_capacity, slot_index: 0 };
        proof {
            assert forall|j: int| 0 <= j < n_slots implies #[trigger] wheel@.pending[j]
                == Seq::<T>::empty() by {
                lemma_small_mod(j as nat, n_slots as nat);
            }
            assert(wheel@.pending =~= Seq::new(n_slots as nat, |j: int| Seq::empty()));
            assert(0 * slot_duration == 0) by (nonlinear_arith);
        }
        wheel
    }

    pub fn n_slots(&self) -> (n: usize)
        ensures
            n == self@.pending.len(),
    {
        self.slots.len()
    }

    /// Start-of-interval time of the slot currently at the read head.
    pub fn wheel_time(&self) -> (t: u64)
        requires
            self.wf(),
        ensures
            t == self@.wheel_time(),
    {
        self.slot_index * self.slot_duration
    }

    /// How far ahead of its clock (exclusive) the wheel accepts deadlines.
    pub fn horizon(&self) -> (h: u64)
        requires
            self@.horizon() <= u64::MAX,
        ensures
            h == self@.horizon(),
    {
        self.n_slots() as u64 * self.slot_duration
    }

    /// Whether the end of the window of acceptable deadlines is representable.
    pub fn window_fits(&self) -> (b: bool)
        requires
            self.wf(),
        ensures
            b == (self@.wheel_time() + self@.horizon() <= u64::MAX),
    {
        match (self.n_slots() as u64).checked_mul(self.slot_duration) {
            Some(horizon) => horizon <= u64::MAX - self.wheel_time(),
            None => false,
        }
    }

    /// Whether the slot that is current at `now` ends at a representable time.
    pub fn can_advance(&self, now: u64) -> (b: bool)
        requires
            self.wf(),
        ensures
            b == self@.can_advance(now as int),
    {
        let reached: u64 = now / self.slot_duration;
        let index: u64 = if reached > self.slot_index {
            reached
        } else {
            self.slot_index
        };
        match index.checked_mul(self.slot_duration) {
            Some(time) => time <= u64::MAX - self.slot_duration,
            None => false,
        }
    }

    /// Why an event with this deadline would be turned away, if it would be.
    pub fn reject_reason(&self, deadline: u64) -> (r: Option<RejectReason>)
        requires
            self.wf(),
            deadline >= self@.wheel_time() ==> self@.horizon() <= u64::MAX,
        ensures
            r == self@.reject(deadline as int),
    {
        let now: u64 = self.wheel_time();
        if deadline < now {
            return Some(RejectReason::TooLate);
        }
        let offset: u64 = deadline - now;
        if offset >= self.horizon() {
            return Some(RejectReason::TooEarly);
        }
        let idx: usize = self.slot_position(deadline);
        if self.slots[idx].len() >= self.slot_capacity {
            return Some(RejectReason::SlotFull);
        }
        None
    }

    /// How many slots ahead of the read head `deadline` lies.
    pub fn slot_offset(&self, deadline: u64) -> (offset: u64)
        requires
            self.wf(),
            self@.wheel_time() <= deadline,
        ensures
            offset == self@.slot_offset(deadline as int),
    {
        (deadline - self.wheel_time()) / self.slot_duration
    }

    /// Index in the slot array of the slot that holds `deadline`.
    fn slot_position(&self, deadline: u64) -> (idx: usize)
        requires
            self.wf(),
            self@.horizon() <= u64::MAX,
            self@.wheel_time() <= deadline < self@.wheel_time() + self@.horizon(),
        ensures
            idx < self.slots@.len(),
            0 <= self@.slot_offset(deadline as int) < self@.pending.len(),
            idx == (self.slot_index + self@.slot_offset(deadline as int)) % (
            self.slots@.len() as int),
            self.slots@[idx as int]@ == self@.pending[self@.slot_offset(deadline as int)],
    {
        let slot_delta: u64 = self.slot_offset(deadline);
        let n_slots: u64 = self.n_slots() as u64;
        proof {
            lemma_slot_number(
                self.slot_index as int,
                self.slot_duration as int,
                deadline as int,
            );
            let off = deadline - self@.wheel_time();
            lemma_fundamental_div_mod(off, self.slot_duration as int);
            assert(slot_delta < n_slots) by (nonlinear_arith)
                requires
                    off == self.slot_duration * slot_delta + off % (self.slot_duration as int),
                    off % (self.slot_duration as int) >= 0,
                    off < n_slots * self.slot_duration,
                    self.slot_duration > 0,
            ;
            assert(deadline as int / self.slot_duration as int <= deadline) by (nonlinear_arith)
                requires
                    self.slot_duration > 0,
                    deadline >= 0,
            ;
        }
        ((self.slot_index + slot_delta) % n_slots) as usize
    }

    /// Schedule `event` to fire when the wheel's clock reaches `deadline`.
    ///
    /// Rejects (returning the event back) if `deadline` is already behind the
    /// wheel's clock, at or beyond the horizon, or its target slot is already
    /// at capacity.
    pub fn schedule(&mut self, event: T, deadline: u64) -> (r: Result<(), T>)
        requires
            old(self).wf(),
            deadline >= old(self)@.wheel_time() ==> old(self)@.horizon() <= u64::MAX,
        ensures
            final(self).wf(),
            final(self)@ == old(self)@.scheduled(event, deadline as int),
            r is Ok <==> old(self)@.reject(deadline as int) is None,
            r matches Err(e) ==> e == event,
    {
        if self.reject_reason(deadline).is_some() {
            return Err(event);
        }
        let idx: usize = self.slot_position(deadline);
        let ghost before = *self;
        let ghost delta = self@.slot_offset(deadline as int);
        self.slots[idx].push(event);
        proof {
            let n = self.slots@.len() as int;
            assert forall|j: int| 0 <= j < n implies #[trigger] self@.pending[j] == (if j == delta {
                before@.pending[j].push(event)
            } else {
                before@.pending[j]
            }) by {
                if j != delta && (before.slot_index + j) % n == idx {
                    lemma_slots_distinct(before.slot_index as int, j, delta, n);
                }
            }
            assert(self@.pending =~= before@.inserted(event, deadline as int).pending);
        }
        Ok(())
    }

    /// Exchange the events of the slot at the read head for others.
    pub fn swap_current(&mut self, events: &mut Vec<T>)
        requires
            old(self).wf(),
            old(events)@.len() <= old(self)@.slot_capacity,
        ensures
            final(self).wf(),
            final(self)@ == old(self)@.with_current(old(events)@),
            final(events)@ == old(self)@.pending[0],
    {
        let ghost before = *self;
        let ghost n = self.slots@.len() as int;
        let n_slots: usize = self.n_slots();
        let idx: usize = (self.slot_index % n_slots as u64) as usize;
        proof {
            lemma_mod_bound(self.slot_index as int, n);
            assert(idx == (self.slot_index + 0) % n);
            assert(self@.pending[0] == self.slots@[idx as int]@);
        }
        std::mem::swap(&mut self.slots[idx], events);
        proof {
            assert forall|j: int| 0 <= j < n implies #[trigger] self@.pending[j]
                == before@.with_current(old(events)@).pending[j] by {
                if j > 0 && (before.slot_index + j) % n == idx {
                    lemma_slots_distinct(before.slot_index as int, j, 0, n);
                }
            }
            assert(self@.pending =~= before@.with_current(old(events)@).pending);
            assert forall|j: int| #![trigger self@.pending[j]] 0 <= j < n implies
                self@.pending[j].len() <= self@.slot_capacity by {
                assert(before@.pending[j].len() <= before@.slot_capacity);
            }
        }
    }

    /// Advance the wheel's clock to `now`, firing (draining, in order) every
    /// slot whose interval fully elapsed along the way. A clock that is
    /// already past `now` stays where it is.
    pub fn advance(&mut self, now: u64, out: &mut Vec<T>)
        requires
            old(self).wf(),
            old(self)@.can_advance(now as int),
        ensures
            final(self).wf(),
            final(self)@ == old(self)@.advanced(now as int),
            final(out)@ == old(out)@ + old(self)@.fired(now as int),
    {
        let n_slots: usize = self.n_slots();
        let ghost start = self@;
        let ghost out0 = out@;
        let ghost mut m: nat = 0;
        proof {
            lemma_rotated_zero(start);
        }
        while self.wheel_time() + self.slot_duration <= now
            invariant
                self.wf(),
                start.wf(),
                start.can_advance(now as int),
                n_slots == start.pending.len(),
                self@ == start.rotated(m),
                out@ == out0 + start.first_slots(m),
                m > 0 ==> self@.wheel_time() <= now,
            decreases now - self@.wheel_time(),
        {
            let ghost before = *self;
            let ghost n = self.slots@.len() as int;
            let idx: usize = (self.slot_index % n_slots as u64) as usize;
            proof {
                assert(self.slots@.len() == self@.pending.len());
                lemma_mod_bound(self.slot_index as int, n);
                assert(idx == (self.slot_index + 0) % n);
                assert(self@.pending[0] == self.slots@[idx as int]@);
                assert(self.slot_index < u64::MAX && (self.slot_index + 1) * self.slot_duration
                    == self.slot_index * self.slot_duration + self.slot_duration)
                    by (nonlinear_arith)
                    requires
                        self.slot_index * self.slot_duration + self.slot_duration <= u64::MAX,
                        self.slot_duration > 0,
                ;
            }
            out.append(&mut self.slots[idx]);
            self.slot_index = self.slot_index + 1;
            proof {
                assert forall|j: int| 0 <= j < n implies #[trigger] self@.pending[j]
                    == before@.rotated(1).pending[j] by {
                    assert(before.slot_index + 1 + j == before.slot_index + (j + 1));
                    if j + 1 < n {
                        if (before.slot_index + (j + 1)) % n == idx {
                            lemma_slots_distinct(before.slot_index as int, j + 1, 0, n);
                        }
                    } else {
                        lemma_mod_add_multiples_vanish(before.slot_index as int, n);
                    }
                }
                assert(self@.pending =~= before@.rotated(1).pending);
                lemma_rotated_step(start, m);
                lemma_not_past_now(start, m + 1, now as int);
                m = m + 1;
            }
        }
        proof {
            lemma_elapsed(start, m, now as int);
        }
    }
}

/// A wheel that is not turned stays as it is, and no slot is passed.
proof fn lemma_rotated_zero<T>(w: WheelModel<T>)
    ensures
        w.rotated(0) == w,
        w.first_slots(0) == Seq::<T>::empty(),
{
    assert(w.rotated(0).pending =~= w.pending);
    assert(w.pending.take(0) =~= Seq::<Seq<T>>::empty());
}

/// One slot more.
proof fn lemma_rotated_step<T>(w: WheelModel<T>, m: nat)
    requires
        w.wf(),
    ensures
        w.rotated(m).rotated(1) == w.rotated(m + 1),
        w.first_slots(m + 1) == w.first_slots(m) + w.rotated(m).pending[0],
{
    assert(w.rotated(m).rotated(1).pending =~= w.rotated(m + 1).pending);
    if m < w.pending.len() {
        let shorter = w.pending.take(m as int);
        let longer = w.pending.take(m as int + 1);
        assert(longer =~= shorter.push(w.pending[m as int]));
        shorter.lemma_flatten_push(w.pending[m as int]);
        assert(w.rotated(m).pending[0] == w.pending[m as int]);
    } else {
        assert(w.first_slots(m) + Seq::<T>::empty() =~= w.first_slots(m));
    }
}

/// A read head that is not past `now` is at most where `now` puts it.
proof fn lemma_not_past_now<T>(w: WheelModel<T>, m: nat, now: int)
    requires
        w.slot_duration > 0,
        now >= 0,
        w.rotated(m).wheel_time() <= now,
    ensures
        w.rotated(m).wheel_time() <= w.advanced(now).wheel_time(),
{
    let d = w.slot_duration as int;
    let i = (w.slot_index + m) as int;
    let k = (w.slot_index + w.elapsed(now)) as int;
    let q = now / d;
    lemma_fundamental_div_mod(now, d);
    assert(q >= i) by (nonlinear_arith)
        requires
            now == d * q + now % d,
            now % d < d,
            i * d <= now,
            d > 0,
    ;
    assert(i * d <= k * d) by (nonlinear_arith)
        requires
            i <= k,
            d > 0,
    ;
}

/// A wheel whose read head has moved `m` slots and whose next border lies past
/// `now` has passed all slots that are over at `now`, and no others.
proof fn lemma_elapsed<T>(w: WheelModel<T>, m: nat, now: int)
    requires
        w.slot_duration > 0,
        now >= 0,
        w.rotated(m).wheel_time() + w.slot_duration > now,
        m > 0 ==> w.rotated(m).wheel_time() <= now,
    ensures
        m == w.elapsed(now),
{
    let d = w.slot_duration as int;
    let i = (w.slot_index + m) as int;
    let q = now / d;
    lemma_fundamental_div_mod(now, d);
    assert(q <= i) by (nonlinear_arith)
        requires
            now == d * q + now % d,
            now % d >= 0,
            i * d + d > now,
            d > 0,
    ;
    if m > 0 {
        assert(q >= i) by (nonlinear_arith)
            requires
                now == d * q + now % d,
                now % d < d,
                i * d <= now,
                d > 0,
        ;
    }
}

/// Two turns of the wheel are one.
proof fn lemma_rotated_twice<T>(w: WheelModel<T>, m: nat, k: nat)
    requires
        w.wf(),
    ensures
        w.rotated(m).wf(),
        w.rotated(m).rotated(k) == w.rotated(m + k),
        w.first_slots(m + k) == w.first_slots(m) + w.rotated(m).first_slots(k),
    decreases k,
{
    assert forall|j: int| 0 <= j < w.pending.len() implies #[trigger] w.rotated(m).pending[j].len()
        <= w.slot_capacity by {
        if j + m < w.pending.len() {
            assert(w.pending[j + m].len() <= w.slot_capacity);
        }
    }
    assert(w.rotated(m).rotated(k).pending =~= w.rotated(m + k).pending);
    if k == 0 {
        lemma_rotated_zero(w.rotated(m));
        assert(w.first_slots(m) + Seq::<T>::empty() =~= w.first_slots(m));
    } else {
        let p = (k - 1) as nat;
        lemma_rotated_twice(w, m, p);
        lemma_rotated_step(w, m + p);
        lemma_rotated_step(w.rotated(m), p);
        assert(w.rotated(m).rotated(p) == w.rotated(m + p));
        assert(m + p + 1 == m + k);
        assert(p + 1 == k);
        assert(w.first_slots(m + k) =~= w.first_slots(m) + (w.rotated(m).first_slots(p)
            + w.rotated(m + p).pending[0]));
    }
}

/// Stopping at `a` on the way to `b` changes neither what fires, nor in which
/// order, nor what is left.
pub proof fn law_advance_composes<T>(w: WheelModel<T>, a: int, b: int)
    requires
        w.wf(),
        0 <= a <= b,
    ensures
        w.advanced(a).advanced(b) == w.advanced(b),
        w.fired(b) == w.fired(a) + w.advanced(a).fired(b),
{
    let d = w.slot_duration as int;
    lemma_div_is_ordered(a, b, d);
    let m = w.elapsed(a);
    let k = w.advanced(a).elapsed(b);
    assert(m + k == w.elapsed(b));
    lemma_rotated_twice(w, m, k);
}

/// What is pending either fires or stays pending, once and in the same order.
pub proof fn law_nothing_is_lost<T>(w: WheelModel<T>, now: int)
    requires
        w.wf(),
    ensures
        w.pending.flatten() == w.fired(now) + w.advanced(now).pending.flatten(),
{
    let n = w.pending.len();
    let m = w.elapsed(now);
    lemma_rotated_twice(w, m, n);
    lemma_all_slots(w, n);
    lemma_all_slots(w, m + n);
    lemma_all_slots(w.rotated(m), n);
}

proof fn lemma_all_slots<T>(w: WheelModel<T>, m: nat)
    requires
        m >= w.pending.len(),
    ensures
        w.first_slots(m) == w.pending.flatten(),
{
    assert(w.pending.take(w.pending.len() as int) =~= w.pending);
}

/// The slot of an accepted deadline is one of the wheel's, and it is the slot
/// that the deadline falls in.
pub proof fn lemma_accepted_offset<T>(w: WheelModel<T>, deadline: int)
    requires
        w.wf(),
        w.wheel_time() <= deadline < w.wheel_time() + w.horizon(),
    ensures
        0 <= w.slot_offset(deadline) < w.pending.len(),
        w.slot_index + w.slot_offset(deadline) == deadline / (w.slot_duration as int),
{
    let d = w.slot_duration as int;
    let n = w.pending.len() as int;
    let off = deadline - w.wheel_time();
    lemma_slot_number(w.slot_index as int, d, deadline);
    lemma_fundamental_div_mod(off, d);
    assert(off / d < n) by (nonlinear_arith)
        requires
            off == d * (off / d) + off % d,
            off % d >= 0,
            off < n * d,
            d > 0,
    ;
}

/// An accepted event does not fire before the border at the end of its slot,
/// and fires when that border is crossed, exactly once: behind everything that
/// was pending up to its slot, ahead of everything in later slots.
pub proof fn law_fires_when_its_slot_is_over<T>(
    w: WheelModel<T>,
    event: T,
    deadline: int,
    now: int,
)
    requires
        w.wf(),
        w.reject(deadline) is None,
        now >= 0,
    ensures
        ({
            let d = w.slot_duration as int;
            let border = (deadline / d + 1) * d;
            let w1 = w.scheduled(event, deadline);
            let up_to = w.first_slots((w.slot_offset(deadline) + 1) as nat);
            &&& w1.wf()
            &&& now < border ==> w1.fired(now) == w.fired(now)
            &&& now >= border ==> {
                &&& up_to.is_prefix_of(w.fired(now))
                &&& w1.fired(now) == up_to.push(event) + w.fired(now).skip(up_to.len() as int)
                &&& w1.advanced(now) == w.advanced(now)
            }
        }),
{
    let d = w.slot_duration as int;
    let q = deadline / d;
    let border = (q + 1) * d;
    let w1 = w.scheduled(event, deadline);
    let j = w.slot_offset(deadline);
    lemma_accepted_offset(w, deadline);
    assert forall|i: int| 0 <= i < w1.pending.len() implies #[trigger] w1.pending[i].len()
        <= w1.slot_capacity by {
        assert(w.pending[i].len() <= w.slot_capacity);
    }
    let m = w.elapsed(now);
    lemma_fundamental_div_mod(now, d);
    if now < border {
        assert(now / d <= q) by (nonlinear_arith)
            requires
                now == d * (now / d) + now % d,
                now % d >= 0,
                now < (q + 1) * d,
                d > 0,
        ;
        assert(m <= j);
        assert(w1.pending.take(m as int) =~= w.pending.take(m as int));
    } else {
        assert(now / d >= q + 1) by (nonlinear_arith)
            requires
                now == d * (now / d) + now % d,
                now % d < d,
                now >= (q + 1) * d,
                d > 0,
        ;
        let k = (j + 1) as nat;
        assert(m >= k);
        lemma_rotated_step(w, j as nat);
        lemma_rotated_step(w1, j as nat);
        assert(w1.pending.take(j) =~= w.pending.take(j));
        assert(w.rotated(j as nat).pending[0] == w.pending[j]);
        assert(w1.rotated(j as nat).pending[0] == w.pending[j].push(event));
        let up_to = w.first_slots(k);
        assert(w1.first_slots(k) =~= up_to.push(event));
        let rest = (m - k) as nat;
        lemma_rotated_twice(w, k, rest);
        lemma_rotated_twice(w1, k, rest);
        assert(w1.rotated(k).pending =~= w.rotated(k).pending);
        assert(k + rest == m);
        let tail = w.rotated(k).first_slots(rest);
        assert(w.fired(now) == up_to + tail);
        assert(w.fired(now).skip(up_to.len() as int) =~= tail);
        assert(w1.rotated(m).pending =~= w.rotated(m).pending);
    }
}

/// Of two accepted events, the one scheduled first fires first, unless its
/// slot is a later one.
pub proof fn law_oldest_slot_first<T>(
    w: WheelModel<T>,
    first: T,
    first_deadline: int,
    second: T,
    second_deadline: int,
    now: int,
)
    requires
        w.wf(),
        w.reject(first_deadline) is None,
        w.scheduled(first, first_deadline).reject(second_deadline) is None,
        first_deadline / (w.slot_duration as int) <= second_deadline / (w.slot_duration as int),
        now >= (second_deadline / (w.slot_duration as int) + 1) * (w.slot_duration as int),
    ensures
        ({
            let fired = w.scheduled(first, first_deadline).scheduled(
                second,
                second_deadline,
            ).fired(now);
            exists|i: int, j: int| 0 <= i < j < fired.len() && fired[i] == first && fired[j] == second
        }),
{
    let w1 = w.scheduled(first, first_deadline);
    lemma_accepted_offset(w, first_deadline);
    lemma_fundamental_div_mod(second_deadline, w.slot_duration as int);
    assert(now >= 0) by (nonlinear_arith)
        requires
            now >= (second_deadline / (w.slot_duration as int) + 1) * (w.slot_duration as int),
            second_deadline >= 0,
            second_deadline == (w.slot_duration as int) * (second_deadline / (w.slot_duration as int))
                + second_deadline % (w.slot_duration as int),
            second_deadline % (w.slot_duration as int) < w.slot_duration,
    ;
    law_fires_when_its_slot_is_over(w, first, first_deadline, now);
    law_fires_when_its_slot_is_over(w1, second, second_deadline, now);
    lemma_accepted_offset(w1, second_deadline);
    let a = w.slot_offset(first_deadline);
    let b = w1.slot_offset(second_deadline);
    let up_to = w1.first_slots((b + 1) as nat);
    let taken = w1.pending.take(b + 1);
    let slot = w1.pending[a];
    assert(slot[slot.len() - 1] == first);
    assert(taken[a] == slot);
    lemma_flatten_holds(taken, a, slot.len() - 1);
    let i = choose|i: int| 0 <= i < up_to.len() && up_to[i] == first;
    let fired = w1.scheduled(second, second_deadline).fired(now);
    assert(fired[i] == first);
    assert(fired[up_to.len() as int] == second);
}

/// What becomes of a deadline is settled by the clock, the span of the wheel and
/// how many events the slot of the deadline holds, and by nothing else: behind
/// the clock it is too late, from the end of the span on too early, and in
/// between it is turned away if and only if its slot holds as many events as a
/// slot may.
pub proof fn law_only_a_full_slot_turns_away<T>(w: WheelModel<T>, deadline: int)
    requires
        w.wf(),
    ensures
        ({
            let d = w.slot_duration as int;
            let now = w.slot_index * d;
            let end = now + w.pending.len() * d;
            let slot = (deadline - now) / d;
            let r = w.reject(deadline);
            &&& r == Some(RejectReason::TooLate) <==> deadline < now
            &&& r == Some(RejectReason::TooEarly) <==> deadline >= end
            &&& now <= deadline < end ==> {
                &&& 0 <= slot < w.pending.len()
                &&& w.pending[slot].len() <= w.slot_capacity
                &&& r == Some(RejectReason::SlotFull) <==> w.pending[slot].len()
                    == w.slot_capacity
                &&& r is None <==> w.pending[slot].len() < w.slot_capacity
            }
        }),
{
    let d = w.slot_duration as int;
    let now = w.slot_index * d;
    let end = now + w.pending.len() * d;
    assert(w.pending.len() * d > 0) by (nonlinear_arith)
        requires
            w.pending.len() > 0,
            d > 0,
    ;
    if now <= deadline < end {
        lemma_accepted_offset(w, deadline);
        assert(w.pending[w.slot_offset(deadline)].len() <= w.slot_capacity);
    }
}

/// An event that is taken goes to the end of the slot that its deadline falls
/// in, and every other slot is as it was. One that is turned away changes
/// nothing.
pub proof fn law_event_goes_to_the_slot_of_its_deadline<T>(
    w: WheelModel<T>,
    event: T,
    deadline: int,
)
    requires
        w.wf(),
    ensures
        ({
            let d = w.slot_duration as int;
            let after = w.scheduled(event, deadline);
            &&& w.reject(deadline) is Some ==> after == w
            &&& w.reject(deadline) is None ==> {
                &&& after.slot_index == w.slot_index
                &&& after.slot_duration == w.slot_duration
                &&& after.slot_capacity == w.slot_capacity
                &&& after.pending.len() == w.pending.len()
                &&& forall|j: int|
                    #![trigger after.pending[j]]
                    0 <= j < w.pending.len() ==> after.pending[j] == (if w.slot_index + j
                        == deadline / d {
                        w.pending[j].push(event)
                    } else {
                        w.pending[j]
                    })
                &&& w.slot_index <= deadline / d < w.slot_index + w.pending.len()
                &&& after == w.inserted(event, deadline)
            }
        }),
{
    if w.reject(deadline) is None {
        lemma_accepted_offset(w, deadline);
    }
}

/// A clock that is moved to `now` stands in the slot that `now` falls in, unless
/// it is past that already: then it stays. Each slot that is still ahead keeps
/// its events, and those that come into view are empty.
pub proof fn law_clock_moves_to_the_slot_of_now<T>(w: WheelModel<T>, now: int)
    requires
        w.wf(),
        now >= 0,
    ensures
        ({
            let d = w.slot_duration as int;
            let after = w.advanced(now);
            let start = after.slot_index * d;
            &&& after.slot_duration == w.slot_duration
            &&& after.slot_capacity == w.slot_capacity
            &&& after.pending.len() == w.pending.len()
            &&& now < w.slot_index * d ==> after == w && w.fired(now).len() == 0
            &&& now >= w.slot_index * d ==> start <= now < start + d && after.slot_index
                >= w.slot_index
            &&& forall|j: int|
                #![trigger after.pending[j]]
                0 <= j < after.pending.len() ==> after.pending[j] == (if after.slot_index + j
                    < w.slot_index + w.pending.len() {
                    w.pending[after.slot_index + j - w.slot_index]
                } else {
                    Seq::empty()
                })
            &&& w.pending.flatten() == w.fired(now) + after.pending.flatten()
        }),
{
    let d = w.slot_duration as int;
    let q = now / d;
    let i = w.slot_index as int;
    law_nothing_is_lost(w, now);
    lemma_fundamental_div_mod(now, d);
    if now < i * d {
        assert(q < i) by (nonlinear_arith)
            requires
                now == d * q + now % d,
                now % d >= 0,
                now < i * d,
                d > 0,
        ;
        lemma_rotated_zero(w);
    } else {
        assert(q >= i) by (nonlinear_arith)
            requires
                now == d * q + now % d,
                now % d < d,
                i * d <= now,
                d > 0,
        ;
        assert(q * d <= now < q * d + d) by (nonlinear_arith)
            requires
                now == d * q + now % d,
                0 <= now % d < d,
        ;
    }
}

/// What fires are the events of the slots that are over by `now`, slot by slot,
/// oldest first; an event of a slot that is not over does not.
pub proof fn law_slots_that_are_over_fire<T>(w: WheelModel<T>, now: int, n: nat)
    requires
        w.wf(),
        now >= 0,
        n <= w.pending.len(),
        n > 0 ==> (w.slot_index + n) * w.slot_duration <= now,
        n < w.pending.len() ==> (w.slot_index + n + 1) * w.slot_duration > now,
    ensures
        w.fired(now) == w.pending.take(n as int).flatten(),
{
    let d = w.slot_duration as int;
    let q = now / d;
    let i = w.slot_index as int;
    lemma_fundamental_div_mod(now, d);
    if n < w.pending.len() {
        assert(q < i + n + 1) by (nonlinear_arith)
            requires
                now == d * q + now % d,
                now % d >= 0,
                (i + n + 1) * d > now,
                d > 0,
        ;
    }
    if n > 0 {
        assert(q >= i + n) by (nonlinear_arith)
            requires
                now == d * q + now % d,
                now % d < d,
                (i + n) * d <= now,
                d > 0,
        ;
    }
}

/// A clock can be moved to `now` if and only if the slot that it comes to stand
/// in ends at a time that a clock can show.
pub proof fn law_clock_stops_at_the_end_of_time<T>(w: WheelModel<T>, now: int)
    requires
        w.wf(),
        now >= 0,
    ensures
        now >= w.slot_index * w.slot_duration ==> (w.can_advance(now) <==> now - now % (
        w.slot_duration as int) + w.slot_duration <= u64::MAX),
        now < w.slot_index * w.slot_duration ==> (w.can_advance(now) <==> w.slot_index
            * w.slot_duration + w.slot_duration <= u64::MAX),
{
    let d = w.slot_duration as int;
    let q = now / d;
    law_clock_moves_to_the_slot_of_now(w, now);
    lemma_fundamental_div_mod(now, d);
    let k = w.advanced(now).slot_index as int;
    if now >= w.slot_index * d {
        assert(k == q) by (nonlinear_arith)
            requires
                now == d * q + now % d,
                0 <= now % d < d,
                k * d <= now < k * d + d,
                d > 0,
        ;
        assert(q * d == d * q) by (nonlinear_arith);
    }
}

/// Other events in the current slot are those that were given, and every other
/// slot is as it was.
pub proof fn law_current_slot_is_exchanged<T>(w: WheelModel<T>, events: Seq<T>)
    requires
        w.wf(),
    ensures
        ({
            let after = w.with_current(events);
            &&& after.pending[0] == events
            &&& after.pending.skip(1) == w.pending.skip(1)
            &&& after.pending.len() == w.pending.len()
            &&& after.slot_index == w.slot_index
            &&& after.slot_duration == w.slot_duration
            &&& after.slot_capacity == w.slot_capacity
        }),
{
    assert(w.with_current(events).pending.skip(1) =~= w.pending.skip(1));
}

/// Every item of every part is in the whole.
pub proof fn lemma_flatten_holds<T>(parts: Seq<Seq<T>>, a: int, k: int)
    requires
        0 <= a < parts.len(),
        0 <= k < parts[a].len(),
    ensures
        parts.flatten().contains(parts[a][k]),
    decreases parts.len(),
{
    let rest = parts.drop_first();
    if a == 0 {
        assert(parts.flatten()[k] == parts[a][k]);
    } else {
        lemma_flatten_holds(rest, a - 1, k);
        let i = choose|i: int| 0 <= i < rest.flatten().len() && rest.flatten()[i] == rest[a - 1][k];
        assert(parts.flatten()[parts[0].len() + i] == parts[a][k]);
    }
}

} // verus!
