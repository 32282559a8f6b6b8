//! The shared ring between two parties that do not wait for each other: one
//! pushes, one pops, and their steps interleave as they come.
//!
//! A push is four steps: look how far the consumer has come, claim a slot, write
//! it, and publish the new tail. A pop is four: look how far the producer has
//! come, claim a slot, read it, and publish the new head. Which slot is claimed,
//! and whether one is, is what [`crate::shm::push_slot`] and
//! [`crate::shm::pop_slot`] say of the counters as the party knows them: its own
//! as it is, the other's as it was at some time since it last looked.
use crate::shm;
use vstd::prelude::*;

verus! {

/// How far the producer is with a push.
pub enum Pushing<T> {
    Idle,
    /// The slot is being written.
    Writing { slot: int, next: u64, item: T },
    /// The slot is written, the tail not published.
    Written { next: u64, item: T },
}

/// How far the consumer is with a pop.
pub enum Popping<T> {
    Idle,
    /// The slot is being read.
    Reading { slot: int, next: u64 },
    /// The slot is read, the head not published.
    Taken { next: u64, item: T },
}

/// A ring with its two parties.
pub struct Parties<T> {
    pub cap: usize,
    pub slots: Seq<T>,
    /// The counters as published.
    pub head: u64,
    pub tail: u64,
    /// How many items each party has seen the other to have got through, when it
    /// last looked: the counter that it saw is theirs.
    pub seen_out: nat,
    pub seen_in: nat,
    pub pushing: Pushing<T>,
    pub popping: Popping<T>,
    /// The items that were accepted, in order: those of the pushes that have
    /// published their tail.
    pub accepted: Seq<T>,
    /// The items that came out, in order: those of the pops that have published
    /// their head.
    pub came_out: Seq<T>,
}

/// A step of one of the parties.
pub enum Step<T> {
    /// The producer looks, and sees the head as it was after `n` pops.
    LookAtHead { n: nat },
    /// The producer begins to push an item; it gives up if it sees no room.
    BeginPush { item: T },
    /// The producer has written its slot.
    FinishWrite,
    /// The producer publishes its tail.
    PublishTail,
    /// The consumer looks, and sees the tail as it was after `n` pushes.
    LookAtTail { n: nat },
    /// The consumer begins to pop; it gives up if it sees nothing.
    BeginPop,
    /// The consumer has read its slot.
    FinishRead,
    /// The consumer publishes its head.
    PublishHead,
}

/// The counter of the `n`th item.
pub open spec fn counter(n: nat) -> u64 {
    (n % (shm::counters() as nat)) as u64
}

impl<T> Parties<T> {
    /// An empty ring, with both parties idle.
    pub open spec fn empty(slots: Seq<T>, cap: usize) -> Parties<T> {
        Parties {
            cap,
            slots,
            head: 0,
            tail: 0,
            seen_out: 0,
            seen_in: 0,
            pushing: Pushing::Idle,
            popping: Popping::Idle,
            accepted: Seq::empty(),
            came_out: Seq::empty(),
        }
    }

    /// The step can be taken: it is what comes next for the party. A look may see
    /// any position that the other has published, however old, but none before
    /// the one that was seen already.
    pub open spec fn allows(self, step: Step<T>) -> bool {
        match step {
            Step::LookAtHead { n } => {
                &&& self.pushing is Idle
                &&& self.seen_out <= n <= self.came_out.len()
            },
            Step::BeginPush { item } => self.pushing is Idle,
            Step::FinishWrite => self.pushing is Writing,
            Step::PublishTail => self.pushing is Written,
            Step::LookAtTail { n } => {
                &&& self.popping is Idle
                &&& self.seen_in <= n <= self.accepted.len()
            },
            Step::BeginPop => self.popping is Idle,
            Step::FinishRead => self.popping is Reading,
            Step::PublishHead => self.popping is Taken,
        }
    }

    /// The ring and its parties after a step.
    pub open spec fn after(self, step: Step<T>) -> Parties<T> {
        match step {
            Step::LookAtHead { n } => Parties { seen_out: n, ..self },
            Step::BeginPush { item } => match shm::push_at(
                counter(self.seen_out),
                self.tail,
                self.cap,
            ) {
                Some((slot, next)) => Parties {
                    pushing: Pushing::Writing { slot, next, item },
                    ..self
                },
                None => self,
            },
            Step::FinishWrite => match self.pushing {
                Pushing::Writing { slot, next, item } => Parties {
                    slots: self.slots.update(slot, item),
                    pushing: Pushing::Written { next, item },
                    ..self
                },
                _ => self,
            },
            Step::PublishTail => match self.pushing {
                Pushing::Written { next, item } => Parties {
                    tail: next,
                    accepted: self.accepted.push(item),
                    pushing: Pushing::Idle,
                    ..self
                },
                _ => self,
            },
            Step::LookAtTail { n } => Parties { seen_in: n, ..self },
            Step::BeginPop => match shm::pop_at(self.head, counter(self.seen_in), self.cap) {
                Some((slot, next)) => Parties { popping: Popping::Reading { slot, next }, ..self },
                None => self,
            },
            Step::FinishRead => match self.popping {
                Popping::Reading { slot, next } => Parties {
                    popping: Popping::Taken { next, item: self.slots[slot] },
                    ..self
                },
                _ => self,
            },
            Step::PublishHead => match self.popping {
                Popping::Taken { next, item } => Parties {
                    head: next,
                    came_out: self.came_out.push(item),
                    popping: Popping::Idle,
                    ..self
                },
                _ => self,
            },
        }
    }

    /// After steps, in whatever sequence the two parties take them.
    pub open spec fn after_all(self, steps: Seq<Step<T>>) -> Parties<T>
        decreases steps.len(),
    {
        if steps.len() == 0 {
            self
        } else {
            self.after_all(steps.drop_last()).after(steps.last())
        }
    }

    /// Each step can be taken when it is.
    pub open spec fn allows_all(self, steps: Seq<Step<T>>) -> bool
        decreases steps.len(),
    {
        steps.len() > 0 ==> {
            &&& self.allows_all(steps.drop_last())
            &&& self.after_all(steps.drop_last()).allows(steps.last())
        }
    }

    /// A slot is being written and read at once, so that a read could see an item
    /// half written.
    pub open spec fn is_torn(self) -> bool {
        match (self.pushing, self.popping) {
            (
                Pushing::Writing { slot: written, .. },
                Popping::Reading { slot: read, .. },
            ) => written == read,
            _ => false,
        }
    }

    /// The producer is in order: its counter is that of the items accepted, and
    /// what it writes is the next slot, which is free.
    spec fn producer_wf(self) -> bool {
        let sent = self.accepted.len();
        let seen = self.seen_out;
        &&& self.tail == counter(sent)
        &&& seen <= self.came_out.len()
        &&& sent - seen <= self.cap
        &&& match self.pushing {
            Pushing::Idle => true,
            Pushing::Writing { slot, next, .. } => {
                &&& sent - seen < self.cap
                &&& slot == sent as int % self.cap as int
                &&& next == counter(sent + 1)
            },
            Pushing::Written { next, item } => {
                &&& sent - seen < self.cap
                &&& next == counter(sent + 1)
                &&& self.slots[sent as int % self.cap as int] == item
            },
        }
    }

    /// The consumer is in order: its counter is that of the items that came out,
    /// and what it reads is the oldest item.
    spec fn consumer_wf(self) -> bool {
        let taken = self.came_out.len();
        let seen = self.seen_in;
        &&& self.head == counter(taken)
        &&& taken <= seen <= self.accepted.len()
        &&& match self.popping {
            Popping::Idle => true,
            Popping::Reading { slot, next } => {
                &&& taken < seen
                &&& slot == taken as int % self.cap as int
                &&& next == counter(taken + 1)
            },
            Popping::Taken { next, item } => {
                &&& taken < seen
                &&& next == counter(taken + 1)
                &&& item == self.accepted[taken as int]
            },
        }
    }

    /// What came out was accepted, in this order, and what was accepted and has
    /// not come out is in its slots.
    spec fn contents_wf(self) -> bool {
        &&& self.cap > 0
        &&& self.slots.len() == self.cap
        &&& self.came_out.len() <= self.accepted.len()
        &&& self.came_out == self.accepted.take(self.came_out.len() as int)
        &&& forall|i: int|
            #![trigger self.accepted[i]]
            self.came_out.len() <= i < self.accepted.len() ==> self.slots[i % self.cap as int]
                == self.accepted[i]
    }

    /// Slots follow each other for all items so far and one more.
    spec fn counts(self) -> bool {
        shm::wraps_cleanly(self.cap) || self.accepted.len() + 1 < shm::counters()
    }

    spec fn wf(self) -> bool {
        &&& self.contents_wf()
        &&& self.producer_wf()
        &&& self.consumer_wf()
    }
}

proof fn lemma_counter(n: nat)
    ensures
        counter(n) as int == n as int % shm::counters(),
        counter(n + 1) == shm::stepped(counter(n), 1),
{
    let c = shm::counters();
    vstd::arithmetic::div_mod::lemma_mod_bound(n as int, c);
    vstd::arithmetic::div_mod::lemma_add_mod_noop(n as int, 1, c);
    vstd::arithmetic::div_mod::lemma_small_mod(1, c as nat);
    assert((n as int % c + 1) % c == (n as int + 1) % c);
}

/// How far two counters are apart is how far their items are.
proof fn lemma_pending(a: nat, b: nat)
    requires
        a <= b,
        b - a < shm::counters(),
    ensures
        shm::pending(counter(a), counter(b)) == b - a,
{
    let c = shm::counters();
    let q = a as int / c;
    let r = a as int % c;
    let d = b - a;
    vstd::arithmetic::div_mod::lemma_fundamental_div_mod(a as int, c);
    vstd::arithmetic::div_mod::lemma_mod_bound(a as int, c);
    if r + d < c {
        vstd::arithmetic::div_mod::lemma_fundamental_div_mod_converse(b as int, c, q, r + d);
    } else {
        vstd::arithmetic::div_mod::lemma_fundamental_div_mod_converse(
            b as int,
            c,
            q + 1,
            r + d - c,
        );
    }
}

/// The slot of a counter is that of its item.
proof fn lemma_slot_of(n: nat, cap: usize)
    requires
        cap > 0,
        shm::wraps_cleanly(cap) || n < shm::counters(),
    ensures
        shm::slot_of(counter(n), cap) == n as int % cap as int,
{
    let c = shm::counters();
    let m = cap as int;
    if n < c {
        vstd::arithmetic::div_mod::lemma_small_mod(n, c as nat);
    } else {
        let k = c / m;
        assert(c == m * k && k > 0) by (nonlinear_arith)
            requires
                m > 0,
                c % m == 0,
                k == c / m,
                c > 0,
        ;
        vstd::arithmetic::div_mod::lemma_mod_mod(n as int, m, k);
    }
}

proof fn lemma_producer_step<T>(p: Parties<T>, step: Step<T>)
    requires
        p.contents_wf(),
        p.producer_wf(),
        p.consumer_wf(),
        p.counts(),
        p.allows(step),
        step is LookAtHead || step is BeginPush || step is FinishWrite || step is PublishTail,
    ensures
        p.after(step).wf(),
{
    let q = p.after(step);
    let sent = p.accepted.len();
    let taken = p.came_out.len();
    let cap = p.cap as int;
    lemma_counter(sent);
    lemma_pending(p.seen_out, sent);
    lemma_slot_of(sent, p.cap);
    match step {
        Step::FinishWrite => {
            assert forall|i: int| #![trigger q.accepted[i]] taken <= i < sent implies q.slots[i
                % cap] == q.accepted[i] by {
                assert(p.slots[i % cap] == p.accepted[i]);
                shm::lemma_slots_differ(i, sent as int, p.cap);
                vstd::arithmetic::div_mod::lemma_mod_bound(i, cap);
            }
            vstd::arithmetic::div_mod::lemma_mod_bound(sent as int, cap);
            assert(q.contents_wf());
        },
        Step::PublishTail => {
            assert(q.came_out =~= q.accepted.take(taken as int));
            assert forall|i: int| #![trigger q.accepted[i]] taken <= i < sent + 1 implies q.slots[i
                % cap] == q.accepted[i] by {
                if i < sent {
                    assert(q.accepted[i] == p.accepted[i]);
                }
            }
            assert(q.contents_wf());
        },
        _ => {},
    }
}

proof fn lemma_consumer_step<T>(p: Parties<T>, step: Step<T>)
    requires
        p.contents_wf(),
        p.producer_wf(),
        p.consumer_wf(),
        p.counts(),
        p.allows(step),
        step is LookAtTail || step is BeginPop || step is FinishRead || step is PublishHead,
    ensures
        p.after(step).wf(),
{
    let q = p.after(step);
    let sent = p.accepted.len();
    let taken = p.came_out.len();
    let cap = p.cap as int;
    lemma_counter(taken);
    lemma_pending(taken, p.seen_in);
    lemma_slot_of(taken, p.cap);
    match step {
        Step::FinishRead => {
            assert(p.slots[taken as int % cap] == p.accepted[taken as int]);
        },
        Step::PublishHead => {
            assert(q.came_out =~= q.accepted.take(taken as int + 1));
            assert(q.contents_wf());
        },
        _ => {},
    }
}

/// What holds after any steps from an empty ring.
proof fn lemma_stays_in_order<T>(slots: Seq<T>, cap: usize, steps: Seq<Step<T>>)
    requires
        cap > 0,
        slots.len() == cap,
        shm::wraps_cleanly(cap) || steps.len() + 1 < shm::counters(),
        Parties::empty(slots, cap).allows_all(steps),
    ensures
        Parties::empty(slots, cap).after_all(steps).wf(),
        Parties::empty(slots, cap).after_all(steps).cap == cap,
        Parties::empty(slots, cap).after_all(steps).accepted.len() <= steps.len(),
    decreases steps.len(),
{
    let start = Parties::empty(slots, cap);
    if steps.len() == 0 {
        assert(counter(0) == 0);
        assert(start.came_out =~= start.accepted.take(0));
    } else {
        let fewer = steps.drop_last();
        lemma_stays_in_order(slots, cap, fewer);
        let p = start.after_all(fewer);
        let step = steps.last();
        if step is LookAtHead || step is BeginPush || step is FinishWrite || step is PublishTail {
            lemma_producer_step(p, step);
        } else {
            lemma_consumer_step(p, step);
        }
    }
}

/// However the steps of one producer and one consumer interleave, and however
/// late each sees the other, what comes out of a ring that was empty is a first
/// part of what was accepted: nothing is lost, repeated, overtaken or torn, and
/// no more items wait than the ring holds. (A ring whose capacity does not divide
/// the number of counters is left out once it runs out of counters.)
pub proof fn law_interleaved_steps_keep_the_order<T>(
    slots: Seq<T>,
    cap: usize,
    steps: Seq<Step<T>>,
)
    requires
        cap > 0,
        slots.len() == cap,
        shm::wraps_cleanly(cap) || steps.len() + 1 < shm::counters(),
        Parties::empty(slots, cap).allows_all(steps),
    ensures
        ({
            let p = Parties::empty(slots, cap).after_all(steps);
            &&& p.came_out.len() <= p.accepted.len() <= p.came_out.len() + cap
            &&& p.came_out == p.accepted.take(p.came_out.len() as int)
            &&& !p.is_torn()
        }),
{
    lemma_stays_in_order(slots, cap, steps);
    let p = Parties::empty(slots, cap).after_all(steps);
    match (p.pushing, p.popping) {
        (Pushing::Writing { slot: w, .. }, Popping::Reading { slot: r, .. }) => {
            shm::lemma_slots_differ(p.came_out.len() as int, p.accepted.len() as int, cap);
        },
        _ => {},
    }
}

/// With no step of the other party meanwhile, a party that has looked knows: a
/// push is refused exactly if as many accepted items have not come out as the
/// ring holds, and a pop finds nothing exactly if all have.
pub proof fn law_undisturbed_calls_are_exact<T>(
    slots: Seq<T>,
    cap: usize,
    steps: Seq<Step<T>>,
)
    requires
        cap > 0,
        slots.len() == cap,
        shm::wraps_cleanly(cap) || steps.len() + 1 < shm::counters(),
        Parties::empty(slots, cap).allows_all(steps),
    ensures
        ({
            let p = Parties::empty(slots, cap).after_all(steps);
            &&& shm::push_at(p.head, p.tail, cap) is None <==> p.accepted.len()
                - p.came_out.len() == cap
            &&& shm::pop_at(p.head, p.tail, cap) is None <==> p.came_out == p.accepted
        }),
{
    lemma_stays_in_order(slots, cap, steps);
    let p = Parties::empty(slots, cap).after_all(steps);
    lemma_pending(p.came_out.len(), p.accepted.len());
    assert(p.accepted.take(p.accepted.len() as int) =~= p.accepted);
}

/// The rings of the control block never run out of counters.
pub proof fn law_control_rings_keep_the_order<T>(slots: Seq<T>, cap: usize, steps: Seq<Step<T>>)
    requires
        cap == shm::FOF_CAP || cap == shm::KILL_CAP,
        slots.len() == cap,
        Parties::empty(slots, cap).allows_all(steps),
    ensures
        ({
            let p = Parties::empty(slots, cap).after_all(steps);
            &&& p.came_out.len() <= p.accepted.len() <= p.came_out.len() + cap
            &&& p.came_out == p.accepted.take(p.came_out.len() as int)
            &&& !p.is_torn()
        }),
{
    shm::lemma_capacities_wrap_cleanly();
    law_interleaved_steps_keep_the_order(slots, cap, steps);
}

} // verus!
