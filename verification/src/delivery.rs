//! What draining a schedule delivers, over one drain and over many: in order,
//! in time, nothing lost.
use crate::fof::FofParams;
use crate::queue;
use crate::queue::TimeWheelConsumer;
use crate::schedule;
use crate::schedule::ScheduleModel;
use crate::wheel;
use vstd::prelude::*;

verus! {

/// A drain of the ring does what [`crate::schedule::Schedule::drain`] does with
/// the grains that the consumer has seen, waiting in line.
pub proof fn law_ring_is_drained_as_a_line(
    before: TimeWheelConsumer,
    after: TimeWheelConsumer,
    entries: Seq<FofParams>,
    block_end: int,
)
    requires
        queue::drained(before, after, entries, block_end),
    ensures
        ({
            let waiting = before.log().subrange(before.taken() as int, after.seen() as int);
            let taken = schedule::ready_count(waiting, before@.admit_before()) as int;
            let deferred = if taken < waiting.len() {
                Some(waiting[taken].start_sample)
            } else {
                None
            };
            &&& entries == waiting.take(taken)
            &&& after@ == before@.through(waiting.take(taken), schedule::reached(deferred, block_end))
        }),
{
    let waiting = before.log().subrange(before.taken() as int, after.seen() as int);
    let n = entries.len() as int;
    assert(entries =~= waiting.take(n));
    assert forall|i: int| #![trigger waiting[i]] 0 <= i < n implies waiting[i].start_sample
        < before@.admit_before() by {
        assert(waiting[i] == entries[i]);
    }
    if n < waiting.len() {
        assert(waiting[n] == before.log()[after.taken() as int]);
    }
    lemma_ready_count(waiting, before@.admit_before(), n);
}

proof fn lemma_ready_count(waiting: Seq<FofParams>, limit: int, n: int)
    requires
        0 <= n <= waiting.len(),
        forall|i: int| #![trigger waiting[i]] 0 <= i < n ==> waiting[i].start_sample < limit,
        n < waiting.len() ==> waiting[n].start_sample >= limit,
    ensures
        schedule::ready_count(waiting, limit) == n,
    decreases n,
{
    if n > 0 {
        let rest = waiting.drop_first();
        assert(waiting[0].start_sample < limit);
        assert forall|i: int| #![trigger rest[i]] 0 <= i < n - 1 implies rest[i].start_sample
            < limit by {
            assert(rest[i] == waiting[i + 1]);
        }
        if n - 1 < rest.len() {
            assert(rest[n - 1] == waiting[n]);
        }
        lemma_ready_count(rest, limit, n - 1);
    }
}

/// No waiting grain starts after `start`.
pub open spec fn none_later(s: ScheduleModel, start: int) -> bool {
    forall|j: int, k: int|
        #![trigger s.wheel.pending[j][k]]
        0 <= j < s.wheel.pending.len() && 0 <= k < s.wheel.pending[j].len()
            ==> s.wheel.pending[j][k].start_sample <= start
}

/// The starts do not decrease.
pub open spec fn in_start_order(entries: Seq<FofParams>) -> bool {
    forall|i: int, j: int|
        #![trigger entries[i], entries[j]]
        0 <= i <= j < entries.len() ==> entries[i].start_sample <= entries[j].start_sample
}

proof fn lemma_none_later_advanced(s: ScheduleModel, now: int, start: int)
    requires
        none_later(s, start),
    ensures
        none_later(s.advanced(now), start),
{
    let after = s.advanced(now);
    let m = s.wheel.elapsed(now);
    assert forall|j: int, k: int|
        #![trigger after.wheel.pending[j][k]]
        0 <= j < after.wheel.pending.len() && 0 <= k < after.wheel.pending[j].len() implies
        after.wheel.pending[j][k].start_sample <= start by {
        assert(after.wheel.pending[j][k] == s.wheel.pending[j + m][k]);
    }
}

/// A grain that starts no earlier than the waiting ones goes behind them all.
proof fn lemma_admitted_appends(s: ScheduleModel, p: FofParams)
    requires
        s.wf(),
        s.in_place(),
        none_later(s, p.start_sample as int),
    ensures
        ({
            let waiting = s.wheel.pending.flatten();
            let after = s.admitted(p).wheel.pending.flatten();
            after == waiting || after == waiting.push(p)
        }),
        forall|start: int|
            #![trigger none_later(s.admitted(p), start)]
            start >= p.start_sample && none_later(s, start) ==> none_later(s.admitted(p), start),
{
    let deadline = p.start_sample as int;
    if s.wheel.reject(deadline) is None {
        wheel::lemma_accepted_offset(s.wheel, deadline);
        let at = s.wheel.slot_offset(deadline);
        let parts = s.wheel.pending;
        let d = s.wheel.slot_duration as int;
        assert forall|j: int| #![trigger parts[j]] at < j < parts.len() implies parts[j].len()
            == 0 by {
            if parts[j].len() > 0 {
                let later = parts[j][0].start_sample as int;
                assert(later / d == s.wheel.slot_index + j);
                assert(later <= deadline);
                vstd::arithmetic::div_mod::lemma_div_is_ordered(later, deadline, d);
            }
        }
        schedule::lemma_flatten_appended(parts, at, p);
        let after = s.admitted(p);
        assert forall|start: int|
            #![trigger none_later(after, start)]
            start >= p.start_sample && none_later(s, start) implies none_later(after, start) by {
            assert forall|j: int, k: int|
                #![trigger after.wheel.pending[j][k]]
                0 <= j < after.wheel.pending.len() && 0 <= k < after.wheel.pending[j].len() implies
                after.wheel.pending[j][k].start_sample <= start by {
                if !(j == at && k == parts[j].len()) {
                    assert(after.wheel.pending[j][k] == s.wheel.pending[j][k]);
                }
            }
        }
    }
}

/// Taking grains in order of their start keeps the order in which they came.
proof fn lemma_taking_all_in_order(s: ScheduleModel, entries: Seq<FofParams>)
    requires
        s.wf(),
        s.in_place(),
        in_start_order(entries),
        entries.len() > 0 ==> none_later(s, entries[0].start_sample as int),
    ensures
        crate::order::comes_from(
            s.fired_taking_all(entries) + s.taking_all(entries).wheel.pending.flatten(),
            s.wheel.pending.flatten() + entries,
        ),
        forall|start: int|
            #![trigger none_later(s.taking_all(entries), start)]
            none_later(s, start) && (entries.len() > 0 ==> start >= entries.last().start_sample)
                ==> none_later(s.taking_all(entries), start),
    decreases entries.len(),
{
    let waiting = s.wheel.pending.flatten();
    if entries.len() == 0 {
        assert(s.fired_taking_all(entries) + s.taking_all(entries).wheel.pending.flatten()
            =~= waiting);
        assert(waiting + entries =~= waiting);
        crate::order::lemma_comes_from_itself(waiting);
    } else {
        let first = entries.drop_last();
        let p = entries.last();
        let start = p.start_sample as int;
        assert(in_start_order(first)) by {
            assert forall|i: int, j: int|
                #![trigger first[i], first[j]]
                0 <= i <= j < first.len() implies first[i].start_sample
                <= first[j].start_sample by {
                assert(entries[i].start_sample <= entries[j].start_sample);
            }
        }
        assert(entries[0].start_sample <= entries[entries.len() - 1].start_sample);
        if first.len() > 0 {
            assert(first[0] == entries[0]);
            assert(first.last() == entries[first.len() - 1]);
            assert(entries[first.len() - 1].start_sample <= entries[first.len() as int].start_sample);
        }
        lemma_taking_all_in_order(s, first);
        schedule::lemma_taking_all_keeps(s, first);
        let mid = s.taking_all(first);
        let at = mid.reaching(start);
        let fired = mid.fired_taking(p);
        schedule::lemma_reaching_keeps(mid, start);
        assert(none_later(s, start)) by {
            assert forall|j: int, k: int|
                #![trigger s.wheel.pending[j][k]]
                0 <= j < s.wheel.pending.len() && 0 <= k < s.wheel.pending[j].len() implies
                s.wheel.pending[j][k].start_sample <= start by {
                assert(s.wheel.pending[j][k].start_sample <= entries[0].start_sample);
            }
        }
        assert(none_later(mid, start));
        lemma_none_later_advanced(mid, start, start);
        wheel::law_nothing_is_lost(mid.wheel, start);
        assert(mid.wheel.pending.flatten() =~= fired + at.wheel.pending.flatten());
        lemma_admitted_appends(at, p);
        let done = s.fired_taking_all(first);
        let before = done + mid.wheel.pending.flatten();
        let after = s.fired_taking_all(entries) + s.taking_all(entries).wheel.pending.flatten();
        assert(waiting + entries =~= (waiting + first) + seq![p]);
        if s.taking_all(entries).wheel.pending.flatten() == at.wheel.pending.flatten().push(p) {
            assert(after =~= before + seq![p]);
            crate::order::lemma_comes_from_before(before, waiting + first, seq![p]);
        } else {
            assert(after =~= before);
            crate::order::lemma_comes_from_more(before, waiting + first, seq![p]);
        }
        assert forall|t: int|
            #![trigger none_later(s.taking_all(entries), t)]
            none_later(s, t) && t >= p.start_sample implies none_later(
            s.taking_all(entries),
            t,
        ) by {
            assert(none_later(mid, t));
            lemma_none_later_advanced(mid, start, t);
            assert(none_later(at, t));
            assert(none_later(at.admitted(p), t));
        }
    }
}

/// Drains up to the given ends, one after the other: `states` are the consumer
/// before each of them and after the last, and `outs` what was collected by
/// then.
pub open spec fn drains(
    states: Seq<TimeWheelConsumer>,
    ends: Seq<int>,
    outs: Seq<Seq<FofParams>>,
) -> bool {
    &&& states.len() == ends.len() + 1
    &&& outs.len() == ends.len() + 1
    &&& forall|k: int|
        #![trigger ends[k]]
        0 <= k < ends.len() ==> drain_call(
            states[k],
            states[k + 1],
            ends[k],
            outs[k],
            outs[k + 1],
        )
}

/// One drain up to `block_end`.
pub open spec fn drain_call(
    before: TimeWheelConsumer,
    after: TimeWheelConsumer,
    block_end: int,
    out_before: Seq<FofParams>,
    out_after: Seq<FofParams>,
) -> bool {
    let entries = before.log().subrange(before.taken() as int, after.taken() as int);
    &&& block_end >= 0
    &&& queue::drained(before, after, entries, block_end)
    &&& out_after == out_before + before@.fired_through(
        entries,
        schedule::reached(queue::deferred_start(after), block_end),
    )
}

/// Where grains are submitted in order of their start, drains collect them in
/// the order in which they were submitted, and none twice: over any number of
/// drains, what had been collected stays, and what was added, followed by what
/// still waits in the wheel, comes in order from what waited there at first,
/// followed by what was taken out of the ring.
pub proof fn law_drains_collect_in_order(
    states: Seq<TimeWheelConsumer>,
    ends: Seq<int>,
    outs: Seq<Seq<FofParams>>,
)
    requires
        drains(states, ends, outs),
        states[0].wf(),
        ({
            let log = states[0].log();
            let from = states[0].taken() as int;
            let to = states.last().taken() as int;
            &&& in_start_order(log.subrange(from, to))
            &&& from < to ==> none_later(states[0]@, log[from].start_sample as int)
        }),
    ensures
        states.last().log() == states[0].log(),
        states[0].taken() <= states.last().taken() <= states[0].log().len(),
        outs.last().len() >= outs[0].len(),
        outs.last().take(outs[0].len() as int) == outs[0],
        crate::order::comes_from(
            outs.last().skip(outs[0].len() as int) + states.last()@.wheel.pending.flatten(),
            states[0]@.wheel.pending.flatten() + states[0].log().subrange(
                states[0].taken() as int,
                states.last().taken() as int,
            ),
        ),
        states.last()@.wf(),
        states.last()@.in_place(),
        forall|start: int|
            #![trigger none_later(states.last()@, start)]
            none_later(states[0]@, start) && (states[0].taken() < states.last().taken() ==> start
                >= states[0].log()[states.last().taken() - 1].start_sample) ==> none_later(
                states.last()@,
                start,
            ),
    decreases ends.len(),
{
    let log = states[0].log();
    let from = states[0].taken() as int;
    let n = ends.len() as int;
    if n == 0 {
        assert(states.last() == states[0]);
        assert(outs.last() == outs[0]);
        assert(outs[0].take(outs[0].len() as int) =~= outs[0]);
        let waiting = states[0]@.wheel.pending.flatten();
        assert(outs[0].skip(outs[0].len() as int) + waiting =~= waiting);
        assert(waiting + log.subrange(from, from) =~= waiting);
        crate::order::lemma_comes_from_itself(waiting);
    } else {
        let s2 = states.drop_last();
        let e2 = ends.drop_last();
        let o2 = outs.drop_last();
        let mid = states[n - 1];
        let last = states[n];
        assert(drain_call(mid, last, ends[n - 1], outs[n - 1], outs[n]));
        assert(drains(s2, e2, o2)) by {
            assert forall|k: int| #![trigger e2[k]] 0 <= k < e2.len() implies drain_call(
                s2[k],
                s2[k + 1],
                e2[k],
                o2[k],
                o2[k + 1],
            ) by {
                assert(e2[k] == ends[k]);
            }
        }
        let to = last.taken() as int;
        let at = mid.taken() as int;
        let all = log.subrange(from, to);
        lemma_taken_grows(s2, e2, o2);
        let part = log.subrange(from, at);
        assert(in_start_order(part)) by {
            assert forall|i: int, j: int|
                #![trigger part[i], part[j]]
                0 <= i <= j < part.len() implies part[i].start_sample <= part[j].start_sample by {
                assert(part[i] == all[i] && part[j] == all[j]);
            }
        }
        assert(s2[0] == states[0] && s2.last() == mid && o2[0] == outs[0] && o2.last()
            == outs[n - 1]);
        law_drains_collect_in_order(s2, e2, o2);
        let entries = log.subrange(at, to);
        assert(in_start_order(entries)) by {
            assert forall|i: int, j: int|
                #![trigger entries[i], entries[j]]
                0 <= i <= j < entries.len() implies entries[i].start_sample
                <= entries[j].start_sample by {
                assert(entries[i] == all[at - from + i] && entries[j] == all[at - from + j]);
            }
        }
        if entries.len() > 0 {
            let start = log[at].start_sample as int;
            assert(entries[0] == log[at]);
            assert(all[at - from] == log[at]);
            assert(all[0] == log[from]);
            assert(all[0].start_sample <= all[at - from].start_sample);
            if from < at {
                assert(all[at - 1 - from] == log[at - 1]);
                assert(all[at - 1 - from].start_sample <= all[at - from].start_sample);
            }
            assert(none_later(states[0]@, start)) by {
                assert forall|j: int, k: int|
                    #![trigger states[0]@.wheel.pending[j][k]]
                    0 <= j < states[0]@.wheel.pending.len() && 0 <= k
                        < states[0]@.wheel.pending[j].len() implies
                    states[0]@.wheel.pending[j][k].start_sample <= start by {
                    assert(states[0]@.wheel.pending[j][k].start_sample <= log[from].start_sample);
                }
            }
            assert(none_later(s2.last()@, start));
        }
        let now_at = schedule::reached(queue::deferred_start(last), ends[n - 1]);
        lemma_drain_in_order(mid@, entries, now_at);
        // What was there before the last drain, with what it added.
        let fired = mid@.fired_through(entries, now_at);
        let waiting = states[0]@.wheel.pending.flatten();
        let had = outs[0].len() as int;
        let added = o2.last().skip(had);
        let now = last@.wheel.pending.flatten();
        assert(outs.last() == outs[n]);
        assert(outs.last().take(had) =~= o2.last().take(had));
        assert(outs.last().skip(had) + now =~= added + (fired + now));
        crate::order::lemma_comes_from_after(
            added,
            fired + now,
            mid@.wheel.pending.flatten() + entries,
        );
        crate::order::lemma_comes_from_before(
            added + mid@.wheel.pending.flatten(),
            waiting + part,
            entries,
        );
        assert(added + (mid@.wheel.pending.flatten() + entries) =~= (added
            + mid@.wheel.pending.flatten()) + entries);
        assert((waiting + part) + entries =~= waiting + all);
        crate::order::lemma_comes_from_twice(
            added + (fired + now),
            added + (mid@.wheel.pending.flatten() + entries),
            waiting + all,
        );
        assert forall|start: int|
            #![trigger none_later(states.last()@, start)]
            none_later(states[0]@, start) && (from < to ==> start >= log[to - 1].start_sample) implies
            none_later(states.last()@, start) by {
            if from < at {
                assert(all[at - 1 - from] == log[at - 1]);
                assert(all[to - 1 - from] == log[to - 1]);
                assert(all[at - 1 - from].start_sample <= all[to - 1 - from].start_sample);
            }
            assert(none_later(s2.last()@, start));
            if at < to {
                assert(entries.last() == log[to - 1]);
            }
            assert(none_later(mid@.through(entries, now_at), start));
        }
    }
}

/// What a consumer that begins with nothing delivers of what is pushed in order
/// of its start, over any number of drains: what was collected before stays, and
/// what is added comes from what was pushed, unchanged, in this order and none
/// twice. Each drain adds a grain only once its slot is over by the end of the
/// block, and neither adds nor takes one that is beyond the window as it was
/// before that drain.
pub proof fn law_drains_deliver_what_was_pushed(
    tx: queue::TimeWheelProducer,
    states: Seq<TimeWheelConsumer>,
    ends: Seq<int>,
    outs: Seq<Seq<FofParams>>,
)
    requires
        drains(states, ends, outs),
        states[0].wf(),
        tx.log() == states[0].log(),
        states[0].taken() == 0,
        states[0]@.wheel.pending.flatten().len() == 0,
        in_start_order(tx.log().take(states.last().taken() as int)),
    ensures
        outs[0].len() <= outs.last().len(),
        outs.last().take(outs[0].len() as int) == outs[0],
        crate::order::comes_from(
            outs.last().skip(outs[0].len() as int),
            tx.log().take(states.last().taken() as int),
        ),
        forall|c: int, i: int|
            #![trigger ends[c], outs[c + 1][i]]
            0 <= c < ends.len() && outs[c].len() <= i < outs[c + 1].len() ==> {
                let start = outs[c + 1][i].start_sample as int;
                let d = states[0]@.wheel.slot_duration as int;
                &&& (start / d + 1) * d <= ends[c]
                &&& start < states[c]@.admit_before()
            },
        forall|c: int, k: int|
            #![trigger states[c], tx.log()[k]]
            0 <= c < ends.len() && states[c].taken() <= k < tx.log().len() && tx.log()[k].start_sample
                >= states[c]@.admit_before() ==> k >= states[c + 1].taken(),
{
    let n = ends.len() as int;
    let log = tx.log();
    let to = states.last().taken() as int;
    lemma_taken_grows(states, ends, outs);
    assert(log.subrange(0, to) =~= log.take(to));
    lemma_nothing_is_later(states[0]@, 0);
    if to > 0 {
        lemma_nothing_is_later(states[0]@, log[0].start_sample as int);
    }
    law_drains_collect_in_order(states, ends, outs);
    let added = outs.last().skip(outs[0].len() as int);
    let waiting = states.last()@.wheel.pending.flatten();
    crate::order::lemma_comes_from_itself(added);
    crate::order::lemma_comes_from_more(added, added, waiting);
    assert(states[0]@.wheel.pending.flatten() + log.subrange(0, to) =~= log.take(to));
    crate::order::lemma_comes_from_twice(added, added + waiting, log.take(to));
    assert forall|c: int, i: int|
        #![trigger ends[c], outs[c + 1][i]]
        0 <= c < n && outs[c].len() <= i < outs[c + 1].len() implies {
        let start = outs[c + 1][i].start_sample as int;
        let d = states[0]@.wheel.slot_duration as int;
        &&& (start / d + 1) * d <= ends[c]
        &&& start < states[c]@.admit_before()
    } by {
        lemma_drains_keep(states, ends, outs, c);
        assert(drain_call(states[c], states[c + 1], ends[c], outs[c], outs[c + 1]));
        let entries = states[c].log().subrange(
            states[c].taken() as int,
            states[c + 1].taken() as int,
        );
        law_drain_collects_only_what_is_over(
            states[c],
            states[c + 1],
            entries,
            ends[c],
            outs[c],
            outs[c + 1],
            i,
        );
    }
    assert forall|c: int, k: int|
        #![trigger states[c], log[k]]
        0 <= c < n && states[c].taken() <= k < log.len() && log[k].start_sample
            >= states[c]@.admit_before() implies k >= states[c + 1].taken() by {
        lemma_drains_keep(states, ends, outs, c);
        assert(drain_call(states[c], states[c + 1], ends[c], outs[c], outs[c + 1]));
        let entries = states[c].log().subrange(
            states[c].taken() as int,
            states[c + 1].taken() as int,
        );
        law_drain_leaves_what_is_beyond_the_window(
            states[c],
            states[c + 1],
            entries,
            ends[c],
            k,
        );
    }
}

/// Where nothing waits, nothing waits that starts later.
proof fn lemma_nothing_is_later(s: ScheduleModel, start: int)
    requires
        s.wheel.pending.flatten().len() == 0,
    ensures
        none_later(s, start),
{
    assert forall|j: int, k: int|
        #![trigger s.wheel.pending[j][k]]
        0 <= j < s.wheel.pending.len() && 0 <= k < s.wheel.pending[j].len() implies
        s.wheel.pending[j][k].start_sample <= start by {
        wheel::lemma_flatten_holds(s.wheel.pending, j, k);
    }
}

/// Drains keep a schedule in order, its slots as long as they were, and the log.
proof fn lemma_drains_keep(
    states: Seq<TimeWheelConsumer>,
    ends: Seq<int>,
    outs: Seq<Seq<FofParams>>,
    c: int,
)
    requires
        drains(states, ends, outs),
        states[0].wf(),
        0 <= c <= ends.len(),
    ensures
        states[c]@.wf(),
        states[c]@.in_place(),
        states[c]@.wheel.slot_duration == states[0]@.wheel.slot_duration,
        states[c].log() == states[0].log(),
    decreases c,
{
    if c > 0 {
        lemma_drains_keep(states, ends, outs, c - 1);
        let before = states[c - 1];
        let after = states[c];
        assert(drain_call(before, after, ends[c - 1], outs[c - 1], outs[c]));
        let entries = before.log().subrange(before.taken() as int, after.taken() as int);
        schedule::lemma_taking_all_keeps(before@, entries);
        schedule::lemma_advanced_keeps(
            before@.taking_all(entries),
            schedule::reached(queue::deferred_start(after), ends[c - 1]),
        );
    }
}

/// What one drain does, where the grains come in order of their start.
proof fn lemma_drain_in_order(s: ScheduleModel, entries: Seq<FofParams>, block_end: int)
    requires
        s.wf(),
        s.in_place(),
        in_start_order(entries),
        entries.len() > 0 ==> none_later(s, entries[0].start_sample as int),
    ensures
        s.through(entries, block_end).wf(),
        s.through(entries, block_end).in_place(),
        crate::order::comes_from(
            s.fired_through(entries, block_end) + s.through(
                entries,
                block_end,
            ).wheel.pending.flatten(),
            s.wheel.pending.flatten() + entries,
        ),
        forall|start: int|
            #![trigger none_later(s.through(entries, block_end), start)]
            none_later(s, start) && (entries.len() > 0 ==> start >= entries.last().start_sample)
                ==> none_later(s.through(entries, block_end), start),
{
    schedule::lemma_taking_all_keeps(s, entries);
    let mid = s.taking_all(entries);
    lemma_taking_all_in_order(s, entries);
    schedule::lemma_advanced_keeps(mid, block_end);
    wheel::law_nothing_is_lost(mid.wheel, block_end);
    assert(s.fired_through(entries, block_end) + s.through(
        entries,
        block_end,
    ).wheel.pending.flatten() =~= s.fired_taking_all(entries) + mid.wheel.pending.flatten());
    assert forall|start: int|
        #![trigger none_later(s.through(entries, block_end), start)]
        none_later(s, start) && (entries.len() > 0 ==> start >= entries.last().start_sample) implies
        none_later(s.through(entries, block_end), start) by {
        assert(none_later(mid, start));
        lemma_none_later_advanced(mid, block_end, start);
    }
}

proof fn lemma_taken_grows(
    states: Seq<TimeWheelConsumer>,
    ends: Seq<int>,
    outs: Seq<Seq<FofParams>>,
)
    requires
        drains(states, ends, outs),
        states[0].wf(),
    ensures
        states.last().log() == states[0].log(),
        states[0].taken() <= states.last().taken() <= states[0].log().len(),
    decreases ends.len(),
{
    let n = ends.len() as int;
    if n > 0 {
        let s2 = states.drop_last();
        let e2 = ends.drop_last();
        let o2 = outs.drop_last();
        assert(drains(s2, e2, o2)) by {
            assert forall|k: int| #![trigger e2[k]] 0 <= k < e2.len() implies drain_call(
                s2[k],
                s2[k + 1],
                e2[k],
                o2[k],
                o2[k + 1],
            ) by {
                assert(e2[k] == ends[k]);
            }
        }
        lemma_taken_grows(s2, e2, o2);
        assert(drain_call(states[n - 1], states[n], ends[n - 1], outs[n - 1], outs[n]));
    } else {
        assert(states.last() == states[0]);
    }
}

/// A drain leaves what is beyond the window, as it was before, in the ring.
pub proof fn law_drain_leaves_what_is_beyond_the_window(
    before: TimeWheelConsumer,
    after: TimeWheelConsumer,
    entries: Seq<FofParams>,
    block_end: int,
    k: int,
)
    requires
        queue::drained(before, after, entries, block_end),
        before.taken() <= k < before.log().len(),
        before.log()[k].start_sample >= before@.admit_before(),
    ensures
        k >= after.taken(),
        after.log()[k] == before.log()[k],
{
    if k < after.taken() {
        assert(entries[k - before.taken()] == before.log()[k]);
    }
}

/// A drain keeps what was collected before, collects a grain only once its slot
/// is over, and none that was beyond the window before.
pub proof fn law_drain_collects_only_what_is_over(
    before: TimeWheelConsumer,
    after: TimeWheelConsumer,
    entries: Seq<FofParams>,
    block_end: int,
    out_before: Seq<FofParams>,
    out_after: Seq<FofParams>,
    i: int,
)
    requires
        before@.wf(),
        before@.in_place(),
        entries == before.log().subrange(before.taken() as int, after.taken() as int),
        drain_call(before, after, block_end, out_before, out_after),
        out_before.len() <= i < out_after.len(),
    ensures
        ({
            let p = out_after[i];
            let d = before@.wheel.slot_duration as int;
            &&& before@.wheel.wheel_time() <= p.start_sample < before@.admit_before()
            &&& (p.start_sample as int / d + 1) * d <= block_end
        }),
        out_after.take(out_before.len() as int) == out_before,
{
    assert(out_after.take(out_before.len() as int) =~= out_before);
    let now = schedule::reached(queue::deferred_start(after), block_end);
    schedule::lemma_window_stays(before@, entries);
    schedule::lemma_taking_all_keeps(before@, entries);
    let s = before@.taking_all(entries);
    let at = i - out_before.len();
    assert(before@.fired_through(entries, now) =~= s.wheel.fired(now));
    schedule::lemma_fired_slot_is_over(s, now, at);
    lemma_fired_before_the_horizon(s, now, at);
}

/// What fires was inside the window.
proof fn lemma_fired_before_the_horizon(s: ScheduleModel, now: int, i: int)
    requires
        s.wf(),
        s.in_place(),
        0 <= i < s.wheel.fired(now).len(),
    ensures
        s.wheel.fired(now)[i].start_sample < s.admit_before(),
{
    let w = s.wheel;
    let d = w.slot_duration as int;
    let m = w.elapsed(now);
    let n = if m < w.pending.len() {
        m as int
    } else {
        w.pending.len() as int
    };
    let parts = w.pending.take(n);
    let (j, k) = schedule::lemma_flatten_comes_from(parts, i);
    assert(parts[j][k] == w.pending[j][k]);
    let start = w.pending[j][k].start_sample as int;
    vstd::arithmetic::div_mod::lemma_fundamental_div_mod(start, d);
    assert(start < w.slot_index * d + w.pending.len() * d) by (nonlinear_arith)
        requires
            start == d * (start / d) + start % d,
            start % d < d,
            start / d == w.slot_index + j,
            j + 1 <= w.pending.len(),
            d > 0,
    ;
}

proof fn lemma_taking_collects_what_is_over(
    s: ScheduleModel,
    entries: Seq<FofParams>,
    block_end: int,
    i: int,
)
    requires
        s.wf(),
        s.in_place(),
        block_end >= 0,
        schedule::admissible(s, entries, block_end),
        0 <= i < s.fired_taking_all(entries).len(),
    ensures
        ({
            let p = s.fired_taking_all(entries)[i];
            let d = s.wheel.slot_duration as int;
            &&& s.wheel.wheel_time() <= p.start_sample
            &&& (p.start_sample as int / d + 1) * d <= block_end
        }),
    decreases entries.len(),
{
    let first = entries.drop_last();
    let p = entries.last();
    let mid = s.taking_all(first);
    schedule::lemma_taking_all_keeps(s, first);
    let before = s.fired_taking_all(first);
    if i < before.len() {
        lemma_taking_collects_what_is_over(s, first, block_end, i);
    } else {
        schedule::lemma_fired_slot_is_over(mid, p.start_sample as int, i - before.len());
    }
}

proof fn lemma_collected_is_over(
    s: ScheduleModel,
    entries: Seq<FofParams>,
    block_end: int,
    i: int,
)
    requires
        s.wf(),
        s.in_place(),
        block_end >= 0,
        schedule::admissible(s, entries, block_end),
        0 <= i < s.fired_through(entries, block_end).len(),
    ensures
        ({
            let p = s.fired_through(entries, block_end)[i];
            let d = s.wheel.slot_duration as int;
            &&& s.wheel.wheel_time() <= p.start_sample
            &&& (p.start_sample as int / d + 1) * d <= block_end
        }),
{
    schedule::lemma_taking_all_keeps(s, entries);
    let before = s.fired_taking_all(entries);
    if i < before.len() {
        lemma_taking_collects_what_is_over(s, entries, block_end, i);
    } else {
        schedule::lemma_fired_slot_is_over(s.taking_all(entries), block_end, i - before.len());
    }
}

/// The grain waits in the wheel.
pub open spec fn waits(s: ScheduleModel, p: FofParams) -> bool {
    s.wheel.pending.flatten().contains(p)
}

/// When the schedule takes the entries in order, the slot of the entry holds as
/// many grains as a slot may by the time that it is the entry's turn.
pub open spec fn slot_is_full(s: ScheduleModel, entries: Seq<FofParams>, x: int) -> bool {
    let start = entries[x].start_sample as int;
    let w = s.taking_all(entries.take(x)).reaching(start).wheel;
    let d = w.slot_duration as int;
    let now = w.slot_index * d;
    &&& now <= start < now + w.pending.len() * d
    &&& w.pending[(start - now) / d].len() == w.slot_capacity
}

proof fn lemma_waits_or_fires(s: ScheduleModel, now: int, p: FofParams)
    requires
        s.wf(),
        waits(s, p),
    ensures
        s.wheel.fired(now).contains(p) || waits(s.advanced(now), p),
{
    wheel::law_nothing_is_lost(s.wheel, now);
    let all = s.wheel.pending.flatten();
    let fired = s.wheel.fired(now);
    let i = choose|i: int| 0 <= i < all.len() && all[i] == p;
    if i < fired.len() {
        assert(fired[i] == p);
    } else {
        assert(s.advanced(now).wheel.pending.flatten()[i - fired.len()] == p);
    }
}

proof fn lemma_waits_on(s: ScheduleModel, q: FofParams, p: FofParams)
    requires
        s.wf(),
        waits(s, p),
    ensures
        waits(s.admitted(q), p),
{
    let deadline = q.start_sample as int;
    if s.wheel.reject(deadline) is None {
        wheel::lemma_accepted_offset(s.wheel, deadline);
        let all = s.wheel.pending.flatten();
        let i = choose|i: int| 0 <= i < all.len() && all[i] == p;
        let (j, k) = schedule::lemma_flatten_comes_from(s.wheel.pending, i);
        let after = s.admitted(q).wheel.pending;
        assert(after[j][k] == p);
        wheel::lemma_flatten_holds(after, j, k);
    }
}

proof fn lemma_waits_when_admitted(s: ScheduleModel, p: FofParams)
    requires
        s.wf(),
        s.wheel.reject(p.start_sample as int) is None,
    ensures
        waits(s.admitted(p), p),
{
    let deadline = p.start_sample as int;
    wheel::lemma_accepted_offset(s.wheel, deadline);
    let j = s.wheel.slot_offset(deadline);
    let after = s.admitted(p).wheel.pending;
    assert(after[j][s.wheel.pending[j].len() as int] == p);
    wheel::lemma_flatten_holds(after, j, s.wheel.pending[j].len() as int);
}

proof fn lemma_held_by_either<T>(a: Seq<T>, b: Seq<T>, item: T)
    requires
        a.contains(item) || b.contains(item),
    ensures
        (a + b).contains(item),
{
    if a.contains(item) {
        let i = choose|i: int| 0 <= i < a.len() && a[i] == item;
        assert((a + b)[i] == item);
    } else {
        let i = choose|i: int| 0 <= i < b.len() && b[i] == item;
        assert((a + b)[a.len() + i] == item);
    }
}

/// A waiting grain fires or waits on when further ones are taken.
proof fn lemma_waits_while_taking(s: ScheduleModel, entries: Seq<FofParams>, p: FofParams)
    requires
        s.wf(),
        s.in_place(),
        waits(s, p),
    ensures
        s.fired_taking_all(entries).contains(p) || waits(s.taking_all(entries), p),
    decreases entries.len(),
{
    if entries.len() > 0 {
        let first = entries.drop_last();
        lemma_waits_while_taking(s, first, p);
        lemma_one_more_taken(s, entries, p);
    } else {
        assert(s.taking_all(entries) == s);
    }
}

proof fn lemma_one_more_taken(s: ScheduleModel, entries: Seq<FofParams>, p: FofParams)
    requires
        s.wf(),
        s.in_place(),
        entries.len() > 0,
        s.fired_taking_all(entries.drop_last()).contains(p) || waits(
            s.taking_all(entries.drop_last()),
            p,
        ),
    ensures
        s.fired_taking_all(entries).contains(p) || waits(s.taking_all(entries), p),
{
    let first = entries.drop_last();
    let q = entries.last();
    let start = q.start_sample as int;
    let mid = s.taking_all(first);
    schedule::lemma_taking_all_keeps(s, first);
    schedule::lemma_reaching_keeps(mid, start);
    if s.fired_taking_all(first).contains(p) {
        lemma_held_by_either(s.fired_taking_all(first), mid.fired_taking(q), p);
    } else {
        lemma_waits_or_fires(mid, start, p);
        if start >= mid.admit_before() && mid.wheel.fired(start).contains(p) {
            lemma_held_by_either(s.fired_taking_all(first), mid.fired_taking(q), p);
        } else {
            lemma_waits_on(mid.reaching(start), q, p);
        }
    }
}

/// Taking grains takes the clock no further than the latest of their starts.
proof fn lemma_clock_not_past(s: ScheduleModel, entries: Seq<FofParams>, t: int)
    requires
        s.wf(),
        s.in_place(),
        s.wheel.wheel_time() <= t,
        forall|k: int|
            #![trigger entries[k]]
            0 <= k < entries.len() ==> entries[k].start_sample <= t,
    ensures
        s.taking_all(entries).wheel.wheel_time() <= t,
    decreases entries.len(),
{
    if entries.len() > 0 {
        let first = entries.drop_last();
        assert(entries.last() == entries[entries.len() - 1]);
        assert forall|k: int| #![trigger first[k]] 0 <= k < first.len() implies
            first[k].start_sample <= t by {
            assert(first[k] == entries[k]);
        }
        lemma_clock_not_past(s, first, t);
        schedule::lemma_taking_all_keeps(s, first);
        let start = entries.last().start_sample as int;
        let mid = s.taking_all(first);
        schedule::lemma_reaching_keeps(mid, start);
        schedule::lemma_admitted_keeps(mid.reaching(start), entries.last());
    }
}

/// A grain that is taken no later than its start, after grains that start no
/// later, is turned away only by a full slot, and otherwise fires or waits.
proof fn lemma_taken_in_time(s: ScheduleModel, entries: Seq<FofParams>, x: int)
    requires
        s.wf(),
        s.in_place(),
        0 <= x < entries.len(),
        s.wheel.wheel_time() <= entries[x].start_sample,
        forall|k: int|
            #![trigger entries[k]]
            0 <= k < x ==> entries[k].start_sample <= entries[x].start_sample,
        !slot_is_full(s, entries, x),
    ensures
        s.fired_taking_all(entries).contains(entries[x]) || waits(
            s.taking_all(entries),
            entries[x],
        ),
    decreases entries.len(),
{
    let first = entries.drop_last();
    let p = entries[x];
    let start = p.start_sample as int;
    if x == entries.len() - 1 {
        assert(first =~= entries.take(x));
        assert forall|k: int| #![trigger first[k]] 0 <= k < first.len() implies
            first[k].start_sample <= start by {
            assert(first[k] == entries[k]);
        }
        lemma_clock_not_past(s, first, start);
        schedule::lemma_taking_all_keeps(s, first);
        let mid = s.taking_all(first);
        schedule::lemma_reaching_keeps(mid, start);
        wheel::law_only_a_full_slot_turns_away(mid.reaching(start).wheel, start);
        assert(mid.reaching(start).wheel.reject(start) is None);
        lemma_waits_when_admitted(mid.reaching(start), p);
    } else {
        assert(first.take(x) =~= entries.take(x));
        assert(first[x] == p);
        assert forall|k: int| #![trigger first[k]] 0 <= k < x implies first[k].start_sample
            <= first[x].start_sample by {
            assert(first[k] == entries[k]);
        }
        lemma_taken_in_time(s, first, x);
        lemma_one_more_taken(s, entries, p);
    }
}

/// What waits in the current slot is due or waits on.
proof fn lemma_due_or_waits(s: ScheduleModel, now: int, p: FofParams)
    requires
        s.wf(),
        waits(s, p),
    ensures
        s.due(now).contains(p) || waits(s.without_due(now), p),
{
    let all = s.wheel.pending.flatten();
    let i = choose|i: int| 0 <= i < all.len() && all[i] == p;
    let (j, k) = schedule::lemma_flatten_comes_from(s.wheel.pending, i);
    let after = s.without_due(now).wheel.pending;
    if j == 0 {
        let events = s.wheel.pending[0];
        if p.start_sample < now {
            schedule::lemma_starting_before(events, now, k);
        } else {
            lemma_starting_from_holds(events, now, k);
            let kept = schedule::starting_from(events, now);
            let a = choose|a: int| 0 <= a < kept.len() && kept[a] == p;
            assert(after[0][a] == p);
            wheel::lemma_flatten_holds(after, 0, a);
        }
    } else {
        assert(after[j][k] == p);
        wheel::lemma_flatten_holds(after, j, k);
    }
}

/// Every grain that starts at `now` or later is among those that do.
proof fn lemma_starting_from_holds(events: Seq<FofParams>, now: int, i: int)
    requires
        0 <= i < events.len(),
        events[i].start_sample >= now,
    ensures
        schedule::starting_from(events, now).contains(events[i]),
    decreases events.len(),
{
    let rest = events.drop_last();
    let out = schedule::starting_from(events, now);
    if i == events.len() - 1 {
        assert(out[out.len() - 1] == events[i]);
    } else {
        lemma_starting_from_holds(rest, now, i);
        let k = choose|k: int|
            0 <= k < schedule::starting_from(rest, now).len() && schedule::starting_from(rest, now)[k] == rest[i];
        assert(out[k] == events[i]);
    }
}

/// What starts before `now` is among the grains, and does.
proof fn lemma_starting_before_only(events: Seq<FofParams>, now: int)
    ensures
        forall|k: int|
            #![trigger schedule::starting_before(events, now)[k]]
            0 <= k < schedule::starting_before(events, now).len() ==> events.contains(
                schedule::starting_before(events, now)[k],
            ) && schedule::starting_before(events, now)[k].start_sample < now,
    decreases events.len(),
{
    if events.len() > 0 {
        let rest = events.drop_last();
        lemma_starting_before_only(rest, now);
        let some = schedule::starting_before(events, now);
        assert forall|k: int| #![trigger some[k]] 0 <= k < some.len() implies events.contains(
            some[k],
        ) && some[k].start_sample < now by {
            if k < schedule::starting_before(rest, now).len() {
                assert(some[k] == schedule::starting_before(rest, now)[k]);
                let i = choose|i: int| 0 <= i < rest.len() && rest[i] == some[k];
                assert(events[i] == some[k]);
            } else {
                assert(events[events.len() - 1] == some[k]);
            }
        }
    }
}

/// After a drain up to `block_end` that takes what is due, every waiting grain
/// starts at `block_end` or later.
pub proof fn law_no_due_grain_waits(
    before: TimeWheelConsumer,
    after: TimeWheelConsumer,
    entries: Seq<FofParams>,
    block_end: int,
    p: FofParams,
)
    requires
        before.wf(),
        block_end >= 0,
        queue::drained_due(before, after, entries, block_end),
        waits(after@, p),
    ensures
        p.start_sample >= block_end,
{
    let s = before@.through(entries, block_end);
    schedule::lemma_taking_all_keeps(before@, entries);
    schedule::lemma_advanced_keeps(before@.taking_all(entries), block_end);
    schedule::lemma_without_due_keeps(s, block_end);
    let all = after@.wheel.pending.flatten();
    let i = choose|i: int| 0 <= i < all.len() && all[i] == p;
    let (j, k) = schedule::lemma_flatten_comes_from(after@.wheel.pending, i);
    if j == 0 {
        schedule::lemma_starting_from(s.wheel.pending[0], block_end);
        assert(schedule::starting_from(s.wheel.pending[0], block_end)[k] == p);
    } else {
        let d = s.wheel.slot_duration as int;
        let start = p.start_sample as int;
        let q = block_end / d;
        assert(after@.wheel.pending[j][k] == p);
        assert(start / d == s.wheel.slot_index + j);
        assert(s.wheel.slot_index >= q);
        vstd::arithmetic::div_mod::lemma_fundamental_div_mod(start, d);
        vstd::arithmetic::div_mod::lemma_fundamental_div_mod(block_end, d);
        assert(start >= block_end) by (nonlinear_arith)
            requires
                start == d * (start / d) + start % d,
                start % d >= 0,
                block_end == d * q + block_end % d,
                block_end % d < d,
                start / d >= q + 1,
                d > 0,
        ;
    }
}

/// A grain that waits before a block comes out of the schedule in it if it
/// starts before the block's end, and waits on if it does not.
pub proof fn law_waiting_grain_comes_out_in_its_block(
    before: TimeWheelConsumer,
    after: TimeWheelConsumer,
    entries: Seq<FofParams>,
    block_end: int,
    p: FofParams,
)
    requires
        before.wf(),
        block_end >= 0,
        queue::drained_due(before, after, entries, block_end),
        waits(before@, p),
    ensures
        p.start_sample < block_end ==> (before@.fired_through(entries, block_end)
            + before@.through(entries, block_end).due(block_end)).contains(p),
        p.start_sample >= block_end ==> waits(after@, p),
{
    lemma_waits_while_taking(before@, entries, p);
    lemma_comes_out_or_waits(before, after, entries, block_end, p);
}

/// A grain that is taken out of the ring no later than its start, after grains
/// that start no later, is turned away only by a full slot. Otherwise it comes
/// out of the schedule in the same block if it starts before the block's end,
/// and waits if it does not.
pub proof fn law_taken_grain_comes_out_in_its_block(
    before: TimeWheelConsumer,
    after: TimeWheelConsumer,
    entries: Seq<FofParams>,
    block_end: int,
    x: int,
)
    requires
        before.wf(),
        block_end >= 0,
        queue::drained_due(before, after, entries, block_end),
        0 <= x < entries.len(),
        before@.wheel.wheel_time() <= entries[x].start_sample,
        forall|k: int|
            #![trigger entries[k]]
            0 <= k < x ==> entries[k].start_sample <= entries[x].start_sample,
        !slot_is_full(before@, entries, x),
    ensures
        entries[x].start_sample < block_end ==> (before@.fired_through(entries, block_end)
            + before@.through(entries, block_end).due(block_end)).contains(entries[x]),
        entries[x].start_sample >= block_end ==> waits(after@, entries[x]),
{
    lemma_taken_in_time(before@, entries, x);
    lemma_comes_out_or_waits(before, after, entries, block_end, entries[x]);
}

proof fn lemma_comes_out_or_waits(
    before: TimeWheelConsumer,
    after: TimeWheelConsumer,
    entries: Seq<FofParams>,
    block_end: int,
    p: FofParams,
)
    requires
        before.wf(),
        block_end >= 0,
        queue::drained_due(before, after, entries, block_end),
        before@.fired_taking_all(entries).contains(p) || waits(before@.taking_all(entries), p),
    ensures
        p.start_sample < block_end ==> (before@.fired_through(entries, block_end)
            + before@.through(entries, block_end).due(block_end)).contains(p),
        p.start_sample >= block_end ==> waits(after@, p),
{
    let mid = before@.taking_all(entries);
    let s = before@.through(entries, block_end);
    let fired = before@.fired_through(entries, block_end);
    let due = s.due(block_end);
    schedule::lemma_taking_all_keeps(before@, entries);
    schedule::lemma_advanced_keeps(mid, block_end);
    if waits(mid, p) {
        lemma_waits_or_fires(mid, block_end, p);
    }
    if waits(s, p) {
        lemma_due_or_waits(s, block_end, p);
    }
    if before@.fired_taking_all(entries).contains(p) || mid.wheel.fired(block_end).contains(p) {
        lemma_held_by_either(
            before@.fired_taking_all(entries),
            mid.wheel.fired(block_end),
            p,
        );
        assert(fired.contains(p));
    }
    if fired.contains(p) || due.contains(p) {
        lemma_held_by_either(fired, due, p);
        let out = fired + due;
        let i = choose|i: int| 0 <= i < out.len() && out[i] == p;
        lemma_came_out_before_the_end(before, after, entries, block_end, i);
    } else {
        assert(waits(after@, p));
        law_no_due_grain_waits(before, after, entries, block_end, p);
    }
}

/// What a drain leaves in the ring is deferred, not lost. Of grains submitted in
/// order of their start and in time, one that a drain takes is turned away only
/// by a full slot, and otherwise collected or waiting in the wheel. One that it
/// has seen and leaves is still in time, and if its turn is next and the block
/// reaches it, it is inside the window of the next drain.
pub proof fn law_deferred_grains_are_not_lost(
    before: TimeWheelConsumer,
    after: TimeWheelConsumer,
    entries: Seq<FofParams>,
    block_end: int,
    k: int,
)
    requires
        before.wf(),
        block_end >= 0,
        queue::drained(before, after, entries, block_end),
        before.taken() <= k < after.seen(),
        in_start_order(before.log().subrange(before.taken() as int, k + 1)),
        before@.wheel.wheel_time() <= before.log()[before.taken() as int].start_sample,
    ensures
        ({
            let p = before.log()[k];
            if k < after.taken() {
                ||| slot_is_full(before@, entries, k - before.taken())
                ||| before@.fired_through(
                    entries,
                    schedule::reached(queue::deferred_start(after), block_end),
                ).contains(p)
                ||| waits(after@, p)
            } else {
                let next = after.log()[after.taken() as int].start_sample;
                &&& after@.wheel.wheel_time() <= next <= p.start_sample
                &&& next <= block_end ==> next < after@.admit_before()
            }
        }),
{
    let log = before.log();
    let from = before.taken() as int;
    let at = after.taken() as int;
    let p = log[k];
    let line = log.subrange(from, k + 1);
    let now = schedule::reached(queue::deferred_start(after), block_end);
    let s = before@.taking_all(entries);
    let d = before@.wheel.slot_duration as int;
    schedule::lemma_taking_all_keeps(before@, entries);
    schedule::lemma_window_stays(before@, entries);
    assert(line[0] == log[from]);
    if k < at {
        let x = k - from;
        assert(entries[x] == p && line[x] == p);
        assert forall|e: int| #![trigger entries[e]] 0 <= e < x implies entries[e].start_sample
            <= entries[x].start_sample by {
            assert(entries[e] == line[e]);
        }
        assert(line[0].start_sample <= line[x].start_sample);
        if !slot_is_full(before@, entries, x) {
            lemma_taken_in_time(before@, entries, x);
            if waits(s, p) {
                lemma_waits_or_fires(s, now, p);
            }
            if !waits(after@, p) {
                lemma_held_by_either(
                    before@.fired_taking_all(entries),
                    s.wheel.fired(now),
                    p,
                );
            }
        }
    } else {
        let next = log[at].start_sample as int;
        assert(line[at - from] == log[at] && line[k - from] == p);
        assert(line[0].start_sample <= line[at - from].start_sample);
        assert(line[at - from].start_sample <= line[k - from].start_sample);
        let q = now / d;
        let i = s.wheel.slot_index as int;
        vstd::arithmetic::div_mod::lemma_fundamental_div_mod(now, d);
        vstd::arithmetic::div_mod::lemma_fundamental_div_mod(next, d);
        assert(q * d <= now) by (nonlinear_arith)
            requires
                now == d * q + now % d,
                now % d >= 0,
        ;
        assert(s.wheel.wheel_time() <= next);
        assert(after@.wheel.wheel_time() <= next);
        if next <= block_end {
            vstd::arithmetic::div_mod::lemma_div_is_ordered(next, now, d);
            let j = after@.wheel.slot_index as int;
            let n = after@.wheel.pending.len() as int;
            assert(next < j * d + n * d) by (nonlinear_arith)
                requires
                    next == d * (next / d) + next % d,
                    next % d < d,
                    next / d <= j,
                    n >= 1,
                    d > 0,
            ;
        }
    }
}

/// What comes out of the schedule in a block starts before the block's end.
pub proof fn lemma_came_out_before_the_end(
    before: TimeWheelConsumer,
    after: TimeWheelConsumer,
    entries: Seq<FofParams>,
    block_end: int,
    i: int,
)
    requires
        before.wf(),
        block_end >= 0,
        queue::drained_due(before, after, entries, block_end),
        0 <= i < (before@.fired_through(entries, block_end) + before@.through(
            entries,
            block_end,
        ).due(block_end)).len(),
    ensures
        (before@.fired_through(entries, block_end) + before@.through(entries, block_end).due(
            block_end,
        ))[i].start_sample < block_end,
{
    let fired = before@.fired_through(entries, block_end);
    let s = before@.through(entries, block_end);
    if i < fired.len() {
        lemma_collected_is_over(before@, entries, block_end, i);
        let d = before@.wheel.slot_duration as int;
        let start = fired[i].start_sample as int;
        vstd::arithmetic::div_mod::lemma_fundamental_div_mod(start, d);
        assert((start / d + 1) * d == d * (start / d) + d) by (nonlinear_arith);
    } else {
        lemma_starting_before_only(s.wheel.pending[0], block_end);
        assert(s.due(block_end)[i - fired.len()].start_sample < block_end);
    }
}

/// A drain takes out of the ring, in order, every grain that it has seen and
/// that is inside the window as it was before; it stops only at one that is not.
pub proof fn law_drain_takes_all_that_is_ready(
    before: TimeWheelConsumer,
    after: TimeWheelConsumer,
    entries: Seq<FofParams>,
    block_end: int,
    k: int,
)
    requires
        queue::drained(before, after, entries, block_end),
        before.taken() <= k < after.seen(),
        forall|i: int|
            #![trigger before.log()[i]]
            before.taken() <= i <= k ==> before.log()[i].start_sample < (
            before@.wheel.slot_index + before@.wheel.pending.len())
                * before@.wheel.slot_duration,
    ensures
        k < after.taken(),
        entries[k - before.taken()] == before.log()[k],
        before.seen() <= after.seen(),
{
    let w = before@.wheel;
    assert((w.slot_index + w.pending.len()) * w.slot_duration == w.slot_index * w.slot_duration
        + w.pending.len() * w.slot_duration) by (nonlinear_arith);
    if after.taken() <= k {
        assert(before.log()[after.taken() as int].start_sample < before@.admit_before());
    }
}

/// A drain for a block takes out of the ring, in order, every grain that it has
/// seen and that starts before the end of the block, with all that come before
/// it in the ring and do so too.
pub proof fn law_due_drain_takes_all_that_is_due(
    before: TimeWheelConsumer,
    after: TimeWheelConsumer,
    entries: Seq<FofParams>,
    block_end: int,
    k: int,
)
    requires
        queue::drained_due(before, after, entries, block_end),
        before.taken() <= k < after.seen(),
        forall|i: int|
            #![trigger before.log()[i]]
            before.taken() <= i <= k ==> before.log()[i].start_sample < block_end,
    ensures
        k < after.taken(),
        entries[k - before.taken()] == before.log()[k],
        before.seen() <= after.seen(),
{
    if after.taken() <= k {
        assert(before.log()[after.taken() as int].start_sample < block_end);
    }
}

/// After a drain for a block the clock stands in the slot that the block ends
/// in, unless it was past that before; the wheel is as large as it was.
pub proof fn law_due_drain_moves_the_clock_to_the_end(
    before: TimeWheelConsumer,
    after: TimeWheelConsumer,
    entries: Seq<FofParams>,
    block_end: int,
)
    requires
        before.wf(),
        block_end >= 0,
        queue::drained_due(before, after, entries, block_end),
    ensures
        ({
            let d = before@.wheel.slot_duration as int;
            let start = after@.wheel.slot_index * d;
            &&& block_end >= before@.wheel.slot_index * d ==> start <= block_end < start + d
            &&& block_end < before@.wheel.slot_index * d ==> after@.wheel.slot_index
                == before@.wheel.slot_index
            &&& after@.wheel.slot_duration == before@.wheel.slot_duration
            &&& after@.wheel.slot_capacity == before@.wheel.slot_capacity
            &&& after@.wheel.pending.len() == before@.wheel.pending.len()
        }),
{
    schedule::lemma_taking_all_keeps(before@, entries);
    schedule::lemma_taking_all_stops(before@, entries, block_end);
    wheel::law_clock_moves_to_the_slot_of_now(before@.wheel, block_end);
}

/// After a drain the clock stands in the slot that the block ends in, or in that
/// of the grain that it left for later, whichever comes first, unless it was past
/// that before; the wheel is as large as it was.
pub proof fn law_drain_moves_the_clock_to_the_end(
    before: TimeWheelConsumer,
    after: TimeWheelConsumer,
    entries: Seq<FofParams>,
    block_end: int,
)
    requires
        before.wf(),
        block_end >= 0,
        queue::drained(before, after, entries, block_end),
    ensures
        ({
            let d = before@.wheel.slot_duration as int;
            let start = after@.wheel.slot_index * d;
            let next = before.log()[after.taken() as int].start_sample as int;
            let now = if after.taken() < after.seen() && next < block_end {
                next
            } else {
                block_end
            };
            &&& now >= before@.wheel.slot_index * d ==> start <= now < start + d
            &&& now < before@.wheel.slot_index * d ==> after@.wheel.slot_index
                == before@.wheel.slot_index
            &&& after@.wheel.slot_duration == before@.wheel.slot_duration
            &&& after@.wheel.slot_capacity == before@.wheel.slot_capacity
            &&& after@.wheel.pending.len() == before@.wheel.pending.len()
        }),
{
    let s = before@.taking_all(entries);
    schedule::lemma_taking_all_keeps(before@, entries);
    schedule::lemma_window_stays(before@, entries);
    let now = schedule::reached(queue::deferred_start(after), block_end);
    wheel::law_clock_moves_to_the_slot_of_now(s.wheel, now);
}

/// What a drain for a block hands out, and what waits after it, has been waiting
/// before it or was taken out of the ring in it.
pub proof fn law_drain_invents_no_grain(
    before: TimeWheelConsumer,
    after: TimeWheelConsumer,
    entries: Seq<FofParams>,
    block_end: int,
    p: FofParams,
)
    requires
        before.wf(),
        block_end >= 0,
        queue::drained_due(before, after, entries, block_end),
        waits(after@, p) || (before@.fired_through(entries, block_end) + before@.through(
            entries,
            block_end,
        ).due(block_end)).contains(p),
    ensures
        waits(before@, p) || entries.contains(p),
{
    let mid = before@.taking_all(entries);
    let s = before@.through(entries, block_end);
    schedule::lemma_taking_all_keeps(before@, entries);
    schedule::lemma_advanced_keeps(mid, block_end);
    schedule::lemma_without_due_keeps(s, block_end);
    if waits(after@, p) {
        lemma_kept_was_there(s, block_end, p);
        lemma_advanced_was_there(mid, block_end, p);
    } else {
        let fired = before@.fired_through(entries, block_end);
        let due = s.due(block_end);
        let i = choose|i: int| 0 <= i < (fired + due).len() && (fired + due)[i] == p;
        if i < fired.len() {
            let early = before@.fired_taking_all(entries);
            if i < early.len() {
                assert(early[i] == p);
            } else {
                assert(mid.wheel.fired(block_end)[i - early.len()] == p);
                lemma_fired_was_there(mid, block_end, p);
            }
        } else {
            schedule::law_slot_is_parted_by_start(s.wheel.pending[0], block_end);
            let j = i - fired.len();
            assert(due[j] == p);
            lemma_filtered_was_there(s.wheel.pending[0], block_end, p);
            let k = choose|k: int|
                0 <= k < s.wheel.pending[0].len() && s.wheel.pending[0][k] == p;
            wheel::lemma_flatten_holds(s.wheel.pending, 0, k);
            lemma_advanced_was_there(mid, block_end, p);
        }
    }
    lemma_taken_was_there(before@, entries, p);
}

proof fn lemma_filtered_was_there(events: Seq<FofParams>, now: int, p: FofParams)
    requires
        schedule::starting_before(events, now).contains(p) || schedule::starting_from(
            events,
            now,
        ).contains(p),
    ensures
        events.contains(p),
    decreases events.len(),
{
    if events.len() > 0 {
        let rest = events.drop_last();
        if events.last() == p {
            assert(events[events.len() - 1] == p);
        } else {
            let a = schedule::starting_before(events, now);
            let b = schedule::starting_from(events, now);
            if a.contains(p) {
                let i = choose|i: int| 0 <= i < a.len() && a[i] == p;
                assert(schedule::starting_before(rest, now)[i] == p);
            } else {
                let i = choose|i: int| 0 <= i < b.len() && b[i] == p;
                assert(schedule::starting_from(rest, now)[i] == p);
            }
            lemma_filtered_was_there(rest, now, p);
            let i = choose|i: int| 0 <= i < rest.len() && rest[i] == p;
            assert(events[i] == p);
        }
    }
}

proof fn lemma_kept_was_there(s: ScheduleModel, now: int, p: FofParams)
    requires
        s.wf(),
        waits(s.without_due(now), p),
    ensures
        waits(s, p),
{
    let parts = s.without_due(now).wheel.pending;
    let i = choose|i: int| 0 <= i < parts.flatten().len() && parts.flatten()[i] == p;
    let (j, k) = schedule::lemma_flatten_comes_from(parts, i);
    if j == 0 {
        assert(schedule::starting_from(s.wheel.pending[0], now)[k] == p);
        lemma_filtered_was_there(s.wheel.pending[0], now, p);
        let m = choose|m: int| 0 <= m < s.wheel.pending[0].len() && s.wheel.pending[0][m] == p;
        wheel::lemma_flatten_holds(s.wheel.pending, 0, m);
    } else {
        assert(s.wheel.pending[j][k] == p);
        wheel::lemma_flatten_holds(s.wheel.pending, j, k);
    }
}

proof fn lemma_advanced_was_there(s: ScheduleModel, now: int, p: FofParams)
    requires
        s.wf(),
        waits(s.advanced(now), p),
    ensures
        waits(s, p),
{
    wheel::law_nothing_is_lost(s.wheel, now);
    let later = s.advanced(now).wheel.pending.flatten();
    let i = choose|i: int| 0 <= i < later.len() && later[i] == p;
    assert(s.wheel.pending.flatten()[s.wheel.fired(now).len() + i] == p);
}

proof fn lemma_fired_was_there(s: ScheduleModel, now: int, p: FofParams)
    requires
        s.wf(),
        s.wheel.fired(now).contains(p),
    ensures
        waits(s, p),
{
    wheel::law_nothing_is_lost(s.wheel, now);
    let fired = s.wheel.fired(now);
    let i = choose|i: int| 0 <= i < fired.len() && fired[i] == p;
    assert(s.wheel.pending.flatten()[i] == p);
}

proof fn lemma_taken_was_there(s: ScheduleModel, entries: Seq<FofParams>, p: FofParams)
    requires
        s.wf(),
        s.in_place(),
    ensures
        s.fired_taking_all(entries).contains(p) || waits(s.taking_all(entries), p) ==> waits(s, p)
            || entries.contains(p),
    decreases entries.len(),
{
    if entries.len() > 0 && (s.fired_taking_all(entries).contains(p) || waits(
        s.taking_all(entries),
        p,
    )) {
        let first = entries.drop_last();
        let q = entries.last();
        let start = q.start_sample as int;
        let mid = s.taking_all(first);
        lemma_taken_was_there(s, first, p);
        schedule::lemma_taking_all_keeps(s, first);
        schedule::lemma_reaching_keeps(mid, start);
        let reached = mid.reaching(start);
        if q == p {
            assert(entries[entries.len() - 1] == p);
        } else {
            if waits(s.taking_all(entries), p) {
                if reached.wheel.reject(start) is None {
                    wheel::law_event_goes_to_the_slot_of_its_deadline(reached.wheel, q, start);
                    let parts = reached.admitted(q).wheel.pending;
                    let i = choose|i: int|
                        0 <= i < parts.flatten().len() && parts.flatten()[i] == p;
                    let (j, k) = schedule::lemma_flatten_comes_from(parts, i);
                    assert(parts == reached.wheel.scheduled(q, start).pending);
                    assert(parts[j] == reached.wheel.scheduled(q, start).pending[j]);
                    assert(reached.wheel.pending[j][k] == p);
                    wheel::lemma_flatten_holds(reached.wheel.pending, j, k);
                }
                assert(waits(reached, p));
                if start >= mid.admit_before() {
                    lemma_advanced_was_there(mid, start, p);
                }
            } else {
                let early = s.fired_taking_all(first);
                let all = s.fired_taking_all(entries);
                let i = choose|i: int| 0 <= i < all.len() && all[i] == p;
                if i < early.len() {
                    assert(early[i] == p);
                } else {
                    assert(mid.fired_taking(q)[i - early.len()] == p);
                    lemma_fired_was_there(mid, start, p);
                }
            }
            if first.contains(p) {
                let i = choose|i: int| 0 <= i < first.len() && first[i] == p;
                assert(entries[i] == p);
            }
        }
    }
}

/// A drain for a block ends in one of two ways: it looked for further grains and
/// found none, or it has seen one that starts at the end of the block or later
/// and is beyond the window too.
pub proof fn law_due_drain_ends_with_the_ring_or_the_block(
    before: TimeWheelConsumer,
    after: TimeWheelConsumer,
    entries: Seq<FofParams>,
    block_end: int,
)
    requires
        before.wf(),
        queue::drained_due(before, after, entries, block_end),
    ensures
        after.log() == before.log(),
        entries == before.log().subrange(before.taken() as int, after.taken() as int),
        if after.taken() == after.seen() {
            after.looks() > before.looks()
        } else {
            after.taken() < after.seen() && ({
                let next = before.log()[after.taken() as int].start_sample;
                next >= block_end && next >= (before@.wheel.slot_index
                    + before@.wheel.pending.len()) * before@.wheel.slot_duration
            })
        },
{
    let w = before@.wheel;
    assert((w.slot_index + w.pending.len()) * w.slot_duration == w.slot_index * w.slot_duration
        + w.pending.len() * w.slot_duration) by (nonlinear_arith);
    schedule::lemma_taking_all_keeps(before@, entries);
}

/// A drain ends in one of two ways: it looked for further grains and found none,
/// or it has seen one that is beyond the window.
pub proof fn law_drain_ends_with_the_ring_or_the_window(
    before: TimeWheelConsumer,
    after: TimeWheelConsumer,
    entries: Seq<FofParams>,
    block_end: int,
)
    requires
        before.wf(),
        queue::drained(before, after, entries, block_end),
    ensures
        after.log() == before.log(),
        entries == before.log().subrange(before.taken() as int, after.taken() as int),
        if after.taken() == after.seen() {
            after.looks() > before.looks()
        } else {
            after.taken() < after.seen() && before.log()[after.taken() as int].start_sample >= (
            before@.wheel.slot_index + before@.wheel.pending.len()) * before@.wheel.slot_duration
        },
{
    let w = before@.wheel;
    assert((w.slot_index + w.pending.len()) * w.slot_duration == w.slot_index * w.slot_duration
        + w.pending.len() * w.slot_duration) by (nonlinear_arith);
}

} // verus!
