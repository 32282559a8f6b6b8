//! What becomes of a grain that is submitted to the offline renderer.
use crate::engine::{GrainBlock, RfofsEngine};
use crate::fof::{FofParams, FofState, FofTiming};
use crate::offline;
use vstd::prelude::*;

verus! {

/// The grain at `i` of the log is taken in block `b`, and its slot is full.
pub open spec fn turned_away_in(states: Seq<RfofsEngine>, b: int, i: int) -> bool {
    let before = states[b].wheels()[0];
    let after = states[b + 1].wheels()[0];
    &&& 0 <= b < states.len() - 1
    &&& before.taken() <= i < after.taken()
    &&& crate::delivery::slot_is_full(
        before@,
        crate::engine::newly_taken(before, after),
        i - before.taken(),
    )
}

/// The kill requests that came in block `b`.
pub open spec fn kills_in(states: Seq<RfofsEngine>, b: int) -> Seq<crate::fof::FofKillRequest> {
    crate::engine::newly_killed(states[b].kill_rx(), states[b + 1].kill_rx())
}

/// A grain plays from block `k` on, in which it starts, under one key and one
/// part in each block, until it is dead at the end of the last part. Where no
/// kill comes for it, its first part begins with its first sample, on the
/// sample that it is to start on, and each further part goes on from the one
/// before.
pub open spec fn played_out<F: Fn(FofParams) -> FofTiming>(
    states: Seq<RfofsEngine>,
    plans: Seq<Vec<GrainBlock>>,
    block_size: int,
    timing_of: F,
    p: FofParams,
    k: int,
    parts: Seq<GrainBlock>,
) -> bool {
    &&& 0 <= k < k + parts.len() <= plans.len()
    &&& states[k]@.clock <= p.start_sample < states[k]@.clock + block_size
    &&& goes_on(states, plans, block_size, p, k, parts)
    &&& crate::engine::spared(kills_in(states, k), p.id) ==> exists|timing: FofTiming|
        call_ensures(timing_of, (p,), timing) && #[trigger] crate::engine::grain_plays(
            FofState::spawned(p, timing),
            parts[0],
            states[k]@.clock,
            block_size,
        )
}

/// A grain plays these parts, from block `k` on.
pub open spec fn goes_on(
    states: Seq<RfofsEngine>,
    plans: Seq<Vec<GrainBlock>>,
    block_size: int,
    p: FofParams,
    k: int,
    parts: Seq<GrainBlock>,
) -> bool {
    &&& forall|b: int|
        #![trigger parts[b]]
        0 <= b < parts.len() ==> plans[k + b]@.contains(parts[b]) && parts[b].key == parts[0].key
            && parts[b].grain.params == p && (parts[b].grain.phase is Dead <==> b == parts.len()
            - 1)
    &&& forall|a: int, b: int|
        #![trigger parts[a], parts[b]]
        0 <= a < b < parts.len() && b == a + 1 && crate::engine::spared(
            kills_in(states, k + b),
            p.id,
        ) ==> crate::engine::grain_plays(
            parts[a].grain,
            parts[b],
            states[k + b]@.clock,
            block_size,
        )
}

/// A grain that has been submitted is played: over a rendering that takes it
/// and ends with no grain active and none waiting, it is either turned away by
/// a full slot or played from its start until it is dead.
pub proof fn law_submitted_grain_is_played<F: Fn(FofParams) -> FofTiming, G: Fn(u32) -> u32>(
    states: Seq<RfofsEngine>,
    plans: Seq<Vec<GrainBlock>>,
    block_size: int,
    timing_of: F,
    fade_len_of: G,
    i: int,
)
    requires
        offline::rendered(states, plans, block_size, timing_of, fade_len_of),
        block_size > 0,
        offline::in_step(states[0]),
        offline::in_line(states[0], i),
        states.last().wheels()[0].taken() > i,
        offline::is_silent(states.last()),
    ensures
        (exists|b: int| turned_away_in(states, b, i)) || exists|k: int, parts: Seq<GrainBlock>|
            played_out(
                states,
                plans,
                block_size,
                timing_of,
                states[0].wheels()[0].log()[i],
                k,
                parts,
            ),
{
    let p = states[0].wheels()[0].log()[i];
    let n = plans.len() as int;
    assert(states.last() == states[n]);
    let a = lemma_is_taken(states, plans, block_size, timing_of, fade_len_of, i, 0);
    if !turned_away_in(states, a, i) {
        let before = states[a].wheels()[0];
        let after = states[a + 1].wheels()[0];
        let entries = crate::engine::newly_taken(before, after);
        let x = i - before.taken();
        offline::lemma_steps(states, plans, block_size, timing_of, fade_len_of, a);
        assert(states[a].wf());
        let wheel = offline::lemma_block_drains(
            states[a],
            states[a + 1],
            plans[a]@,
            block_size,
            timing_of,
            fade_len_of,
        );
        offline::lemma_clock_grows(states, plans, block_size, timing_of, fade_len_of, a, a);
        let line = before.log().subrange(before.taken() as int, i + 1);
        assert(entries[x] == p);
        assert(line[x] == p && line[0] == before.log()[before.taken() as int]);
        assert(line[0].start_sample <= line[x].start_sample);
        assert forall|e: int| #![trigger entries[e]] 0 <= e < x implies entries[e].start_sample
            <= entries[x].start_sample by {
            assert(entries[e] == line[e]);
            assert(line[e].start_sample <= line[x].start_sample);
        }
        crate::delivery::law_taken_grain_comes_out_in_its_block(
            wheel,
            after,
            entries,
            states[a + 1]@.clock as int,
            x,
        );
        let k = if p.start_sample < states[a + 1]@.clock {
            a
        } else {
            lemma_comes_out(states, plans, block_size, timing_of, fade_len_of, p, a + 1)
        };
        assert(comes_out_in(states, k, p));
        let parts = lemma_plays_out(states, plans, block_size, timing_of, fade_len_of, p, k);
        assert(played_out(states, plans, block_size, timing_of, p, k, parts));
    } else {
        assert(turned_away_in(states, a, i));
    }
}

/// A grain that has been submitted is played by the time that a rendering is
/// closed: `first` is rendered from its submission on, and `second` closes, not
/// stopped by the limit on its tail.
pub proof fn law_submitted_grain_is_played_by_the_close<
    F: Fn(FofParams) -> FofTiming,
    G: Fn(u32) -> u32,
>(
    first: Seq<RfofsEngine>,
    first_plans: Seq<Vec<GrainBlock>>,
    second: Seq<RfofsEngine>,
    second_plans: Seq<Vec<GrainBlock>>,
    reach: int,
    last: u64,
    block_size: int,
    max_extra: int,
    timing_of: F,
    fade_len_of: G,
    i: int,
)
    requires
        offline::rendered(first, first_plans, block_size, timing_of, fade_len_of),
        offline::rendered(second, second_plans, block_size, timing_of, fade_len_of),
        crate::engine::looked(first.last(), second[0]),
        block_size > 0,
        offline::in_step(first[0]),
        offline::in_line(first[0], i),
        offline::closing(second, reach, last, block_size, max_extra),
        second_plans.len() - (reach + 1) < max_extra,
        second.last().wheels()[0].taken() > i,
    ensures
        ({
            let states = first + second.skip(1);
            let plans = first_plans + second_plans;
            ||| exists|b: int| turned_away_in(states, b, i)
            ||| exists|k: int, parts: Seq<GrainBlock>|
                played_out(
                    states,
                    plans,
                    block_size,
                    timing_of,
                    first[0].wheels()[0].log()[i],
                    k,
                    parts,
                )
        }),
{
    offline::law_renderings_join(
        first,
        first_plans,
        second,
        second_plans,
        block_size,
        timing_of,
        fade_len_of,
    );
    let states = first + second.skip(1);
    let plans = first_plans + second_plans;
    assert(second.last() == second[second.len() - 1]);
    law_submitted_grain_is_played(states, plans, block_size, timing_of, fade_len_of, i);
}

/// A grain that never dies keeps a rendering going to the limit on its tail: one
/// that is not turned away, is not killed and has no natural end, over a
/// rendering that stays within the range of a grain's sample counter.
pub proof fn law_endless_grain_is_rendered_to_the_limit<
    F: Fn(FofParams) -> FofTiming,
    G: Fn(u32) -> u32,
>(
    first: Seq<RfofsEngine>,
    first_plans: Seq<Vec<GrainBlock>>,
    second: Seq<RfofsEngine>,
    second_plans: Seq<Vec<GrainBlock>>,
    reach: int,
    last: u64,
    block_size: int,
    max_extra: int,
    timing_of: F,
    fade_len_of: G,
    i: int,
)
    requires
        offline::rendered(first, first_plans, block_size, timing_of, fade_len_of),
        offline::rendered(second, second_plans, block_size, timing_of, fade_len_of),
        crate::engine::looked(first.last(), second[0]),
        block_size > 0,
        offline::in_step(first[0]),
        offline::in_line(first[0], i),
        offline::closing(second, reach, last, block_size, max_extra),
        second.last().wheels()[0].taken() > i,
        (first_plans.len() + second_plans.len()) * block_size <= u32::MAX,
        ({
            let p = first[0].wheels()[0].log()[i];
            let states = first + second.skip(1);
            &&& forall|b: int| !#[trigger] turned_away_in(states, b, i)
            &&& forall|b: int|
                #![trigger kills_in(states, b)]
                crate::engine::spared(kills_in(states, b), p.id)
            &&& forall|timing: FofTiming|
                call_ensures(timing_of, (p,), timing) ==> timing.decay_len is None
        }),
    ensures
        second_plans.len() == reach + 1 + max_extra,
{
    if second_plans.len() - (reach + 1) < max_extra {
        law_submitted_grain_is_played_by_the_close(
            first,
            first_plans,
            second,
            second_plans,
            reach,
            last,
            block_size,
            max_extra,
            timing_of,
            fade_len_of,
            i,
        );
        let states = first + second.skip(1);
        let plans = first_plans + second_plans;
        let p = first[0].wheels()[0].log()[i];
        let (k, parts) = choose|k: int, parts: Seq<GrainBlock>|
            played_out(states, plans, block_size, timing_of, p, k, parts);
        assert(crate::engine::spared(kills_in(states, k), p.id));
        let timing = choose|timing: FofTiming|
            call_ensures(timing_of, (p,), timing) && #[trigger] crate::engine::grain_plays(
                FofState::spawned(p, timing),
                parts[0],
                states[k]@.clock,
                block_size,
            );
        let n = parts.len() - 1;
        let done = lemma_unkilled_part(states, plans, block_size, p, k, parts, timing, n);
        assert((n + 1) * block_size <= plans.len() * block_size) by (nonlinear_arith)
            requires
                n + 1 <= plans.len(),
                block_size > 0,
        ;
        crate::fof::law_grain_lives_to_the_end_of_its_decay(p, timing, done);
        assert(parts[n].grain.phase is Dead);
    }
}

/// What a grain that is not killed has come to after its part `b`: it has played
/// on from its first sample.
proof fn lemma_unkilled_part(
    states: Seq<RfofsEngine>,
    plans: Seq<Vec<GrainBlock>>,
    block_size: int,
    p: FofParams,
    k: int,
    parts: Seq<GrainBlock>,
    timing: FofTiming,
    b: int,
) -> (done: nat)
    requires
        goes_on(states, plans, block_size, p, k, parts),
        block_size > 0,
        0 <= b < parts.len(),
        crate::engine::grain_plays(
            FofState::spawned(p, timing),
            parts[0],
            states[k]@.clock,
            block_size,
        ),
        forall|c: int|
            #![trigger kills_in(states, c)]
            crate::engine::spared(kills_in(states, c), p.id),
    ensures
        parts[b].grain == FofState::spawned(p, timing).after(done),
        done <= (b + 1) * block_size,
    decreases b,
{
    let grain = FofState::spawned(p, timing);
    let wanted = crate::fof::samples_wanted(p.start_sample, states[k + b]@.clock, block_size);
    assert((b + 1) * block_size == b * block_size + block_size) by (nonlinear_arith);
    if b == 0 {
        wanted
    } else {
        let before = lemma_unkilled_part(
            states,
            plans,
            block_size,
            p,
            k,
            parts,
            timing,
            b - 1,
        );
        assert(parts[b - 1].grain.params == p);
        assert(crate::engine::spared(kills_in(states, k + b), p.id));
        assert(crate::engine::grain_plays(
            parts[b - 1].grain,
            parts[b],
            states[k + b]@.clock,
            block_size,
        ));
        crate::fof::law_playing_is_continuous(grain, before, wanted);
        before + wanted
    }
}

/// The block in which a grain in line is taken.
proof fn lemma_is_taken<F: Fn(FofParams) -> FofTiming, G: Fn(u32) -> u32>(
    states: Seq<RfofsEngine>,
    plans: Seq<Vec<GrainBlock>>,
    block_size: int,
    timing_of: F,
    fade_len_of: G,
    i: int,
    b: int,
) -> (a: int)
    requires
        offline::rendered(states, plans, block_size, timing_of, fade_len_of),
        block_size >= 0,
        offline::in_step(states[0]),
        0 <= b <= plans.len(),
        offline::in_line(states[b], i),
        states[plans.len() as int].wheels()[0].taken() > i,
    ensures
        b <= a < plans.len(),
        offline::in_line(states[a], i),
        states[a + 1].wheels()[0].taken() > i,
    decreases plans.len() - b,
{
    assert(b < plans.len());
    if states[b + 1].wheels()[0].taken() > i {
        b
    } else {
        assert(states[b].wf());
        offline::lemma_steps(states, plans, block_size, timing_of, fade_len_of, b);
        let wheel = offline::lemma_block_drains(
            states[b],
            states[b + 1],
            plans[b]@,
            block_size,
            timing_of,
            fade_len_of,
        );
        let before = states[b].wheels()[0];
        let after = states[b + 1].wheels()[0];
        let line = before.log().subrange(before.taken() as int, i + 1);
        let rest = after.log().subrange(after.taken() as int, i + 1);
        let skipped = after.taken() - before.taken();
        assert forall|x: int, y: int|
            #![trigger rest[x], rest[y]]
            0 <= x <= y < rest.len() implies rest[x].start_sample <= rest[y].start_sample by {
            assert(rest[x] == line[x + skipped] && rest[y] == line[y + skipped]);
        }
        lemma_is_taken(states, plans, block_size, timing_of, fade_len_of, i, b + 1)
    }
}

/// The grain comes out of the schedule in block `k`, in which it starts.
spec fn comes_out_in(states: Seq<RfofsEngine>, k: int, p: FofParams) -> bool {
    &&& 0 <= k < states.len() - 1
    &&& states[k]@.clock <= p.start_sample < states[k + 1]@.clock
    &&& crate::engine::fired_by_one(
        states[k].wheels()[0],
        states[k + 1].wheels()[0],
        states[k + 1]@.clock as int,
    ).contains(p)
}

/// The block in which a waiting grain comes out.
proof fn lemma_comes_out<F: Fn(FofParams) -> FofTiming, G: Fn(u32) -> u32>(
    states: Seq<RfofsEngine>,
    plans: Seq<Vec<GrainBlock>>,
    block_size: int,
    timing_of: F,
    fade_len_of: G,
    p: FofParams,
    b: int,
) -> (k: int)
    requires
        offline::rendered(states, plans, block_size, timing_of, fade_len_of),
        block_size >= 0,
        offline::in_step(states[0]),
        0 <= b <= plans.len(),
        crate::delivery::waits(states[b].wheels()[0]@, p),
        p.start_sample >= states[b]@.clock,
        states[plans.len() as int].wheels()[0]@.wheel.pending.flatten().len() == 0,
    ensures
        comes_out_in(states, k, p),
    decreases plans.len() - b,
{
    assert(b < plans.len());
    assert(states[b].wf());
    offline::lemma_steps(states, plans, block_size, timing_of, fade_len_of, b);
    let wheel = offline::lemma_block_drains(
        states[b],
        states[b + 1],
        plans[b]@,
        block_size,
        timing_of,
        fade_len_of,
    );
    crate::delivery::law_waiting_grain_comes_out_in_its_block(
        wheel,
        states[b + 1].wheels()[0],
        crate::engine::newly_taken(states[b].wheels()[0], states[b + 1].wheels()[0]),
        states[b + 1]@.clock as int,
        p,
    );
    if p.start_sample < states[b + 1]@.clock {
        b
    } else {
        lemma_comes_out(states, plans, block_size, timing_of, fade_len_of, p, b + 1)
    }
}

/// What a grain that comes out in block `k` plays, to its end.
proof fn lemma_plays_out<F: Fn(FofParams) -> FofTiming, G: Fn(u32) -> u32>(
    states: Seq<RfofsEngine>,
    plans: Seq<Vec<GrainBlock>>,
    block_size: int,
    timing_of: F,
    fade_len_of: G,
    p: FofParams,
    k: int,
) -> (parts: Seq<GrainBlock>)
    requires
        offline::rendered(states, plans, block_size, timing_of, fade_len_of),
        block_size >= 0,
        offline::in_step(states[0]),
        comes_out_in(states, k, p),
        states[plans.len() as int]@.grains.dom().len() == 0,
    ensures
        played_out(states, plans, block_size, timing_of, p, k, parts),
{
    let part = lemma_first_part(states, plans, block_size, timing_of, fade_len_of, p, k);
    offline::lemma_clock_grows(states, plans, block_size, timing_of, fade_len_of, k, k);
    lemma_goes_on(states, plans, block_size, timing_of, fade_len_of, p, k, part)
}

/// The part that a grain plays in the block in which it comes out.
proof fn lemma_first_part<F: Fn(FofParams) -> FofTiming, G: Fn(u32) -> u32>(
    states: Seq<RfofsEngine>,
    plans: Seq<Vec<GrainBlock>>,
    block_size: int,
    timing_of: F,
    fade_len_of: G,
    p: FofParams,
    k: int,
) -> (part: GrainBlock)
    requires
        offline::rendered(states, plans, block_size, timing_of, fade_len_of),
        block_size >= 0,
        offline::in_step(states[0]),
        comes_out_in(states, k, p),
    ensures
        plans[k]@.contains(part),
        part.grain.params == p,
        !(part.grain.phase is Dead) ==> states[k + 1]@.grains.contains_key(part.key) && states[k
            + 1]@.grains[part.key] == part.grain,
        crate::engine::spared(kills_in(states, k), p.id) ==> exists|timing: FofTiming|
            call_ensures(timing_of, (p,), timing) && #[trigger] crate::engine::grain_plays(
                FofState::spawned(p, timing),
                part,
                states[k]@.clock,
                block_size,
            ),
{
    assert(states[k].wf());
    offline::lemma_steps(states, plans, block_size, timing_of, fade_len_of, k);
    let before = states[k];
    let after = states[k + 1];
    let plan = plans[k]@;
    let seen = choose|seen: RfofsEngine|
        {
            &&& seen.wf()
            &&& crate::engine::looked(before, seen)
            &&& #[trigger] crate::engine::processed(
                seen,
                after,
                plan,
                block_size,
                timing_of,
                fade_len_of,
            )
        };
    let end = before@.clock + block_size;
    let incoming = crate::engine::fired_by(seen.wheels(), after.wheels(), end);
    let kills = kills_in(states, k);
    let (timings, keys, fade_lens) = choose|
        timings: Seq<FofTiming>,
        keys: Seq<usize>,
        fade_lens: Seq<u32>,
    |
        {
            &&& #[trigger] crate::engine::block_step(
                seen@,
                after@,
                incoming,
                timings,
                keys,
                kills,
                fade_lens,
                plan,
                block_size,
            )
            &&& forall|i: int|
                #![trigger timings[i]]
                0 <= i < incoming.len() ==> call_ensures(timing_of, (incoming[i],), timings[i])
            &&& forall|i: int|
                #![trigger fade_lens[i]]
                0 <= i < kills.len() ==> call_ensures(
                    fade_len_of,
                    (kills[i].fade_dur,),
                    fade_lens[i],
                )
        };
    let w = seen.wheels()[0];
    assert(crate::engine::wheel_looked(before.wheels()[0], w));
    let out = crate::engine::fired_by_one(w, after.wheels()[0], end);
    assert(incoming =~= out) by {
        assert(seen.wheels().last() == w);
        assert(after.wheels().len() == 1);
        assert(after.wheels().last() == after.wheels()[0]);
        assert(crate::engine::fired_by(
            seen.wheels().drop_last(),
            after.wheels().drop_last(),
            end,
        ) =~= Seq::empty());
    }
    assert(incoming.contains(p));
    let y = choose|y: int| 0 <= y < incoming.len() && incoming[y] == p;
    let key = keys[y];
    crate::engine::lemma_promoted(before@, incoming, timings, keys);
    let promoted = before@.with_grains(incoming, timings, keys);
    assert(promoted.grains[key] == FofState::spawned(p, timings[y]));
    crate::engine::law_active_grain_plays_its_part(
        before@,
        after@,
        incoming,
        timings,
        keys,
        kills,
        fade_lens,
        plan,
        block_size,
        key,
    );
    let j = choose|j: int|
        #![trigger plan[j]]
        0 <= j < plan.len() && plan[j].key == key && crate::engine::takes_part(
            promoted.grains[key],
            after@,
            kills,
            plan[j],
            before@.clock,
            block_size,
        );
    let part = plan[j];
    assert(plan.contains(part));
    if crate::engine::spared(kills, p.id) {
        assert(call_ensures(timing_of, (p,), timings[y]));
        assert(crate::engine::grain_plays(
            FofState::spawned(p, timings[y]),
            part,
            before@.clock,
            block_size,
        ));
    }
    part
}

/// What a grain plays from its part in block `b` on, to its end.
proof fn lemma_goes_on<F: Fn(FofParams) -> FofTiming, G: Fn(u32) -> u32>(
    states: Seq<RfofsEngine>,
    plans: Seq<Vec<GrainBlock>>,
    block_size: int,
    timing_of: F,
    fade_len_of: G,
    p: FofParams,
    b: int,
    part: GrainBlock,
) -> (parts: Seq<GrainBlock>)
    requires
        offline::rendered(states, plans, block_size, timing_of, fade_len_of),
        0 <= b < plans.len(),
        plans[b]@.contains(part),
        part.grain.params == p,
        !(part.grain.phase is Dead) ==> states[b + 1]@.grains.contains_key(part.key) && states[b
            + 1]@.grains[part.key] == part.grain,
        states[plans.len() as int]@.grains.dom().len() == 0,
    ensures
        parts.len() > 0,
        parts[0] == part,
        b + parts.len() <= plans.len(),
        goes_on(states, plans, block_size, p, b, parts),
    decreases plans.len() - b,
{
    if part.grain.phase is Dead {
        seq![part]
    } else {
        let n = plans.len() as int;
        let key = part.key;
        if b + 1 == n {
            assert(states[n].wf());
            states[n]@.grains.dom().lemma_len0_is_empty();
            assert(states[n]@.grains.dom().contains(key));
        }
        let next = lemma_next_part(
            states,
            plans,
            block_size,
            timing_of,
            fade_len_of,
            p,
            b + 1,
            key,
        );
        let rest = lemma_goes_on(
            states,
            plans,
            block_size,
            timing_of,
            fade_len_of,
            p,
            b + 1,
            next,
        );
        lemma_goes_on_from(states, plans, block_size, p, b, part, rest);
        seq![part] + rest
    }
}

/// One part more in front.
proof fn lemma_goes_on_from(
    states: Seq<RfofsEngine>,
    plans: Seq<Vec<GrainBlock>>,
    block_size: int,
    p: FofParams,
    b: int,
    part: GrainBlock,
    rest: Seq<GrainBlock>,
)
    requires
        rest.len() > 0,
        goes_on(states, plans, block_size, p, b + 1, rest),
        plans[b]@.contains(part),
        part.key == rest[0].key,
        part.grain.params == p,
        !(part.grain.phase is Dead),
        crate::engine::spared(kills_in(states, b + 1), p.id) ==> crate::engine::grain_plays(
            part.grain,
            rest[0],
            states[b + 1]@.clock,
            block_size,
        ),
    ensures
        goes_on(states, plans, block_size, p, b, seq![part] + rest),
{
    let parts = seq![part] + rest;
    assert forall|c: int| #![trigger parts[c]] 0 <= c < parts.len() implies plans[b + c]@.contains(
        parts[c],
    ) && parts[c].key == parts[0].key && parts[c].grain.params == p && (
    parts[c].grain.phase is Dead <==> c == parts.len() - 1) by {
        if c > 0 {
            assert(parts[c] == rest[c - 1]);
            assert(b + c == b + 1 + (c - 1));
        }
    }
    assert forall|a: int, c: int|
        #![trigger parts[a], parts[c]]
        0 <= a < c < parts.len() && c == a + 1 && crate::engine::spared(
            kills_in(states, b + c),
            p.id,
        ) implies crate::engine::grain_plays(
        parts[a].grain,
        parts[c],
        states[b + c]@.clock,
        block_size,
    ) by {
        assert(parts[c] == rest[c - 1]);
        assert(b + c == b + 1 + (c - 1));
        if a > 0 {
            assert(parts[a] == rest[a - 1]);
        }
    }
}

/// The part that an active grain plays in block `b`.
proof fn lemma_next_part<F: Fn(FofParams) -> FofTiming, G: Fn(u32) -> u32>(
    states: Seq<RfofsEngine>,
    plans: Seq<Vec<GrainBlock>>,
    block_size: int,
    timing_of: F,
    fade_len_of: G,
    p: FofParams,
    b: int,
    key: usize,
) -> (part: GrainBlock)
    requires
        offline::rendered(states, plans, block_size, timing_of, fade_len_of),
        0 <= b < plans.len(),
        states[b]@.grains.contains_key(key),
        states[b]@.grains[key].params == p,
    ensures
        plans[b]@.contains(part),
        part.key == key,
        part.grain.params == p,
        !(part.grain.phase is Dead) ==> states[b + 1]@.grains.contains_key(key) && states[b
            + 1]@.grains[key] == part.grain,
        crate::engine::spared(kills_in(states, b), p.id) ==> crate::engine::grain_plays(
            states[b]@.grains[key],
            part,
            states[b]@.clock,
            block_size,
        ),
{
    assert(states[b].wf());
    let before = states[b];
    let after = states[b + 1];
    let plan = plans[b]@;
    let seen = choose|seen: RfofsEngine|
        {
            &&& seen.wf()
            &&& crate::engine::looked(before, seen)
            &&& #[trigger] crate::engine::processed(
                seen,
                after,
                plan,
                block_size,
                timing_of,
                fade_len_of,
            )
        };
    let end = before@.clock + block_size;
    let incoming = crate::engine::fired_by(seen.wheels(), after.wheels(), end);
    let kills = kills_in(states, b);
    let (timings, keys, fade_lens) = choose|
        timings: Seq<FofTiming>,
        keys: Seq<usize>,
        fade_lens: Seq<u32>,
    |
        crate::engine::block_step(
            seen@,
            after@,
            incoming,
            timings,
            keys,
            kills,
            fade_lens,
            plan,
            block_size,
        );
    crate::engine::lemma_promoted(before@, incoming, timings, keys);
    let promoted = before@.with_grains(incoming, timings, keys);
    assert(promoted.grains[key] == before@.grains[key]);
    crate::engine::law_active_grain_plays_its_part(
        before@,
        after@,
        incoming,
        timings,
        keys,
        kills,
        fade_lens,
        plan,
        block_size,
        key,
    );
    let j = choose|j: int|
        #![trigger plan[j]]
        0 <= j < plan.len() && plan[j].key == key && crate::engine::takes_part(
            promoted.grains[key],
            after@,
            kills,
            plan[j],
            before@.clock,
            block_size,
        );
    assert(plan.contains(plan[j]));
    plan[j]
}

} // verus!
