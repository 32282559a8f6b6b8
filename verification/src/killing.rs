//! What a kill request does in a block, among the others of its list.
use crate::engine;
use crate::engine::{EngineModel, GrainBlock};
use crate::fof;
use crate::fof::{FofKillRequest, FofParams, FofState, FofTiming};
use vstd::prelude::*;

verus! {

/// There is an active grain with this id.
pub open spec fn is_active(e: EngineModel, id: u64) -> bool {
    exists|key: usize|
        #![trigger e.grains[key]]
        e.grains.contains_key(key) && e.grains[key].params.id == id
}

/// All that goes into a block and comes out of it, besides the engine.
pub struct BlockRecord {
    pub incoming: Seq<FofParams>,
    pub timings: Seq<FofTiming>,
    pub keys: Seq<usize>,
    pub kills: Seq<FofKillRequest>,
    pub fade_lens: Seq<u32>,
    pub plan: Seq<GrainBlock>,
    pub block_size: int,
}

impl BlockRecord {
    /// The engine with this block's grains promoted.
    pub open spec fn promoted(self, before: EngineModel) -> EngineModel {
        before.with_grains(self.incoming, self.timings, self.keys)
    }

    /// This block makes `after` of `before`.
    pub open spec fn leads(self, before: EngineModel, after: EngineModel) -> bool {
        engine::block_step(
            before,
            after,
            self.incoming,
            self.timings,
            self.keys,
            self.kills,
            self.fade_lens,
            self.plan,
            self.block_size,
        )
    }

    /// The same block without one of its kill requests.
    pub open spec fn without_kill(self, i: int) -> BlockRecord {
        BlockRecord { kills: self.kills.remove(i), fade_lens: self.fade_lens.remove(i), ..self }
    }

    /// The kill request is for no grain: its id is 0 or that of no grain which
    /// is active once the block's grains have been promoted.
    pub open spec fn is_idle(self, before: EngineModel, i: int) -> bool {
        &&& 0 <= i < self.kills.len()
        &&& self.fade_lens.len() == self.kills.len()
        &&& self.kills[i].id == 0 || !is_active(self.promoted(before), self.kills[i].id)
    }
}

/// `states` are an engine before each of the blocks and after the last.
pub open spec fn blocks_lead(states: Seq<EngineModel>, blocks: Seq<BlockRecord>) -> bool {
    &&& states.len() == blocks.len() + 1
    &&& forall|b: int|
        #![trigger blocks[b]]
        0 <= b < blocks.len() ==> blocks[b].leads(states[b], states[b + 1])
}

/// A kill request for no grain can be taken out of a block's list: the block
/// leads to the same engine with the same plan, with it and without it.
pub proof fn law_idle_kill_makes_no_difference(
    block: BlockRecord,
    before: EngineModel,
    after: EngineModel,
    i: int,
)
    requires
        before.wf(),
        block.is_idle(before, i),
    ensures
        block.leads(before, after) == block.without_kill(i).leads(before, after),
{
    if block.timings.len() == block.incoming.len() && block.keys.len() == block.incoming.len()
        && before.vacant(block.keys) {
        let promoted = block.promoted(before);
        engine::lemma_promoted(before, block.incoming, block.timings, block.keys);
        let id = block.kills[i].id;
        if promoted.ids.contains_key(id) {
            let key = promoted.ids[id];
            assert(promoted.grains[key].params.id == id);
            assert(is_active(promoted, id));
        }
        lemma_untracked_in_list(promoted, block.kills, block.fade_lens, i);
    }
}

/// A kill request for no grain makes no difference to later blocks either: a
/// run of blocks is the same run, state for state, with it and without it.
pub proof fn law_idle_kill_leaves_later_blocks_alone(
    states: Seq<EngineModel>,
    blocks: Seq<BlockRecord>,
    b: int,
    i: int,
)
    requires
        0 <= b < blocks.len(),
        states[b].wf(),
        blocks[b].is_idle(states[b], i),
    ensures
        blocks_lead(states, blocks) == blocks_lead(
            states,
            blocks.update(b, blocks[b].without_kill(i)),
        ),
{
    let other = blocks.update(b, blocks[b].without_kill(i));
    law_idle_kill_makes_no_difference(blocks[b], states[b], states[b + 1], i);
    if blocks_lead(states, blocks) {
        assert forall|c: int| #![trigger other[c]] 0 <= c < other.len() implies other[c].leads(
            states[c],
            states[c + 1],
        ) by {
            assert(blocks[c].leads(states[c], states[c + 1]));
        }
    }
    if blocks_lead(states, other) {
        assert forall|c: int| #![trigger blocks[c]] 0 <= c < blocks.len() implies blocks[c].leads(
            states[c],
            states[c + 1],
        ) by {
            assert(other[c].leads(states[c], states[c + 1]));
        }
    }
}

proof fn lemma_untracked_in_list(
    e: EngineModel,
    kills: Seq<FofKillRequest>,
    fade_lens: Seq<u32>,
    i: int,
)
    requires
        e.wf(),
        fade_lens.len() == kills.len(),
        0 <= i < kills.len(),
        !e.ids.contains_key(kills[i].id),
    ensures
        e.with_kills(kills.remove(i), fade_lens.remove(i)) == e.with_kills(kills, fade_lens),
    decreases kills.len(),
{
    let n = kills.len() - 1;
    let fewer = kills.drop_last();
    let lens = fade_lens.drop_last();
    engine::lemma_kills_keep_params(e, fewer, lens);
    if i == n {
        assert(kills.remove(i) =~= fewer);
        assert(fade_lens.remove(i) =~= lens);
    } else {
        lemma_untracked_in_list(e, fewer, lens, i);
        assert(kills.remove(i).drop_last() =~= fewer.remove(i));
        assert(fade_lens.remove(i).drop_last() =~= lens.remove(i));
        assert(kills.remove(i).last() == kills.last());
        assert(fade_lens.remove(i).last() == fade_lens.last());
    }
}

/// Two parts of a block are the same: the same grain is left, and the same
/// samples were given.
pub open spec fn same_part(a: GrainBlock, b: GrainBlock) -> bool {
    &&& a.key == b.key
    &&& a.grain == b.grain
    &&& fof::run_samples(a.runs@) == fof::run_samples(b.runs@)
}

/// A kill request reaches no grain but that of its id: in a block with it and
/// in the same block without it, every other grain plays the same part and is
/// left the same, and every other id leads to the same grain.
pub proof fn law_kill_changes_no_other_grain(
    block: BlockRecord,
    before: EngineModel,
    after: EngineModel,
    other: BlockRecord,
    other_after: EngineModel,
    i: int,
)
    requires
        before.wf(),
        0 <= i < block.kills.len(),
        block.leads(before, after),
        other == (BlockRecord { plan: other.plan, ..block.without_kill(i) }),
        other.leads(before, other_after),
    ensures
        after.clock == other_after.clock,
        forall|key: usize|
            #![trigger after.grains.contains_key(key)]
            #![trigger other_after.grains.contains_key(key)]
            block.promoted(before).grains.contains_key(key) && block.promoted(
                before,
            ).grains[key].params.id != block.kills[i].id ==> {
                &&& after.grains.contains_key(key) == other_after.grains.contains_key(key)
                &&& after.grains.contains_key(key) ==> after.grains[key] == other_after.grains[key]
            },
        forall|j: int|
            #![trigger block.plan[j]]
            0 <= j < block.plan.len() && block.plan[j].grain.params.id != block.kills[i].id
                ==> exists|k: int|
                #![trigger other.plan[k]]
                0 <= k < other.plan.len() && same_part(block.plan[j], other.plan[k]),
        forall|id: u64|
            #![trigger after.ids.contains_key(id)]
            #![trigger other_after.ids.contains_key(id)]
            id != block.kills[i].id ==> {
                &&& after.ids.contains_key(id) == other_after.ids.contains_key(id)
                &&& after.ids.contains_key(id) ==> after.ids[id] == other_after.ids[id]
            },
{
    let promoted = block.promoted(before);
    let id = block.kills[i].id;
    engine::lemma_promoted(before, block.incoming, block.timings, block.keys);
    engine::lemma_kills_keep_params(promoted, block.kills, block.fade_lens);
    engine::lemma_kills_keep_params(promoted, other.kills, other.fade_lens);
    engine::lemma_kills_keep_clock(promoted, block.kills, block.fade_lens);
    engine::lemma_kills_keep_clock(promoted, other.kills, other.fade_lens);
    lemma_others_in_list(promoted, block.kills, block.fade_lens, i);
    let ready = promoted.with_kills(block.kills, block.fade_lens);
    let ready2 = promoted.with_kills(other.kills, other.fade_lens);
    let size = block.block_size;
    let played = ready.played(size);
    let played2 = ready2.played(size);
    assert forall|key: usize|
        #![trigger after.grains.contains_key(key)]
        #![trigger other_after.grains.contains_key(key)]
        promoted.grains.contains_key(key) && promoted.grains[key].params.id != id implies {
        &&& after.grains.contains_key(key) == other_after.grains.contains_key(key)
        &&& after.grains.contains_key(key) ==> after.grains[key] == other_after.grains[key]
    } by {
        assert(promoted.grains.dom().contains(key));
        assert(ready.grains.contains_key(key) && ready2.grains.contains_key(key));
        assert(ready.grains[key] == ready2.grains[key]);
        assert(played.grains[key] == played2.grains[key]);
    }
    assert forall|j: int|
        #![trigger block.plan[j]]
        0 <= j < block.plan.len() && block.plan[j].grain.params.id != id implies exists|k: int|
        #![trigger other.plan[k]]
        0 <= k < other.plan.len() && same_part(block.plan[j], other.plan[k]) by {
        let part = block.plan[j];
        let key = part.key;
        assert(ready.grains.contains_key(key));
        assert(ready.grains.dom().contains(key));
        assert(ready2.grains.contains_key(key));
        let grain = ready.grains[key];
        fof::law_phases_only_advance(
            grain,
            fof::samples_wanted(grain.params.start_sample, ready.clock, size),
            0,
            0,
        );
        assert(engine::grain_plays(grain, part, ready.clock, size));
        assert(promoted.grains[key].params.id != id);
        let k = choose|k: int|
            #![trigger other.plan[k]]
            0 <= k < other.plan.len() && other.plan[k].key == key;
        assert(engine::grain_plays(ready2.grains[key], other.plan[k], ready2.clock, size));
        assert(same_part(part, other.plan[k]));
    }
    assert forall|at: u64|
        #![trigger after.ids.contains_key(at)]
        #![trigger other_after.ids.contains_key(at)]
        at != id implies {
        &&& after.ids.contains_key(at) == other_after.ids.contains_key(at)
        &&& after.ids.contains_key(at) ==> after.ids[at] == other_after.ids[at]
    } by {
        if played.has_died(at) {
            lemma_same_deaths(promoted, ready, ready2, size, id, at);
        }
        if played2.has_died(at) {
            lemma_same_deaths(promoted, ready2, ready, size, id, at);
        }
    }
}

/// A grain of another id that dies in one block dies in the other.
proof fn lemma_same_deaths(
    promoted: EngineModel,
    ready: EngineModel,
    ready2: EngineModel,
    block_size: int,
    id: u64,
    at: u64,
)
    requires
        at != id,
        ready.clock == ready2.clock,
        ready.grains.dom() == promoted.grains.dom(),
        ready2.grains.dom() == promoted.grains.dom(),
        forall|key: usize|
            #![trigger ready.grains[key]]
            #![trigger ready2.grains[key]]
            ready.grains.contains_key(key) && promoted.grains[key].params.id != id
                ==> ready.grains[key] == ready2.grains[key],
        forall|key: usize|
            #![trigger ready.grains[key]]
            ready.grains.contains_key(key) ==> ready.grains[key].params
                == promoted.grains[key].params,
        ready.played(block_size).has_died(at),
    ensures
        ready2.played(block_size).has_died(at),
{
    let played = ready.played(block_size);
    let played2 = ready2.played(block_size);
    let key = choose|key: usize|
        #![trigger played.grains[key]]
        played.grains.contains_key(key) && played.grains[key].phase is Dead
            && played.grains[key].params.id == at;
    let grain = ready.grains[key];
    fof::law_phases_only_advance(
        grain,
        fof::samples_wanted(grain.params.start_sample, ready.clock, block_size),
        0,
        0,
    );
    assert(ready.grains.dom().contains(key));
    assert(ready2.grains.contains_key(key));
    assert(played2.grains[key] == played.grains[key]);
}

proof fn lemma_others_in_list(
    e: EngineModel,
    kills: Seq<FofKillRequest>,
    fade_lens: Seq<u32>,
    i: int,
)
    requires
        e.wf(),
        fade_lens.len() == kills.len(),
        0 <= i < kills.len(),
    ensures
        forall|key: usize|
            #![trigger e.with_kills(kills, fade_lens).grains[key]]
            #![trigger e.with_kills(kills.remove(i), fade_lens.remove(i)).grains[key]]
            e.grains.contains_key(key) && e.grains[key].params.id != kills[i].id
                ==> e.with_kills(kills, fade_lens).grains[key] == e.with_kills(
                kills.remove(i),
                fade_lens.remove(i),
            ).grains[key],
    decreases kills.len(),
{
    let n = kills.len() - 1;
    let fewer = kills.drop_last();
    let lens = fade_lens.drop_last();
    let mid = e.with_kills(fewer, lens);
    let after = e.with_kills(kills, fade_lens);
    let other = e.with_kills(kills.remove(i), fade_lens.remove(i));
    engine::lemma_kills_keep_params(e, fewer, lens);
    if i == n {
        assert(kills.remove(i) =~= fewer);
        assert(fade_lens.remove(i) =~= lens);
        engine::law_kill_reaches_only_its_grain(mid, kills[n], fade_lens[n]);
        assert forall|key: usize|
            #![trigger after.grains[key]]
            #![trigger other.grains[key]]
            e.grains.contains_key(key) && e.grains[key].params.id != kills[i].id implies
            after.grains[key] == other.grains[key] by {
            assert(e.grains.dom().contains(key));
            assert(mid.grains.contains_key(key));
            assert(mid.grains[key].params == e.grains[key].params);
            assert(mid.with_kill(kills[n], fade_lens[n]).grains[key] == mid.grains[key]);
        }
    } else {
        lemma_others_in_list(e, fewer, lens, i);
        assert(kills.remove(i).drop_last() =~= fewer.remove(i));
        assert(fade_lens.remove(i).drop_last() =~= lens.remove(i));
        assert(kills.remove(i).last() == kills.last());
        assert(fade_lens.remove(i).last() == fade_lens.last());
        let mid2 = e.with_kills(fewer.remove(i), lens.remove(i));
        engine::lemma_kills_keep_params(e, fewer.remove(i), lens.remove(i));
        assert forall|key: usize|
            #![trigger after.grains[key]]
            #![trigger other.grains[key]]
            e.grains.contains_key(key) && e.grains[key].params.id != kills[i].id implies
            after.grains[key] == other.grains[key] by {
            assert(mid.grains[key] == mid2.grains[key]);
            assert(after == mid.with_kill(kills[n], fade_lens[n]));
            assert(other == mid2.with_kill(kills[n], fade_lens[n]));
        }
    }
}

/// The grain is on a ramp that begins with the first sample of its attack, where
/// it has not risen yet: it is silent, and stays so.
pub open spec fn fades_from_nothing(grain: FofState) -> bool {
    &&& grain.phase is FadeOut || grain.phase is Dead
    &&& grain.fade_from is Attack
    &&& grain.t_fo == 0
}

/// A grain that is promoted and killed in one block is silent throughout it, and
/// after it: all that it gives is on a ramp that begins with the first sample of
/// its attack.
pub proof fn law_grain_killed_at_its_onset_is_silent(
    block: BlockRecord,
    before: EngineModel,
    after: EngineModel,
    y: int,
    i: int,
)
    requires
        before.wf(),
        block.leads(before, after),
        0 <= y < block.incoming.len(),
        engine::has_own_id(block.promoted(before), block.keys[y]),
        0 <= i < block.kills.len(),
        block.kills[i].id == block.incoming[y].id,
    ensures
        exists|j: int|
            #![trigger block.plan[j]]
            0 <= j < block.plan.len() && block.plan[j].key == block.keys[y]
                && fades_from_nothing(block.plan[j].grain) && forall|k: int|
                #![trigger fof::run_samples(block.plan[j].runs@)[k]]
                0 <= k < fof::run_samples(block.plan[j].runs@).len() ==> fof::run_samples(
                    block.plan[j].runs@,
                )[k].phase is FadeOut,
        after.grains.contains_key(block.keys[y]) ==> fades_from_nothing(
            after.grains[block.keys[y]],
        ),
{
    let promoted = block.promoted(before);
    let key = block.keys[y];
    let size = block.block_size;
    engine::lemma_promoted(before, block.incoming, block.timings, block.keys);
    assert(promoted.grains[key] == FofState::spawned(block.incoming[y], block.timings[y]));
    assert(!before.grains.contains_key(key));
    engine::law_own_id_stays_tracked(
        before,
        after,
        block.incoming,
        block.timings,
        block.keys,
        block.kills,
        block.fade_lens,
        block.plan,
        size,
        key,
    );
    lemma_killed_at_onset(promoted, block.kills, block.fade_lens, key);
    engine::lemma_kills_keep_params(promoted, block.kills, block.fade_lens);
    let ready = promoted.with_kills(block.kills, block.fade_lens);
    assert(ready.grains.dom().contains(key));
    assert(ready.grains.contains_key(key));
    let grain = ready.grains[key];
    assert(fades_from_nothing(grain));
    let j = choose|j: int| #![trigger block.plan[j]] 0 <= j < block.plan.len()
        && block.plan[j].key == key;
    assert(engine::grain_plays(grain, block.plan[j], ready.clock, size));
    let n = fof::samples_wanted(grain.params.start_sample, ready.clock, size);
    fof::law_fading_goes_on_to_the_end(grain, n);
    let samples = fof::run_samples(block.plan[j].runs@);
    assert(samples == grain.samples(n));
    assert forall|k: int| #![trigger samples[k]] 0 <= k < samples.len() implies
        samples[k].phase is FadeOut by {
        assert(grain.samples(n)[k].phase is FadeOut);
    }
    assert(fades_from_nothing(block.plan[j].grain));
    if after.grains.contains_key(key) {
        assert(ready.played(size).grains[key] == after.grains[key]);
    }
}

/// A tracked grain that is as spawned is left so by kills for others, and one
/// for it puts it on its ramp.
proof fn lemma_killed_at_onset(
    e: EngineModel,
    kills: Seq<FofKillRequest>,
    fade_lens: Seq<u32>,
    key: usize,
)
    requires
        e.wf(),
        e.grains.contains_key(key),
        engine::is_tracked(e, key),
        e.grains[key].phase is Attack,
        e.grains[key].t == 0,
    ensures
        ({
            let after = e.with_kills(kills, fade_lens).grains[key];
            if exists|i: int|
                #![trigger kills[i]]
                0 <= i < kills.len() && kills[i].id == e.grains[key].params.id {
                fades_from_nothing(after)
            } else {
                after == e.grains[key]
            }
        }),
    decreases kills.len(),
{
    let id = e.grains[key].params.id;
    if kills.len() > 0 {
        let n = kills.len() - 1;
        let fewer = kills.drop_last();
        let lens = fade_lens.drop_last();
        let mid = e.with_kills(fewer, lens);
        lemma_killed_at_onset(e, fewer, lens, key);
        engine::lemma_kills_keep_params(e, fewer, lens);
        assert(e.grains.dom().contains(key));
        assert(mid.grains.contains_key(key));
        assert(mid.ids == e.ids);
        if exists|i: int| #![trigger kills[i]] 0 <= i < kills.len() && kills[i].id == id {
            let i = choose|i: int|
                #![trigger kills[i]]
                0 <= i < kills.len() && kills[i].id == id;
            if i < n {
                assert(fewer[i].id == id);
            }
        }
        if exists|i: int| #![trigger fewer[i]] 0 <= i < fewer.len() && fewer[i].id == id {
            let i = choose|i: int|
                #![trigger fewer[i]]
                0 <= i < fewer.len() && fewer[i].id == id;
            assert(kills[i].id == id);
        }
        let last = kills[n];
        if last.id != id && mid.ids.contains_key(last.id) && mid.ids[last.id] == key {
            assert(mid.grains[key].params.id == last.id);
        }
    }
}

} // verus!
