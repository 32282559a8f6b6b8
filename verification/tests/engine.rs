use rfofs::engine::GrainBlock;
use rfofs::fof::{lane_samples, FofPhase, FofRun, FofState, FofTiming};
use rfofs::queue::{kill_queue, time_wheel, KillQueueProducer, TimeWheelProducer};
use rfofs::runs::FofRuns;
use rfofs::{FofKillRequest, FofParams, PanMode, RfofsEngine};

fn params(id: u64, start_sample: u64) -> FofParams {
    FofParams {
        id,
        start_sample,
        f: 440.0f32.to_bits(),
        gliss: 0,
        phi: 0,
        amp: 1.0f32.to_bits(),
        alpha: 20.0f32.to_bits(),
        beta: 0.01f32.to_bits(),
        fade_level: 0.001f32.to_bits(),
        fade_dur: 7,
        azm: 0,
        elev: 0,
        distance: 1.0f32.to_bits(),
    }
}

/// Attack 4, decay until 10, fade-out 6.
fn timing(_: FofParams) -> FofTiming {
    FofTiming { attack_len: 4, decay_len: Some(10), fade_len: 6 }
}

/// The ramp is as long as the bits say.
fn fade_len(fade_dur: u32) -> u32 {
    fade_dur
}

fn run(phase: FofPhase, offset: usize, len: usize, t: u32) -> FofRun {
    FofRun { phase, offset, len, t }
}

fn engine() -> (TimeWheelProducer, KillQueueProducer, RfofsEngine) {
    let (wheel_tx, wheel_rx) = time_wheel(16, 8, 8, 8);
    let (kill_tx, kill_rx) = kill_queue(8);
    (wheel_tx, kill_tx, RfofsEngine::new(PanMode::Stereo, 4, vec![wheel_rx], kill_rx))
}

fn block(engine: &mut RfofsEngine, size: usize) -> Vec<GrainBlock> {
    assert!(engine.block_fits(size));
    let mut plan = Vec::new();
    engine.process_block(size, timing, fade_len, &mut plan);
    plan
}

#[test]
fn grain_goes_through_its_phases() {
    let mut s = FofState::spawn(params(0, 0), timing(params(0, 0)));
    assert_eq!(s.phase, FofPhase::Attack);
    let runs = s.fill_block(0, 12).to_vec();
    assert_eq!(
        runs,
        vec![
            run(FofPhase::Attack, 0, 4, 0),
            run(FofPhase::Decay, 4, 6, 4),
            run(FofPhase::FadeOut, 10, 2, 10),
        ]
    );
    assert_eq!((s.t, s.t_fo, s.fade_from, s.fadeout_end), (12, 10, FofPhase::Decay, 16));
    let runs = s.fill_block(12, 12).to_vec();
    assert_eq!(runs, vec![run(FofPhase::FadeOut, 0, 4, 12)]);
    assert_eq!(s.phase, FofPhase::Dead);
    assert_eq!(s.fill_block(24, 12).to_vec(), vec![]);
}

#[test]
fn grain_starts_inside_its_block() {
    let mut s = FofState::spawn(params(0, 105), timing(params(0, 105)));
    assert_eq!(s.fill_block(100, 8).to_vec(), vec![run(FofPhase::Attack, 5, 3, 0)]);
    // A grain that is late starts with the block.
    let mut s = FofState::spawn(params(0, 50), timing(params(0, 50)));
    assert_eq!(s.fill_block(100, 2).to_vec(), vec![run(FofPhase::Attack, 0, 2, 0)]);
    // One that starts later does not sound yet.
    let mut s = FofState::spawn(params(0, 108), timing(params(0, 108)));
    assert_eq!(s.fill_block(100, 8).to_vec(), vec![]);
    assert_eq!(s.t, 0);
}

#[test]
fn grain_without_natural_end_decays_on() {
    let t = FofTiming { attack_len: 0, decay_len: None, fade_len: 6 };
    let mut s = FofState::spawn(params(0, 0), t);
    assert_eq!(s.decay_end, u32::MAX);
    assert_eq!(s.fill_block(0, 1000).to_vec(), vec![run(FofPhase::Decay, 0, 1000, 0)]);
}

#[test]
fn decay_does_not_end_before_the_attack() {
    let t = FofTiming { attack_len: 9, decay_len: Some(3), fade_len: 2 };
    let mut s = FofState::spawn(params(0, 0), t);
    assert_eq!(s.decay_end, 9);
    assert_eq!(
        s.fill_block(0, 20).to_vec(),
        vec![run(FofPhase::Attack, 0, 9, 0), run(FofPhase::FadeOut, 9, 2, 9)]
    );
    assert_eq!(s.phase, FofPhase::Dead);
}

#[test]
fn kill_cuts_a_phase_short_once() {
    let mut s = FofState::spawn(params(0, 0), timing(params(0, 0)));
    s.fill_block(0, 2);
    s.trigger_fade_out(99, 5);
    assert_eq!((s.phase, s.t_fo, s.fade_from), (FofPhase::FadeOut, 2, FofPhase::Attack));
    assert_eq!((s.fade_dur, s.fadeout_end), (99, 7));
    let fading = s;
    s.trigger_fade_out(1, 1);
    assert_eq!(s, fading);
    assert_eq!(s.fill_block(2, 20).to_vec(), vec![run(FofPhase::FadeOut, 0, 5, 2)]);
    assert_eq!(s.phase, FofPhase::Dead);
    let dead = s;
    s.trigger_fade_out(1, 1);
    assert_eq!(s, dead);
}

#[test]
fn fade_out_stays_on_its_ramp() {
    for kill_at in 0..12 {
        let mut s = FofState::spawn(params(0, 0), timing(params(0, 0)));
        s.fill_block(0, kill_at);
        s.trigger_fade_out(1, 3);
        let runs = s.fill_block(kill_at as u64, 40).to_vec();
        for r in runs.iter().filter(|r| r.phase == FofPhase::FadeOut) {
            assert!(s.t_fo <= r.t && r.t + r.len as u32 <= s.fadeout_end);
        }
    }
}

#[test]
fn samples_go_in_lanes() {
    assert_eq!(lane_samples(0), 0);
    assert_eq!(lane_samples(7), 0);
    assert_eq!(lane_samples(8), 8);
    assert_eq!(lane_samples(23), 16);
}

#[test]
fn blocks_of_any_size_give_the_same_samples() {
    let samples = |sizes: &[usize]| {
        let mut s = FofState::spawn(params(0, 3), timing(params(0, 3)));
        let mut out = Vec::new();
        let mut start = 0u64;
        for &size in sizes {
            for r in s.fill_block(start, size).to_vec() {
                for k in 0..r.len {
                    out.push((start + (r.offset + k) as u64, r.phase, r.t + k as u32));
                }
            }
            start += size as u64;
        }
        (out, s)
    };
    let whole = samples(&[40]);
    assert_eq!(whole.0.len(), 16);
    assert_eq!(whole.0[0], (3, FofPhase::Attack, 0));
    assert_eq!(samples(&[1; 40]), whole);
    assert_eq!(samples(&[7, 13, 20]), whole);
}

#[test]
fn engine_plays_a_grain_from_start_to_end() {
    let (mut wheel_tx, _kill_tx, mut engine) = engine();
    assert_eq!(engine.pan_mode(), PanMode::Stereo);
    wheel_tx.push(params(5, 3)).unwrap();
    let plan = block(&mut engine, 8);
    assert_eq!(plan.len(), 1);
    assert_eq!(plan[0].runs.to_vec(), vec![run(FofPhase::Attack, 3, 4, 0), run(FofPhase::Decay, 7, 1, 4)]);
    assert_eq!(plan[0].grain.params, params(5, 3));
    assert_eq!(engine.active_count(), 1);
    assert_eq!(engine.sample_clock(), 8);
    let plan = block(&mut engine, 8);
    assert_eq!(plan[0].runs.to_vec()[0], run(FofPhase::Decay, 0, 5, 5));
    assert_eq!(plan[0].runs.to_vec()[1], run(FofPhase::FadeOut, 5, 3, 10));
    let plan = block(&mut engine, 8);
    assert_eq!(plan[0].runs.to_vec(), vec![run(FofPhase::FadeOut, 0, 3, 13)]);
    assert_eq!(plan[0].grain.phase, FofPhase::Dead);
    assert_eq!(engine.active_count(), 0);
    assert!(block(&mut engine, 8).is_empty());
    assert_eq!(engine.sample_clock(), 32);
}

#[test]
fn kill_in_the_block_of_the_onset() {
    let (mut wheel_tx, mut kill_tx, mut engine) = engine();
    wheel_tx.push(params(5, 0)).unwrap();
    wheel_tx.push(params(6, 1)).unwrap();
    kill_tx.push(FofKillRequest { id: 5, fade_dur: 2 }).unwrap();
    kill_tx.push(FofKillRequest { id: 77, fade_dur: 2 }).unwrap(); // unknown
    let plan = block(&mut engine, 8);
    assert_eq!(plan.len(), 2);
    assert_eq!(plan[0].grain.params.id, 5);
    assert_eq!(plan[0].runs.to_vec(), vec![run(FofPhase::FadeOut, 0, 2, 0)]);
    assert_eq!(plan[1].grain.params.id, 6);
    assert_eq!(plan[1].grain.phase, FofPhase::Decay);
    assert_eq!(engine.active_count(), 1);
    // The id of the dead grain is forgotten.
    kill_tx.push(FofKillRequest { id: 5, fade_dur: 0 }).unwrap();
    assert_eq!(block(&mut engine, 1).len(), 1);
    assert_eq!(engine.active_count(), 1);
}

#[test]
fn fire_and_forget_grains_cannot_be_killed() {
    let (mut wheel_tx, mut kill_tx, mut engine) = engine();
    wheel_tx.push(params(0, 0)).unwrap();
    kill_tx.push(FofKillRequest { id: 0, fade_dur: 0 }).unwrap();
    let plan = block(&mut engine, 8);
    assert_eq!(plan[0].grain.phase, FofPhase::Decay);
    assert_eq!(engine.active_count(), 1);
}

#[test]
fn a_reused_id_leads_to_the_latest_grain() {
    let (mut wheel_tx, mut kill_tx, mut engine) = engine();
    wheel_tx.push(params(5, 0)).unwrap();
    wheel_tx.push(params(5, 2)).unwrap();
    kill_tx.push(FofKillRequest { id: 5, fade_dur: 1 }).unwrap();
    let plan = block(&mut engine, 8);
    assert_eq!(plan[0].grain.phase, FofPhase::Decay);
    assert_eq!(plan[1].grain.phase, FofPhase::Dead);
    assert_eq!(engine.active_count(), 1);
}

#[test]
fn pool_keys_are_reused() {
    let (mut wheel_tx, _kill_tx, mut engine) = engine();
    for i in 0..3u64 {
        wheel_tx.push(params(0, i)).unwrap();
    }
    let keys: Vec<usize> = block(&mut engine, 8).iter().map(|g| g.key).collect();
    assert_eq!(keys, vec![0, 1, 2]);
    block(&mut engine, 8);
    block(&mut engine, 8);
    assert_eq!(engine.active_count(), 0);
    wheel_tx.push(params(0, 25)).unwrap();
    let plan = block(&mut engine, 8);
    assert_eq!(plan.len(), 1);
    assert!(plan[0].key < 3);
}

#[test]
fn the_clock_can_be_set() {
    let (mut wheel_tx, _kill_tx, mut engine) = engine();
    engine.set_sample_clock(1000);
    assert_eq!(engine.sample_clock(), 1000);
    block(&mut engine, 8);
    wheel_tx.push(params(0, 1010)).unwrap();
    wheel_tx.push(params(0, 1012)).unwrap();
    let plan = block(&mut engine, 8);
    assert_eq!(plan.iter().map(|g| g.runs.to_vec()[0].offset).collect::<Vec<_>>(), vec![2, 4]);
    assert_eq!(engine.wheel_stats(0).slot_offset_histogram[0], 2);
    engine.set_sample_clock(u64::MAX - 3);
    assert!(!engine.block_fits(8));
}

#[test]
fn several_wheels_feed_one_engine() {
    let (mut tx_a, rx_a) = time_wheel(4, 8, 8, 8);
    let (mut tx_b, rx_b) = time_wheel(4, 8, 8, 8);
    let (_kill_tx, kill_rx) = kill_queue(1);
    let mut engine = RfofsEngine::new(PanMode::Mono, 4, vec![rx_a, rx_b], kill_rx);
    tx_b.push(params(2, 0)).unwrap();
    tx_a.push(params(1, 4)).unwrap();
    let plan = block(&mut engine, 8);
    assert_eq!(plan.iter().map(|g| g.grain.params.id).collect::<Vec<_>>(), vec![1, 2]);
}

#[test]
fn promoting_and_killing_by_hand() {
    let (_wheel_tx, _kill_tx, mut engine) = engine();
    let p = params(9, 0);
    let mut keys = vec![7];
    engine.spawn_grains(&vec![p, params(0, 1)], &vec![timing(p), timing(p)], &mut keys);
    assert_eq!(keys.len(), 2);
    engine.apply_kills(&vec![FofKillRequest { id: 9, fade_dur: 1 }], &vec![0]);
    let mut plan = Vec::new();
    engine.play(4, &mut plan);
    assert_eq!(plan[0].grain.phase, FofPhase::Dead);
    assert_eq!(plan[1].grain.phase, FofPhase::Attack);
    engine.bury_dead();
    assert_eq!(engine.active_count(), 1);
    assert_eq!(engine.sample_clock(), 0);
}

#[test]
fn a_grain_sounds_from_its_sample_whatever_the_block_size() {
    // Slots of 256 samples, blocks of 64.
    let (mut wheel_tx, wheel_rx) = time_wheel(16, 256, 256, 64);
    let (_kill_tx, kill_rx) = kill_queue(8);
    let mut engine = RfofsEngine::new(PanMode::Mono, 4, vec![wheel_rx], kill_rx);
    wheel_tx.push(params(0, 10)).unwrap();
    wheel_tx.push(params(0, 64)).unwrap();
    wheel_tx.push(params(0, 200)).unwrap();
    let plan = block(&mut engine, 64);
    assert_eq!(engine.active_count(), 0); // 16 samples long, all in the block
    assert_eq!(plan.len(), 1);
    assert_eq!(plan[0].runs.to_vec()[0], run(FofPhase::Attack, 10, 4, 0));
    let plan = block(&mut engine, 64);
    assert_eq!(plan[0].runs.to_vec()[0], run(FofPhase::Attack, 0, 4, 0));
    assert!(block(&mut engine, 64).is_empty());
    let plan = block(&mut engine, 64);
    assert_eq!(plan[0].runs.to_vec()[0], run(FofPhase::Attack, 8, 4, 0));
}

#[test]
fn a_long_grain_is_active_after_the_block_it_starts_in() {
    let (mut wheel_tx, wheel_rx) = time_wheel(16, 256, 256, 64);
    let (_kill_tx, kill_rx) = kill_queue(8);
    let mut engine = RfofsEngine::new(PanMode::Mono, 4, vec![wheel_rx], kill_rx);
    wheel_tx.push(params(0, 10)).unwrap();
    let long = |_: FofParams| FofTiming { attack_len: 100, decay_len: None, fade_len: 6 };
    let mut plan = Vec::new();
    engine.process_block(64, long, fade_len, &mut plan);
    assert_eq!(engine.active_count(), 1);
    assert_eq!(plan[0].runs.to_vec(), vec![run(FofPhase::Attack, 10, 54, 0)]);
}

#[test]
fn a_grain_can_be_killed_for_as_long_as_it_lives() {
    let (mut wheel_tx, mut kill_tx, mut engine) = engine();
    wheel_tx.push(params(5, 0)).unwrap();
    block(&mut engine, 3);
    wheel_tx.push(params(6, 4)).unwrap();
    block(&mut engine, 3);
    block(&mut engine, 3);
    kill_tx.push(FofKillRequest { id: 5, fade_dur: 1 }).unwrap();
    let plan = block(&mut engine, 3);
    assert_eq!(plan[0].runs.to_vec(), vec![run(FofPhase::FadeOut, 0, 1, 9)]);
    assert_eq!(plan[0].grain.phase, FofPhase::Dead);
    assert_eq!(plan[1].grain.params.id, 6);
    assert_eq!(engine.active_count(), 1);
}

#[test]
fn all_kills_that_were_sent_take_effect_in_a_block() {
    let (mut wheel_tx, mut kill_tx, mut engine) = engine();
    for id in 1..=8u64 {
        wheel_tx.push(params(id, 0)).unwrap();
        kill_tx.push(FofKillRequest { id, fade_dur: 0 }).unwrap();
    }
    assert_eq!(block(&mut engine, 8).len(), 8);
    assert_eq!(engine.active_count(), 0);
    // Nothing is left over from one block to the next.
    assert!(block(&mut engine, 8).is_empty());
}

#[test]
fn grains_are_submitted_through_the_engine() {
    let (mut tx, rx) = time_wheel(1, 8, 8, 8);
    let (_kill_tx, kill_rx) = kill_queue(1);
    let mut engine = RfofsEngine::new(PanMode::Mono, 4, vec![rx], kill_rx);
    assert_eq!(engine.submit(0, &mut tx, params(1, 3)), Ok(()));
    assert_eq!(engine.submit(0, &mut tx, params(2, 9)), Err(params(2, 9)));
    engine.look(0, &tx);
    assert_eq!(block(&mut engine, 8)[0].grain.params, params(1, 3));
    assert_eq!(engine.submit(0, &mut tx, params(2, 9)), Ok(()));
}

/// What a block gives, grain by grain.
fn parts(plan: &[GrainBlock]) -> Vec<(u64, FofState, Vec<FofRun>)> {
    plan.iter().map(|part| (part.grain.params.id, part.grain, part.runs.to_vec())).collect()
}

#[test]
fn a_kill_of_no_active_grain_makes_no_difference() {
    let (mut wheel_a, mut kill_a, mut a) = engine();
    let (mut wheel_b, mut kill_b, mut b) = engine();
    for tx in [&mut wheel_a, &mut wheel_b] {
        tx.push(params(0, 0)).unwrap();
        tx.push(params(5, 1)).unwrap();
        tx.push(params(6, 20)).unwrap();
    }
    for _ in 0..5 {
        kill_a.push(FofKillRequest { id: 0, fade_dur: 1 }).unwrap();
        kill_a.push(FofKillRequest { id: 5, fade_dur: 9 }).unwrap();
        kill_a.push(FofKillRequest { id: 77, fade_dur: 1 }).unwrap();
        kill_b.push(FofKillRequest { id: 5, fade_dur: 9 }).unwrap();
        a.look_for_kills(&kill_a);
        let plan_a = block(&mut a, 8);
        let plan_b = block(&mut b, 8);
        assert_eq!(parts(&plan_a), parts(&plan_b));
        assert_eq!(a.active_count(), b.active_count());
    }
}

#[test]
fn a_kill_changes_its_own_grain_alone() {
    let (mut wheel_a, mut kill_a, mut a) = engine();
    let (mut wheel_b, _kill_b, mut b) = engine();
    for tx in [&mut wheel_a, &mut wheel_b] {
        tx.push(params(4, 0)).unwrap();
        tx.push(params(5, 0)).unwrap();
        tx.push(params(6, 2)).unwrap();
    }
    assert_eq!(parts(&block(&mut a, 3)), parts(&block(&mut b, 3)));
    kill_a.push(FofKillRequest { id: 5, fade_dur: 2 }).unwrap();
    for round in 0..5 {
        let plan_a = block(&mut a, 4);
        let plan_b = block(&mut b, 4);
        let others = |plan: &[GrainBlock]| {
            parts(plan).into_iter().filter(|part| part.0 != 5).collect::<Vec<_>>()
        };
        assert_eq!(others(&plan_a), others(&plan_b));
        if round == 0 {
            assert_ne!(parts(&plan_a), parts(&plan_b));
        }
    }
}

#[test]
fn a_grain_killed_at_its_onset_fades_from_nothing() {
    let (mut wheel_tx, mut kill_tx, mut engine) = engine();
    wheel_tx.push(params(5, 2)).unwrap();
    kill_tx.push(FofKillRequest { id: 5, fade_dur: 9 }).unwrap();
    let plan = block(&mut engine, 8);
    // The ramp starts at the first sample, where the attack is at zero.
    assert_eq!(plan[0].runs.to_vec(), vec![run(FofPhase::FadeOut, 2, 6, 0)]);
    assert_eq!((plan[0].grain.fade_from, plan[0].grain.t_fo), (FofPhase::Attack, 0));
    let plan = block(&mut engine, 8);
    assert_eq!(plan[0].runs.to_vec(), vec![run(FofPhase::FadeOut, 0, 3, 6)]);
    assert_eq!((plan[0].grain.fade_from, plan[0].grain.t_fo), (FofPhase::Attack, 0));
}

#[test]
fn a_plan_is_replaced_by_the_next() {
    let (mut wheel_tx, _kill_tx, mut engine) = engine();
    wheel_tx.push(params(5, 0)).unwrap();
    wheel_tx.push(params(6, 0)).unwrap();
    let mut plan = Vec::new();
    engine.process_block(8, timing, fade_len, &mut plan);
    assert_eq!(plan.len(), 2);
    engine.process_block(8, timing, fade_len, &mut plan);
    assert_eq!(parts(&plan)[1].2[0], run(FofPhase::Decay, 0, 2, 8));
    assert_eq!(plan.len(), 2);
    // Their last sample was the last of the block: they die in the next one.
    engine.process_block(8, timing, fade_len, &mut plan);
    assert!(plan.len() == 2 && plan.iter().all(|part| part.runs.len() == 0));
    engine.process_block(8, timing, fade_len, &mut plan);
    assert!(plan.is_empty());
}

#[test]
fn runs_are_held_in_order() {
    let mut runs = FofRuns::none();
    assert_eq!((runs.len(), runs.get(0)), (0, None));
    let list = vec![
        run(FofPhase::Attack, 0, 4, 0),
        run(FofPhase::Decay, 4, 6, 4),
        run(FofPhase::FadeOut, 10, 2, 10),
    ];
    for (i, r) in list.iter().enumerate() {
        runs.push(*r);
        assert_eq!(runs.len(), i + 1);
        assert_eq!(runs.get(i), Some(*r));
        assert_eq!(runs.get(i + 1), None);
        assert_eq!(runs.to_vec(), list[..i + 1]);
    }
}
