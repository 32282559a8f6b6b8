//! Sound made from the plans of the library, held against a per-sample
//! synthesis.
use rfofs::engine::GrainBlock;
use rfofs::fof::{FofPhase, FofRun, FofState, FofTiming};
use rfofs::offline::interleave;
use rfofs::pan::PanTerm;
use rfofs::{FofParams, OfflineRenderer, PanMode};

const SR: f32 = 48000.0;

/// The parameters of a grain as numbers.
#[derive(Clone, Copy)]
struct Grain {
    start_sample: u64,
    f: f32,
    gliss: f32,
    amp: f32,
    alpha: f32,
    beta: f32,
    fade_level: f32,
    fade_dur: f32,
    azm: f32,
}

impl Grain {
    fn params(self) -> FofParams {
        FofParams {
            id: 0,
            start_sample: self.start_sample,
            f: self.f.to_bits(),
            gliss: self.gliss.to_bits(),
            phi: 0.0f32.to_bits(),
            amp: self.amp.to_bits(),
            alpha: self.alpha.to_bits(),
            beta: self.beta.to_bits(),
            fade_level: self.fade_level.to_bits(),
            fade_dur: self.fade_dur.to_bits(),
            azm: self.azm.to_bits(),
            elev: 0.0f32.to_bits(),
            distance: 1.0f32.to_bits(),
        }
    }
}

fn standard_params() -> Grain {
    Grain {
        start_sample: 0,
        f: 440.0,
        gliss: 0.0,
        amp: 1.0,
        alpha: 20.0,
        beta: 0.01,
        fade_level: 0.001,
        fade_dur: 0.01,
        azm: 0.0,
    }
}

fn whole_samples(seconds: f32) -> u32 {
    (seconds * SR).max(0.0).ceil() as u32
}

fn fade_len(bits: u32) -> u32 {
    whole_samples(f32::from_bits(bits))
}

fn timing(p: FofParams) -> FofTiming {
    let alpha = f32::from_bits(p.alpha);
    let fade_level = f32::from_bits(p.fade_level);
    FofTiming {
        attack_len: fade_len(p.beta),
        decay_len: if alpha > 0.0 && fade_level > 0.0 {
            Some((-fade_level.ln() / (alpha / SR)).max(0.0).ceil() as u32)
        } else {
            None
        },
        fade_len: fade_len(p.fade_dur),
    }
}

fn fof_amax(alpha: f32, beta: f32) -> f32 {
    let x = alpha * beta;
    if x < 0.01 {
        1.0
    } else if x <= 10.0 {
        let x = x.ln();
        let x2 = x * x;
        (-0.02677 * x2 * x - 0.2582 * x2 - 0.8238 * x - 0.9322).exp()
    } else {
        0.0
    }
}

fn amp_scale(alpha: f32, beta: f32) -> f32 {
    let peak = fof_amax(alpha, beta);
    if peak > 0.0 { 1.0 / peak } else { 0.0 }
}

/// Envelope of a grain at `t` in a phase other than the fade-out.
fn envelope_at(p: &FofParams, phase: FofPhase, t: u32) -> f32 {
    let t = t as f32;
    let decay = (-f32::from_bits(p.alpha) / SR * t).exp();
    let beta_samples = f32::from_bits(p.beta) * SR;
    match phase {
        FofPhase::Attack => 0.5 * (1.0 - (std::f32::consts::PI * t / beta_samples).cos()) * decay,
        _ => decay,
    }
}

/// Add the samples that runs of a grain stand for to `buf`.
fn synthesize(grain: &FofState, runs: &[FofRun], buf: &mut [f32]) {
    let p = &grain.params;
    let amp = f32::from_bits(p.amp) * amp_scale(f32::from_bits(p.alpha), f32::from_bits(p.beta));
    let ln_r = f32::from_bits(p.gliss) * std::f32::consts::LN_2 / SR;
    let denom = ln_r.exp_m1();
    let f_over_sr = f32::from_bits(p.f) / SR;
    for run in runs {
        for k in 0..run.len {
            let t = run.t + k as u32;
            let env = match run.phase {
                FofPhase::FadeOut => {
                    let elapsed = (t - grain.t_fo) as f32;
                    let dur = f32::from_bits(grain.fade_dur) * SR;
                    envelope_at(p, grain.fade_from, grain.t_fo) * (1.0 - elapsed / dur).max(0.0)
                }
                phase => envelope_at(p, phase, t),
            };
            let cycles = if denom != 0.0 {
                f_over_sr / denom * (t as f32 * ln_r).exp_m1()
            } else {
                f_over_sr * t as f32
            };
            let cycles = cycles - cycles.floor();
            buf[run.offset + k] += amp * env * (cycles * std::f32::consts::TAU).sin();
        }
    }
}

/// One sample at a time, with its own idea of when phases end.
struct NaiveRef {
    params: Grain,
    phase: FofPhase,
    carrier_phase: f32,
    f_current: f32,
    log_f_factor: f32,
    t: u32,
    env_at_fo: f32,
    t_fo: u32,
    effective_fade_dur: f32,
    amp_scale: f32,
    beta_samples: f32,
    alpha_per_sample: f32,
}

impl NaiveRef {
    fn spawn(params: Grain) -> Self {
        NaiveRef {
            params,
            phase: FofPhase::Attack,
            carrier_phase: 0.0,
            f_current: params.f,
            log_f_factor: (params.gliss * std::f32::consts::LN_2 / SR).exp(),
            t: 0,
            env_at_fo: 0.0,
            t_fo: 0,
            effective_fade_dur: params.fade_dur * SR,
            amp_scale: amp_scale(params.alpha, params.beta),
            beta_samples: params.beta * SR,
            alpha_per_sample: params.alpha / SR,
        }
    }

    fn envelope(&self) -> f32 {
        let t = self.t as f32;
        match self.phase {
            FofPhase::Attack => {
                let rise = 0.5 * (1.0 - (std::f32::consts::PI * t / self.beta_samples).cos());
                rise * (-self.alpha_per_sample * t).exp()
            }
            FofPhase::Decay => (-self.alpha_per_sample * t).exp(),
            FofPhase::FadeOut => {
                let elapsed = (self.t - self.t_fo) as f32;
                self.env_at_fo * (1.0 - elapsed / self.effective_fade_dur).max(0.0)
            }
            FofPhase::Dead => 0.0,
        }
    }

    fn fill_block(&mut self, block_start: u64, buf: &mut [f32]) {
        if self.phase == FofPhase::Dead {
            return;
        }
        let start_offset = self.params.start_sample.saturating_sub(block_start) as usize;
        for x in buf.iter_mut().skip(start_offset) {
            if self.phase == FofPhase::Dead {
                break;
            }
            let sine = (self.carrier_phase * std::f32::consts::TAU).sin();
            *x += self.params.amp * self.amp_scale * self.envelope() * sine;

            self.carrier_phase += self.f_current / SR;
            self.carrier_phase -= self.carrier_phase.floor();
            self.f_current *= self.log_f_factor;
            self.t += 1;
            self.update_phase();
        }
    }

    fn trigger_fade_out(&mut self, fade_dur: f32) {
        if matches!(self.phase, FofPhase::FadeOut | FofPhase::Dead) {
            return;
        }
        self.env_at_fo = self.envelope();
        self.t_fo = self.t;
        self.effective_fade_dur = fade_dur * SR;
        self.phase = FofPhase::FadeOut;
    }

    fn update_phase(&mut self) {
        match self.phase {
            FofPhase::Attack => {
                if self.t as f32 >= self.beta_samples {
                    self.phase = FofPhase::Decay;
                }
            }
            FofPhase::Decay => {
                let env = (-self.alpha_per_sample * self.t as f32).exp();
                if env < self.params.fade_level {
                    self.env_at_fo = env;
                    self.t_fo = self.t;
                    self.effective_fade_dur = self.params.fade_dur * SR;
                    self.phase = FofPhase::FadeOut;
                }
            }
            FofPhase::FadeOut => {
                if (self.t - self.t_fo) as f32 >= self.effective_fade_dur {
                    self.phase = FofPhase::Dead;
                }
            }
            FofPhase::Dead => {}
        }
    }
}

fn assert_matches_naive(
    params: Grain,
    n_blocks: usize,
    block_size: usize,
    kill_at_block: Option<(usize, f32)>,
) {
    let mut fast = FofState::spawn(params.params(), timing(params.params()));
    let mut naive = NaiveRef::spawn(params);
    let tol = std::f32::consts::PI / 4096.0 * 1.5 * 4.0 + 1e-4;

    for block in 0..n_blocks {
        let block_start = (block * block_size) as u64;
        let mut fast_buf = vec![0.0f32; block_size];
        let mut naive_buf = vec![0.0f32; block_size];

        let runs = fast.fill_block(block_start, block_size);
        synthesize(&fast, &runs.to_vec(), &mut fast_buf);
        naive.fill_block(block_start, &mut naive_buf);

        if let Some((kill_block, fade_dur)) = kill_at_block {
            if block == kill_block {
                fast.trigger_fade_out(fade_dur.to_bits(), whole_samples(fade_dur));
                naive.trigger_fade_out(fade_dur);
            }
        }

        for (i, (&f, &n)) in fast_buf.iter().zip(naive_buf.iter()).enumerate() {
            assert!(f.is_finite(), "block {block} sample {i}: output not finite ({f})");
            assert!(
                (f - n).abs() < tol,
                "block {block} sample {i}: fast={f} naive={n} diff={} tol={tol}",
                (f - n).abs()
            );
        }
    }
}

#[test]
fn attack_decay_fadeout_natural_progression() {
    assert_matches_naive(standard_params(), 40, 512, None);
}

#[test]
fn kill_triggered_fade_out_mid_decay() {
    assert_matches_naive(standard_params(), 40, 512, Some((2, 0.05)));
}

#[test]
fn kill_triggered_fade_out_during_attack() {
    let mut params = standard_params();
    params.beta = 0.5; // long attack (24k samples) so a kill lands inside it
    assert_matches_naive(params, 10, 512, Some((0, 0.02)));
}

#[test]
fn no_glissando_matches_naive() {
    let mut params = standard_params();
    params.gliss = 0.0;
    assert_matches_naive(params, 20, 512, None);
}

#[test]
fn positive_glissando_matches_naive() {
    let mut params = standard_params();
    params.gliss = 3.0; // 3 oct/sec upward
    assert_matches_naive(params, 5, 512, None);
}

#[test]
fn negative_glissando_matches_naive() {
    let mut params = standard_params();
    params.gliss = -2.5;
    assert_matches_naive(params, 5, 512, None);
}

#[test]
fn small_glissando_avoids_cancellation() {
    let mut params = standard_params();
    params.gliss = 1.0;
    params.alpha = 2.0;
    assert_matches_naive(params, 5, 512, None);
}

#[test]
fn sub_block_start_offset_matches_naive() {
    let mut params = standard_params();
    params.start_sample = 137; // mid-block start within block 0 (size 512)
    assert_matches_naive(params, 20, 512, None);
}

#[test]
fn multi_block_continuity_matches_naive() {
    assert_matches_naive(standard_params(), 300, 64, None);
}

#[test]
fn zero_beta_no_nan_and_terminates() {
    let mut params = standard_params();
    params.beta = 0.0;
    let mut fast = FofState::spawn(params.params(), timing(params.params()));
    for block in 0..40u64 {
        let mut buf = vec![0.0f32; 512];
        let runs = fast.fill_block(block * 512, 512);
        synthesize(&fast, &runs.to_vec(), &mut buf);
        for (i, &s) in buf.iter().enumerate() {
            assert!(s.is_finite(), "block {block} sample {i}: non-finite ({s})");
        }
    }
    assert_eq!(fast.phase, FofPhase::Dead);
}

#[test]
fn zero_fade_dur_kill_dies_immediately() {
    let params = standard_params().params();
    let mut fast = FofState::spawn(params, timing(params));
    fast.fill_block(0, 512);
    fast.trigger_fade_out(0.0f32.to_bits(), whole_samples(0.0));
    fast.fill_block(512, 512);
    assert_eq!(fast.phase, FofPhase::Dead);
}

#[test]
fn dies_eventually_and_stays_silent() {
    let params = standard_params().params();
    let mut fast = FofState::spawn(params, timing(params));
    let mut block_start = 0u64;
    loop {
        fast.fill_block(block_start, 512);
        block_start += 512;
        if fast.phase == FofPhase::Dead {
            break;
        }
        assert!(block_start < 10 * SR as u64, "FOF did not die within 10s");
    }
    // A further block after death must stay silent.
    let mut buf = vec![0.0f32; 512];
    let runs = fast.fill_block(block_start, 512);
    synthesize(&fast, &runs.to_vec(), &mut buf);
    assert!(buf.iter().all(|&s| s == 0.0));
}

/// Turn plans of blocks into interleaved stereo.
fn render(plans: Vec<Vec<GrainBlock>>, block_size: usize, out: &mut Vec<f32>) {
    let feeds = PanMode::Stereo.layout(true);
    for plan in plans {
        let mut channels = vec![vec![0.0f32; block_size]; feeds.len()];
        for part in &plan {
            let mut mono = vec![0.0f32; block_size];
            synthesize(&part.grain, &part.runs.to_vec(), &mut mono);
            let half = std::f32::consts::FRAC_PI_2;
            let angle = (f32::from_bits(part.grain.params.azm).clamp(-half, half) + half) * 0.5;
            for (ch, feed) in feeds.iter().enumerate() {
                let gain = match feed.map(|f| f.term) {
                    Some(PanTerm::Left) => angle.cos(),
                    Some(PanTerm::Right) => angle.sin(),
                    _ => 0.0,
                };
                for (o, m) in channels[ch].iter_mut().zip(mono.iter()) {
                    *o += m * gain;
                }
            }
        }
        out.extend(interleave(&channels, block_size));
    }
}

#[test]
fn offline_render_produces_nonsilent_wav() {
    let block_size = 512;
    let pan_mode = PanMode::parse("stereo").expect("invalid pan mode");
    let mut renderer = OfflineRenderer::open(SR as usize, pan_mode, block_size);
    let mut samples = Vec::new();

    let notes: &[(u64, f32, f32)] = &[
        (9_600, 261.63, 0.0),   // C4 at 0.2 s,  centre
        (19_200, 329.63, -1.0), // E4 at 0.4 s,  left
        (28_800, 392.00, 1.0),  // G4 at 0.6 s,  right
        (38_400, 523.25, 0.0),  // C5 at 0.8 s,  centre
        (48_000, 392.00, -1.0), // G4 at 1.0 s,  left
    ];
    for &(start_sample, f, azm) in notes {
        let note = Grain {
            start_sample,
            f,
            gliss: 0.0,
            amp: 0.5,
            alpha: 10.0,
            beta: 0.01,
            fade_level: 0.001,
            fade_dur: 0.01,
            azm,
        };
        let plans = renderer.add_fof(note.params(), timing, fade_len).expect("time wheel full");
        render(plans, block_size, &mut samples);
    }
    render(renderer.close(timing, fade_len), block_size, &mut samples);

    assert_eq!(pan_mode.channel_count(), 2);
    assert!(!samples.is_empty(), "rendering should contain samples");
    assert!(
        samples.iter().any(|&s| s.abs() > 1e-4),
        "rendered audio should not be silent"
    );
    // Silence before the first onset, and the first note sounds at its start.
    assert!(samples[..2 * 9_600].iter().all(|&s| s == 0.0));
    assert!(samples[2 * 9_600..2 * 9_700].iter().any(|&s| s.abs() > 1e-4));
}

#[test]
fn continuous_fofs_produce_signal_throughout() {
    let sample_rate = SR;
    let block_size = 512;
    let pan_mode = PanMode::parse("stereo").expect("invalid pan mode");

    let duration_s = 60.0; // ~1 minute of rendered audio
    let fofs_per_second = 15.0;
    let interval_samples = (sample_rate / fofs_per_second) as u64;
    let n_fofs = (duration_s * fofs_per_second) as u64;

    let beta = 0.005; // 5 ms attack
    let fade_level = 0.001f32;
    let fof_duration_s = 0.2;
    let alpha = -fade_level.ln() / (fof_duration_s - beta);

    let mut renderer = OfflineRenderer::open(sample_rate as usize, pan_mode, block_size);
    let mut samples = Vec::new();

    let freqs = [261.63, 293.66, 329.63, 392.00, 440.00]; // C4 D4 E4 G4 A4
    let azms = [-1.0, 0.0, 1.0];

    for i in 0..n_fofs {
        let grain = Grain {
            start_sample: i * interval_samples,
            f: freqs[(i as usize) % freqs.len()],
            gliss: 0.0,
            amp: 0.5,
            alpha,
            beta,
            fade_level,
            fade_dur: 0.01,
            azm: azms[(i as usize) % azms.len()],
        };
        let plans = renderer.add_fof(grain.params(), timing, fade_len).expect("time wheel full");
        render(plans, block_size, &mut samples);
    }
    render(renderer.close(timing, fade_len), block_size, &mut samples);

    let n_channels = pan_mode.channel_count();
    assert_eq!(n_channels, 2);
    let n_frames = samples.len() / n_channels;
    assert!(n_frames > 0, "rendering should contain samples");

    let warmup_frames = (sample_rate * 0.3) as usize;
    let start_frame = warmup_frames.min(n_frames);
    let end_frame = n_frames.saturating_sub(warmup_frames).max(start_frame);
    let window_frames = (sample_rate * 0.05) as usize;
    let threshold = 1e-4;

    let mut frame = start_frame;
    while frame < end_frame {
        let window_end = (frame + window_frames).min(end_frame);
        let has_signal = (frame..window_end).any(|fr| {
            (0..n_channels).any(|ch| samples[fr * n_channels + ch].abs() > threshold)
        });
        assert!(
            has_signal,
            "silence detected in [{:.3}s, {:.3}s)",
            frame as f32 / sample_rate,
            window_end as f32 / sample_rate,
        );
        frame = window_end;
    }
}

#[test]
fn offline_clock_stays_just_behind_the_grains() {
    let mut renderer = OfflineRenderer::open(48_000, PanMode::Mono, 256);
    let grain = |start_sample| Grain { start_sample, ..standard_params() }.params();
    assert_eq!(renderer.add_fof(grain(256), timing, fade_len).unwrap().len(), 0);
    assert_eq!(renderer.add_fof(grain(257), timing, fade_len).unwrap().len(), 1);
    assert_eq!(renderer.sample_clock(), 256);
    assert_eq!(renderer.add_fof(grain(2000), timing, fade_len).unwrap().len(), 6);
    assert_eq!(renderer.sample_clock(), 1792);
    assert_eq!(renderer.last_start_sample(), 2000);
    let plans = renderer.close(timing, fade_len);
    // The last grain sounds for 16579 samples of decay and 480 of fade-out.
    assert_eq!(renderer.sample_clock() as usize, 1792 + plans.len() * 256);
    assert!(renderer.sample_clock() > 2000 + 17_000);
    assert!(renderer.sample_clock() < 2000 + 17_600);
}

#[test]
fn offline_tail_is_limited() {
    let mut renderer = OfflineRenderer::open(1000, PanMode::Mono, 256);
    let mut endless = standard_params();
    endless.alpha = 0.0;
    renderer.add_fof(endless.params(), timing, fade_len).unwrap();
    let plans = renderer.close(timing, fade_len);
    assert_eq!(plans.len(), 1 + 30_000 / 256);
    assert_eq!(plans.last().unwrap().len(), 1);
}

#[test]
fn offline_schedule_can_be_full() {
    let mut renderer = OfflineRenderer::open(48_000, PanMode::Mono, 256);
    let p = standard_params().params();
    for _ in 0..4096 {
        assert!(renderer.add_fof(p, timing, fade_len).is_ok());
    }
    match renderer.add_fof(p, timing, fade_len) {
        Err(back) => assert_eq!(back, p),
        Ok(_) => panic!("the schedule holds 4096 grains"),
    }
}

#[test]
fn channels_are_interleaved() {
    let channels = vec![vec![1, 2, 3], vec![10, 20, 30]];
    assert_eq!(interleave(&channels, 3), vec![1, 10, 2, 20, 3, 30]);
    assert_eq!(interleave(&channels, 2), vec![1, 10, 2, 20]);
    assert_eq!(interleave(&Vec::<Vec<u8>>::new(), 5), Vec::<u8>::new());
}

#[test]
fn offline_grain_is_played_to_its_end_with_short_blocks() {
    let mut renderer = OfflineRenderer::open(48_000, PanMode::Mono, 64);
    let grain = Grain { start_sample: 10, ..standard_params() }.params();
    let mut plans = renderer.add_fof(grain, timing, fade_len).unwrap();
    plans.extend(renderer.close(timing, fade_len));
    assert!(plans.len() * 64 >= 17_069);
    assert!(plans.len() * 64 < 17_069 + 64);
    // It sounds from its sample on, and without a gap.
    assert_eq!(plans[0][0].runs.to_vec()[0].offset, 10);
    assert!(plans.iter().all(|plan| plan.len() == 1));
    assert_eq!(plans.last().unwrap()[0].grain.phase, FofPhase::Dead);
    let samples: usize = plans.iter().flatten().flat_map(|part| part.runs.to_vec()).map(|r| r.len).sum();
    assert_eq!(samples, 17_059);
}

#[test]
fn offline_every_grain_is_played_unless_its_slot_is_full() {
    let mut renderer = OfflineRenderer::open(48_000, PanMode::Mono, 100);
    let grain = |id, start_sample| {
        let mut p = Grain { start_sample, ..standard_params() }.params();
        p.id = id;
        p
    };
    let mut plans = Vec::new();
    // A slot holds 64 grains.
    for id in 1..=66 {
        plans.extend(renderer.add_fof(grain(id, 300), timing, fade_len).unwrap());
    }
    plans.extend(renderer.add_fof(grain(67, 512), timing, fade_len).unwrap());
    plans.extend(renderer.add_fof(grain(68, 200_000), timing, fade_len).unwrap());
    plans.extend(renderer.close(timing, fade_len));
    let mut died: Vec<u64> = Vec::new();
    let mut started: Vec<u64> = Vec::new();
    for (k, plan) in plans.iter().enumerate() {
        for part in plan {
            if part.runs.get(0).map_or(false, |r| r.t == 0) {
                let sample = (k * 100 + part.runs.to_vec()[0].offset) as u64;
                assert_eq!(sample, part.grain.params.start_sample);
                started.push(part.grain.params.id);
            }
            if part.grain.phase == FofPhase::Dead {
                died.push(part.grain.params.id);
            }
        }
    }
    let expected: Vec<u64> = (1..=64).chain(67..=68).collect();
    started.sort();
    died.sort();
    assert_eq!(started, expected);
    assert_eq!(died, expected);
}

#[test]
fn offline_takes_grains_as_long_as_there_is_room() {
    let mut renderer = OfflineRenderer::open(48_000, PanMode::Mono, 256);
    let short = |_: FofParams| FofTiming { attack_len: 1, decay_len: Some(2), fade_len: 1 };
    let grain = |start_sample| Grain { start_sample, ..standard_params() }.params();
    // More in all than wait at a time.
    for i in 0..10_000u64 {
        assert!(renderer.add_fof(grain(i * 20), short, fade_len).is_ok());
    }
    // As many at once as there is room for, all far ahead of the clock.
    let mut renderer = OfflineRenderer::open(48_000, PanMode::Mono, 256);
    for _ in 0..4096 {
        assert!(renderer.add_fof(grain(0), short, fade_len).is_ok());
    }
    assert!(renderer.add_fof(grain(0), short, fade_len).is_err());
    // A refused grain leaves things as they are.
    assert_eq!(renderer.last_start_sample(), 0);
    assert_eq!(renderer.sample_clock(), 0);
    let plans = renderer.close(short, fade_len);
    assert_eq!(plans[0].len(), 64);
}
