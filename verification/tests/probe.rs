use rfofs::fastsin::{
    quarter_lookup, table_index, QuarterEntry, QUARTER_BITS, QUARTER_SIZE, TABLE_BITS, TABLE_SIZE,
};
use rfofs::probe::{ring_capacity, select_ports, FrameGate, SamplePlace, SampleTracker};

fn sin_table() -> Vec<f32> {
    (0..=TABLE_SIZE)
        .map(|i| (i as f32 / TABLE_SIZE as f32 * std::f32::consts::TAU).sin())
        .collect()
}

fn quarter_table() -> Vec<f32> {
    (0..=QUARTER_SIZE)
        .map(|i| (i as f32 / QUARTER_SIZE as f32 * std::f32::consts::FRAC_PI_2).sin())
        .collect()
}

fn fast_sin(table: &[f32], phase: f32) -> f32 {
    let phase = phase - phase.floor();
    table[table_index((phase * TABLE_SIZE as f32 + 0.5) as usize)]
}

fn fast_sin_quarter(table: &[f32], phase: f32) -> f32 {
    let x = (phase - phase.floor()) * 4.0;
    let quadrant = x as u32;
    let r = x - quadrant as f32;
    let entry = quarter_lookup(quadrant, (r * QUARTER_SIZE as f32 + 0.5) as usize);
    if entry.negate { -table[entry.idx] } else { table[entry.idx] }
}

#[test]
fn table_sizes() {
    assert_eq!(TABLE_SIZE, 1 << TABLE_BITS);
    assert_eq!(QUARTER_SIZE, 1 << QUARTER_BITS);
    assert_eq!((TABLE_BITS, QUARTER_BITS), (12, 10));
}

#[test]
fn matches_std_sin_closely() {
    let table = sin_table();
    let bound = std::f32::consts::PI / TABLE_SIZE as f32 * 1.5;

    let mut max_err = 0.0f32;
    for i in 0..10_000 {
        let phase = i as f32 / 10_000.0;
        let expected = (phase * std::f32::consts::TAU).sin();
        let actual = fast_sin(&table, phase);
        max_err = max_err.max((expected - actual).abs());
    }
    assert!(max_err < bound, "max error too large: {max_err} (bound {bound})");
}

#[test]
fn wraps_negative_and_large_phase() {
    let table = sin_table();
    let a = fast_sin(&table, 0.25);
    let b = fast_sin(&table, -0.75);
    let c = fast_sin(&table, 4.25);
    assert!((a - b).abs() < 1e-6);
    assert!((a - c).abs() < 1e-6);
}

#[test]
fn quarter_matches_std_sin_closely() {
    let table = quarter_table();
    let bound = std::f32::consts::PI / (4.0 * QUARTER_SIZE as f32) * 1.5;

    let mut max_err = 0.0f32;
    for i in 0..10_000 {
        let phase = i as f32 / 10_000.0;
        let expected = (phase * std::f32::consts::TAU).sin();
        let actual = fast_sin_quarter(&table, phase);
        max_err = max_err.max((expected - actual).abs());
    }
    assert!(max_err < bound, "max error too large: {max_err} (bound {bound})");
}

#[test]
fn quarter_wraps_negative_and_large_phase() {
    let table = quarter_table();
    let a = fast_sin_quarter(&table, 0.25);
    let b = fast_sin_quarter(&table, -0.75);
    let c = fast_sin_quarter(&table, 4.25);
    assert!((a - b).abs() < 1e-6);
    assert!((a - c).abs() < 1e-6);
}

#[test]
fn quarter_matches_full_table_family() {
    let full = sin_table();
    let quarter = quarter_table();
    let bound = std::f32::consts::PI / QUARTER_SIZE as f32;
    for i in 0..1000 {
        let phase = i as f32 / 1000.0;
        let a = fast_sin(&full, phase);
        let b = fast_sin_quarter(&quarter, phase);
        assert!((a - b).abs() < bound, "phase {phase}: {a} vs {b}");
    }
}

#[test]
fn table_positions() {
    assert_eq!(table_index(0), 0);
    assert_eq!(table_index(4095), 4095);
    assert_eq!(table_index(4096), 0);
    assert_eq!(table_index(10_000), 1808);
    assert_eq!(quarter_lookup(0, 10), QuarterEntry { idx: 10, negate: false });
    assert_eq!(quarter_lookup(1, 10), QuarterEntry { idx: 1014, negate: false });
    assert_eq!(quarter_lookup(2, 10), QuarterEntry { idx: 10, negate: true });
    assert_eq!(quarter_lookup(3, 10), QuarterEntry { idx: 1014, negate: true });
    assert_eq!(quarter_lookup(4, 10), quarter_lookup(0, 10));
    assert_eq!(quarter_lookup(0, 5000), QuarterEntry { idx: 1024, negate: false });
    assert_eq!(quarter_lookup(0, 1024).idx, quarter_lookup(1, 0).idx);
    assert_eq!(quarter_lookup(2, 300), quarter_lookup(3, 724));
}

#[test]
fn ports_are_selected_within_the_matches() {
    assert_eq!(select_ports(0, 2, 2), Some((0, 2)));
    assert_eq!(select_ports(1, 1, 2), Some((1, 2)));
    assert_eq!(select_ports(1, 2, 2), None);
    assert_eq!(select_ports(3, 1, 2), None);
    assert_eq!(select_ports(usize::MAX, 2, 2), None);
}

#[test]
fn the_ring_holds_two_seconds() {
    assert_eq!(ring_capacity(2, 48_000), 192_000);
    assert_eq!(ring_capacity(1, 100), 4096);
}

#[test]
fn only_whole_frames_enter() {
    let mut gate = FrameGate::new(3);
    assert!(gate.offer(3));
    assert!(!gate.offer(2));
    assert!(!gate.offer(0));
    assert!(gate.offer(100));
    assert_eq!(gate.dropped(), 2);
}

#[test]
fn samples_find_their_channel_and_chunk() {
    let mut tracker = SampleTracker::new(3);
    assert_eq!(tracker.chunk_len(), 12288);
    assert!(tracker.can_take());
    assert_eq!(tracker.take(), SamplePlace { channel: 0, at: 0, flush: false });
    assert_eq!(tracker.take(), SamplePlace { channel: 1, at: 1, flush: false });
    assert_eq!(tracker.frame_count(), 0);
    assert_eq!(tracker.take(), SamplePlace { channel: 2, at: 2, flush: false });
    assert_eq!(tracker.frame_count(), 1);
    for _ in 3..12287 {
        assert!(!tracker.take().flush);
    }
    assert_eq!(tracker.pending(), 12287);
    assert_eq!(tracker.take(), SamplePlace { channel: 2, at: 12287, flush: true });
    assert_eq!(tracker.pending(), 0);
    assert_eq!(tracker.take(), SamplePlace { channel: 0, at: 0, flush: false });
    assert_eq!(tracker.frame_count(), 4096);
}
