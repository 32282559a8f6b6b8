use rfofs::queue::{kill_queue, time_wheel};
use rfofs::schedule::{QueueStats, Schedule};
use rfofs::wheel::{RejectReason, Wheel};
use rfofs::{FofKillRequest, FofParams};

fn params(start_sample: u64) -> FofParams {
    FofParams {
        id: 0,
        start_sample,
        f: 440.0f32.to_bits(),
        gliss: 0.0f32.to_bits(),
        phi: 0.0f32.to_bits(),
        amp: 1.0f32.to_bits(),
        alpha: 0.001f32.to_bits(),
        beta: 100.0f32.to_bits(),
        fade_level: 0.001f32.to_bits(),
        fade_dur: 50.0f32.to_bits(),
        azm: 0.0f32.to_bits(),
        elev: 0.0f32.to_bits(),
        distance: 1.0f32.to_bits(),
    }
}

fn kill(id: u64) -> FofKillRequest {
    FofKillRequest { id, fade_dur: 100.0f32.to_bits() }
}

#[test]
fn wheel_event_not_fired_before_its_slot_border() {
    let mut w: Wheel<u64> = Wheel::new(4, 10, 8);
    w.schedule(1, 25).unwrap(); // slot 2: [20, 30)

    let mut out = Vec::new();
    w.advance(20, &mut out); // clock reaches 20, slot 2 not yet elapsed
    assert!(out.is_empty());
}

#[test]
fn wheel_event_fires_once_its_slot_border_is_crossed() {
    let mut w: Wheel<u64> = Wheel::new(4, 10, 8);
    w.schedule(1, 25).unwrap(); // slot 2: [20, 30)

    let mut out = Vec::new();
    w.advance(30, &mut out); // clock reaches 30, slot 2 fully elapsed
    assert_eq!(out, vec![1]);
}

#[test]
fn wheel_multiple_events_in_same_slot_fire_together_in_order() {
    let mut w: Wheel<u64> = Wheel::new(4, 10, 8);
    w.schedule(1, 21).unwrap();
    w.schedule(2, 25).unwrap();
    w.schedule(3, 29).unwrap();

    let mut out = Vec::new();
    w.advance(30, &mut out);
    assert_eq!(out, vec![1, 2, 3]);
}

#[test]
fn wheel_advance_spanning_multiple_borders_fires_oldest_slot_first() {
    let mut w: Wheel<u64> = Wheel::new(4, 10, 8);
    w.schedule(1, 5).unwrap(); // slot 0: [0, 10)
    w.schedule(2, 15).unwrap(); // slot 1: [10, 20)
    w.schedule(3, 25).unwrap(); // slot 2: [20, 30)

    let mut out = Vec::new();
    w.advance(30, &mut out);
    assert_eq!(out, vec![1, 2, 3]);
}

#[test]
fn wheel_rejects_event_beyond_horizon() {
    let mut w: Wheel<u64> = Wheel::new(4, 10, 8); // horizon = 40
    let err = w.schedule(1, 40).unwrap_err();
    assert_eq!(err, 1);
}

#[test]
fn wheel_accepts_event_at_last_valid_instant() {
    let mut w: Wheel<u64> = Wheel::new(4, 10, 8); // horizon = 40
    assert!(w.schedule(1, 39).is_ok());
}

#[test]
fn wheel_rejects_overdue_event() {
    let mut w: Wheel<u64> = Wheel::new(4, 10, 8);
    let mut out = Vec::new();
    w.advance(15, &mut out); // wheel_time now 10
    let err = w.schedule(1, 5).unwrap_err();
    assert_eq!(err, 1);
}

#[test]
fn wheel_rejects_push_into_full_slot_without_disturbing_existing() {
    let mut w: Wheel<u64> = Wheel::new(4, 10, 2);
    w.schedule(1, 1).unwrap();
    w.schedule(2, 2).unwrap();
    let err = w.schedule(3, 3).unwrap_err();
    assert_eq!(err, 3);

    let mut out = Vec::new();
    w.advance(10, &mut out);
    assert_eq!(out, vec![1, 2]);
}

#[test]
fn wheel_wraparound_reuses_slot_index_correctly() {
    let mut w: Wheel<u64> = Wheel::new(4, 10, 8);
    let mut out = Vec::new();
    // Advance clock past several full loops around the wheel (4 slots).
    w.advance(90, &mut out); // wheel_time now 90, slot_index 9
    out.clear();

    w.schedule(1, 95).unwrap(); // slot 9 % 4 == 1: [90, 100)
    w.advance(100, &mut out);
    assert_eq!(out, vec![1]);
}

#[test]
fn wheel_tells_why_it_refuses() {
    let mut w: Wheel<u64> = Wheel::new(4, 10, 1);
    assert_eq!(w.n_slots(), 4);
    assert_eq!(w.horizon(), 40);
    let mut out = Vec::new();
    w.advance(20, &mut out);
    assert_eq!(w.wheel_time(), 20);
    assert_eq!(w.reject_reason(19), Some(RejectReason::TooLate));
    assert_eq!(w.reject_reason(60), Some(RejectReason::TooEarly));
    assert_eq!(w.reject_reason(59), None);
    assert_eq!(w.slot_offset(59), 3);
    w.schedule(1, 59).unwrap();
    assert_eq!(w.reject_reason(50), Some(RejectReason::SlotFull));
}

#[test]
fn wheel_in_two_steps_is_wheel_in_one() {
    let fill = |w: &mut Wheel<u64>| {
        for t in 0..40 {
            w.schedule(t, t).unwrap();
        }
    };
    let mut one: Wheel<u64> = Wheel::new(4, 10, 16);
    let mut two: Wheel<u64> = Wheel::new(4, 10, 16);
    fill(&mut one);
    fill(&mut two);
    let (mut a, mut b) = (Vec::new(), Vec::new());
    one.advance(34, &mut a);
    two.advance(17, &mut b);
    two.advance(34, &mut b);
    assert_eq!(a, b);
    assert_eq!(a, (0..30).collect::<Vec<u64>>());
    // The clock does not run back.
    two.advance(3, &mut b);
    assert_eq!(two.wheel_time(), 30);
    assert_eq!(b.len(), 30);
}

#[test]
fn wheel_advance_far_beyond_a_full_loop_empties_it() {
    let mut w: Wheel<u64> = Wheel::new(4, 10, 8);
    w.schedule(1, 35).unwrap();
    w.schedule(2, 3).unwrap();
    let mut out = Vec::new();
    w.advance(1_000_003, &mut out);
    assert_eq!(out, vec![2, 1]);
    assert_eq!(w.wheel_time(), 1_000_000);
}

#[test]
fn wheel_representable_times() {
    let quarter = 1u64 << 62;
    let mut w: Wheel<u64> = Wheel::new(2, quarter, 8);
    assert!(w.window_fits());
    assert!(w.can_advance(2 * quarter));
    assert!(!w.can_advance(3 * quarter));
    let mut out = Vec::new();
    w.advance(2 * quarter, &mut out);
    assert_eq!(w.wheel_time(), 2 * quarter);
    assert!(!w.window_fits());
}

#[test]
fn push_ok_when_space_available() {
    let (mut tx, _rx) = time_wheel(4, 4, 10, 8);
    assert!(tx.push(params(0)).is_ok());
}

#[test]
fn push_err_when_full_returns_params() {
    let (mut tx, _rx) = time_wheel(2, 4, 10, 8);
    tx.push(params(1)).unwrap();
    tx.push(params(2)).unwrap();
    let err = tx.push(params(99)).unwrap_err();
    assert_eq!(err.start_sample, 99);
}

#[test]
fn slots_available_decreases_on_push() {
    let (mut tx, _rx) = time_wheel(4, 4, 10, 8);
    let before = tx.slots_available();
    tx.push(params(0)).unwrap();
    assert_eq!(tx.slots_available(), before - 1);
}

#[test]
fn drain_block_safe_empties_items_within_window() {
    let (mut tx, mut rx) = time_wheel(8, 8, 16, 8); // horizon = 128
    tx.push(params(0)).unwrap();
    tx.push(params(64)).unwrap();
    tx.push(params(127)).unwrap();

    let mut out = Vec::new();
    rx.drain_block_safe(0, 128, &mut out);
    assert_eq!(out.len(), 3);
}

#[test]
fn drain_block_safe_upper_bound_is_exclusive() {
    let (mut tx, mut rx) = time_wheel(8, 16, 10, 8); // D=10, horizon = 160
    tx.push(params(99)).unwrap();
    tx.push(params(100)).unwrap(); // == block_end, must NOT be included yet

    let mut out = Vec::new();
    rx.drain_block_safe(0, 100, &mut out);
    assert_eq!(out.len(), 1);
    assert_eq!(out[0].start_sample, 99);
}

#[test]
fn drain_block_safe_on_empty_produces_nothing() {
    let (_tx, mut rx) = time_wheel(4, 4, 10, 8);
    let mut out = Vec::new();
    rx.drain_block_safe(0, 128, &mut out);
    assert!(out.is_empty());
}

#[test]
fn drain_block_safe_consecutive_blocks() {
    let (mut tx, mut rx) = time_wheel(16, 16, 32, 8); // D=32, horizon=512
    for s in [0u64, 64, 128, 192] {
        tx.push(params(s)).unwrap();
    }

    let mut out = Vec::new();
    rx.drain_block_safe(0, 128, &mut out); // [0, 128)
    assert_eq!(out.iter().map(|p| p.start_sample).collect::<Vec<_>>(), [0, 64]);

    out.clear();
    rx.drain_block_safe(128, 128, &mut out); // [128, 256)
    assert_eq!(out.iter().map(|p| p.start_sample).collect::<Vec<_>>(), [128, 192]);
}

#[test]
fn drain_block_safe_defers_entries_beyond_current_horizon_instead_of_dropping() {
    // Small horizon (n_slots=4, D=16 -> horizon=64), and an entry far beyond
    // it is queued up-front.
    let (mut tx, mut rx) = time_wheel(8, 4, 16, 8);
    tx.push(params(10)).unwrap();
    tx.push(params(500)).unwrap(); // far beyond initial horizon of 64

    let mut out = Vec::new();
    rx.drain_block_safe(0, 64, &mut out);
    // Only the in-horizon entry fires; the far one is deferred, not lost.
    assert_eq!(out.len(), 1);
    assert_eq!(out[0].start_sample, 10);

    // Keep advancing the wheel's clock in block-sized steps until it reaches
    // the deferred entry's admission window.
    let mut block_start = 64u64;
    loop {
        out.clear();
        rx.drain_block_safe(block_start, 64, &mut out);
        if !out.is_empty() {
            break;
        }
        block_start += 64;
        assert!(block_start < 10_000, "deferred entry was lost, not just delayed");
    }
    assert_eq!(out[0].start_sample, 500);
}

#[test]
fn drain_block_safe_counts_what_it_refuses() {
    let (mut tx, mut rx) = time_wheel(8, 4, 10, 1);
    let mut out = Vec::new();
    rx.drain_block_safe(0, 20, &mut out);
    tx.push(params(5)).unwrap(); // behind the clock
    tx.push(params(25)).unwrap();
    tx.push(params(27)).unwrap(); // the slot is full
    tx.push(params(41)).unwrap();
    rx.drain_block_safe(20, 10, &mut out);
    assert_eq!(out.iter().map(|p| p.start_sample).collect::<Vec<_>>(), [25]);
    let stats = rx.stats();
    assert_eq!(stats.too_late, 1);
    assert_eq!(stats.too_early, 0);
    assert_eq!(stats.slot_full, 1);
    assert_eq!(stats.queue_size, 1);
    assert_eq!(stats.slot_offset_histogram, vec![1, 0, 1, 0]);
}

#[test]
fn entries_wait_behind_one_beyond_the_window() {
    let (mut tx, mut rx) = time_wheel(8, 4, 10, 8);
    tx.push(params(40)).unwrap();
    tx.push(params(5)).unwrap(); // out of order
    let mut out = Vec::new();
    rx.drain_block_safe(0, 10, &mut out);
    assert!(out.is_empty());
    // Now both are taken, and the second is too late.
    rx.drain_block_safe(10, 40, &mut out);
    assert_eq!(out.iter().map(|p| p.start_sample).collect::<Vec<_>>(), [40]);
    assert_eq!(rx.stats().too_late, 1);
}

#[test]
fn schedule_offers_and_fires() {
    let mut s = Schedule::new(4, 10, 8);
    assert_eq!(s.admit_before(), 40);
    s.offer(params(12));
    s.offer(params(40)); // beyond the horizon
    assert_eq!(s.stats().too_early, 1);
    assert_eq!(s.stats().queue_size, 1);
    assert!(s.fits(1000));
    let mut out = Vec::new();
    s.fire(20, &mut out);
    assert_eq!(out.len(), 1);
    assert_eq!(s.admit_before(), 60);
    assert_eq!(s.stats().queue_size, 0);
}

#[test]
fn schedule_drains_those_in_line_that_are_ready() {
    let mut s = Schedule::new(4, 10, 8);
    let line = vec![params(3), params(39), params(40), params(5)];
    let mut out = Vec::new();
    assert_eq!(s.drain(&line, 10, &mut out), 2);
    assert_eq!(out, vec![params(3)]);
    assert_eq!(s.stats().queue_size, 1);
    assert_eq!(s.drain(&line[2..].to_vec(), 50, &mut out), 2);
    assert_eq!(out, vec![params(3), params(39), params(40)]);
    assert_eq!(s.stats().too_late, 1);
    assert_eq!(s.drain(&Vec::new(), 60, &mut out), 0);
    assert_eq!(out.len(), 3);
}

#[test]
fn a_consumer_knows_what_it_can_represent() {
    let (_tx, rx) = time_wheel(4, 4, 10, 8);
    assert!(rx.fits(1_000_000));
    assert!(!rx.fits(u64::MAX));
}

#[test]
fn stats_start_at_zero() {
    let stats = QueueStats::zero(3);
    assert_eq!(stats.too_late + stats.too_early + stats.slot_full + stats.queue_size, 0);
    assert_eq!(stats.slot_offset_histogram, vec![0, 0, 0]);
}

#[test]
fn grains_pass_the_ring_unchanged_and_free_it() {
    let (mut tx, mut rx) = time_wheel(2, 4, 10, 8);
    let mut out = Vec::new();
    for round in 0..5u64 {
        let first = FofParams { id: round + 1, ..params(round * 10) };
        let second = FofParams { id: round + 100, ..params(round * 10 + 3) };
        tx.push(first).unwrap();
        tx.push(second).unwrap();
        assert!(tx.push(second).is_err());
        out.clear();
        rx.drain_block_safe(round * 10, 10, &mut out);
        assert_eq!(out, vec![first, second]);
        assert_eq!(tx.slots_available(), 2);
    }
}

#[test]
fn a_ring_without_slots_takes_nothing() {
    let (mut tx, _rx) = time_wheel(0, 4, 10, 8);
    assert_eq!(tx.slots_available(), 0);
    assert!(tx.push(params(0)).is_err());
    let (mut tx, mut rx) = kill_queue(0);
    assert!(tx.push(kill(1)).is_err());
    let mut out = Vec::new();
    rx.drain_all(&mut out);
    assert!(out.is_empty());
}

#[test]
fn kill_push_ok_when_space_available() {
    let (mut tx, _rx) = kill_queue(4);
    assert!(tx.push(kill(1)).is_ok());
}

#[test]
fn kill_push_err_when_full_returns_request() {
    let (mut tx, _rx) = kill_queue(1);
    tx.push(kill(1)).unwrap();
    let err = tx.push(kill(99)).unwrap_err();
    assert_eq!(err.id, 99);
}

#[test]
fn kill_drain_all_returns_all_in_order() {
    let (mut tx, mut rx) = kill_queue(8);
    tx.push(kill(1)).unwrap();
    tx.push(kill(2)).unwrap();
    tx.push(kill(3)).unwrap();

    let mut out = Vec::new();
    rx.drain_all(&mut out);
    assert_eq!(out.iter().map(|r| r.id).collect::<Vec<_>>(), [1, 2, 3]);
}

#[test]
fn kill_drain_all_on_empty_produces_nothing() {
    let (_tx, mut rx) = kill_queue(4);
    let mut out = Vec::new();
    rx.drain_all(&mut out);
    assert!(out.is_empty());
}

#[test]
fn kill_drain_all_appends_to_existing_vec() {
    let (mut tx, mut rx) = kill_queue(4);
    tx.push(kill(10)).unwrap();

    let mut out = vec![kill(99)];
    rx.drain_all(&mut out);
    assert_eq!(out.len(), 2);
    assert_eq!(out[1].id, 10);
}

#[test]
fn drain_block_safe_keeps_entries_of_a_block_longer_than_the_horizon() {
    // Horizon 64, block 128.
    let (mut tx, mut rx) = time_wheel(8, 4, 16, 8);
    tx.push(params(100)).unwrap();
    let mut out = Vec::new();
    rx.drain_block_safe(0, 128, &mut out);
    assert!(out.is_empty());
    assert_eq!(tx.slots_available(), 7);
    rx.drain_block_safe(128, 64, &mut out);
    assert_eq!(out, vec![params(100)]);
    assert_eq!(rx.stats().too_early, 0);
    assert_eq!(rx.stats().too_late, 0);
}

#[test]
fn drain_block_safe_delivers_in_blocks_longer_than_the_horizon() {
    // Horizon 64, blocks of 100, an entry every 20 samples.
    let (mut tx, mut rx) = time_wheel(64, 4, 16, 8);
    for i in 0..50 {
        tx.push(params(i * 20)).unwrap();
    }
    let mut out = Vec::new();
    for k in 0..20 {
        rx.drain_block_safe(k * 100, 100, &mut out);
    }
    assert_eq!(out.len(), 50);
    assert_eq!(rx.stats().too_late, 0);
}

#[test]
fn drain_block_due_admits_and_advances_in_turns() {
    // Horizon 20: nearly every entry needs the clock moved on.
    let (mut tx, mut rx) = time_wheel(16, 2, 10, 8);
    for start in [3, 19, 20, 41, 47, 99, 100, 131] {
        tx.push(params(start)).unwrap();
    }
    let mut out = Vec::new();
    rx.drain_block_due(0, 100, &mut out);
    let starts = |out: &Vec<FofParams>| out.iter().map(|p| p.start_sample).collect::<Vec<_>>();
    assert_eq!(starts(&out), [3, 19, 20, 41, 47, 99]);
    // What starts at the end of the block waits in the wheel, if it is inside
    // the window, and else in the ring.
    assert_eq!(rx.stats().queue_size, 1);
    assert_eq!(tx.slots_available(), 15);
    rx.drain_block_due(100, 40, &mut out);
    assert_eq!(starts(&out), [3, 19, 20, 41, 47, 99, 100, 131]);
}

#[test]
fn drain_block_due_takes_what_starts_inside_the_current_slot() {
    let (mut tx, mut rx) = time_wheel(8, 4, 16, 8);
    for start in [2, 5, 9, 15] {
        tx.push(params(start)).unwrap();
    }
    let mut out = Vec::new();
    rx.drain_block_safe(0, 6, &mut out);
    assert!(out.is_empty());
    rx.drain_block_due(0, 6, &mut out);
    assert_eq!(out, vec![params(2), params(5)]);
    assert_eq!(rx.stats().queue_size, 2);
    // One more for the slot that is current comes in time.
    tx.push(params(15)).unwrap();
    rx.drain_block_due(6, 9, &mut out);
    assert_eq!(out.len(), 3);
    rx.drain_block_due(15, 1, &mut out);
    assert_eq!(out, vec![params(2), params(5), params(9), params(15), params(15)]);
    assert_eq!(rx.stats().queue_size, 0);
    assert_eq!(rx.stats().too_late, 0);
}

#[test]
fn drains_collect_in_the_order_of_submission() {
    let (mut tx, mut rx) = time_wheel(4, 4, 8, 4);
    let starts: Vec<u64> = (0..60).map(|i| i * 3).collect();
    let mut sent = 0;
    let mut out = vec![params(7777)];
    let mut clock = 0;
    while clock < 200 {
        while sent < starts.len() && tx.push(params(starts[sent])).is_ok() {
            sent += 1;
        }
        rx.drain_block_safe(clock, 5, &mut out);
        clock += 5;
        // Nothing comes before its slot is over.
        assert!(out[1..].iter().all(|p| (p.start_sample / 8 + 1) * 8 <= clock));
    }
    assert_eq!(out[0].start_sample, 7777);
    let collected: Vec<u64> = out[1..].iter().map(|p| p.start_sample).collect();
    assert_eq!(collected, starts);
}

#[test]
fn schedule_drains_as_the_consumer_does() {
    let starts = [1u64, 30, 64, 65, 127, 128, 140];
    let (mut tx, mut rx) = time_wheel(8, 4, 16, 8);
    let mut line = Vec::new();
    for start in starts {
        tx.push(params(start)).unwrap();
        line.push(params(start));
    }
    let mut schedule = Schedule::new(4, 16, 8);
    let (mut a, mut b) = (Vec::new(), Vec::new());
    rx.drain_block_safe(0, 128, &mut a);
    assert_eq!(schedule.drain(&line, 128, &mut b), 2);
    assert_eq!(a, vec![params(1), params(30)]);
    assert_eq!(a, b);
    assert_eq!(tx.slots_available(), 8 - 5);
    rx.drain_block_safe(128, 64, &mut a);
    assert_eq!(schedule.drain(&line[2..].to_vec(), 192, &mut b), 3);
    assert_eq!(a, b);
    assert_eq!(a.len(), 5);
    assert_eq!(rx.stats().slot_offset_histogram, schedule.stats().slot_offset_histogram);
}

#[test]
fn a_ring_that_was_full_has_room_again_after_a_drain() {
    let (mut tx, mut rx) = time_wheel(2, 4, 16, 8);
    tx.push(params(1)).unwrap();
    tx.push(params(2)).unwrap();
    assert_eq!(tx.push(params(3)), Err(params(3)));
    let mut out = Vec::new();
    rx.drain_block_safe(0, 16, &mut out);
    tx.push(params(20)).unwrap();
    tx.push(params(21)).unwrap();
    assert_eq!(tx.push(params(22)), Err(params(22)));
    assert_eq!(tx.push_here(params(22), &rx), Err(params(22)));
    rx.drain_block_safe(16, 16, &mut out);
    assert_eq!(tx.push_here(params(40), &rx), Ok(()));
    assert_eq!(tx.slots_available(), 1);

    let (mut kill_tx, mut kill_rx) = kill_queue(1);
    kill_tx.push(kill(1)).unwrap();
    assert_eq!(kill_tx.push(kill(2)), Err(kill(2)));
    let mut kills = Vec::new();
    kill_rx.drain_all(&mut kills);
    kill_tx.push(kill(3)).unwrap();
    kill_rx.drain_all(&mut kills);
    assert_eq!(kills, vec![kill(1), kill(3)]);
}

#[test]
fn looking_takes_nothing() {
    let (mut tx, mut rx) = time_wheel(4, 4, 16, 8);
    rx.look(&tx);
    tx.push(params(3)).unwrap();
    rx.look(&tx);
    assert_eq!(tx.slots_available(), 3);
    let mut out = Vec::new();
    rx.drain_block_safe(0, 16, &mut out);
    assert_eq!(out, vec![params(3)]);
}

#[test]
fn free_slots_are_counted_with_both_ends_at_hand() {
    let (mut tx, mut rx) = time_wheel(2, 4, 16, 8);
    assert_eq!(tx.slots_available_here(&rx), 2);
    tx.push(params(1)).unwrap();
    assert_eq!(tx.slots_available_here(&rx), 1);
    tx.push(params(2)).unwrap();
    assert_eq!(tx.slots_available_here(&rx), 0);
    assert_eq!(tx.push(params(3)), Err(params(3)));
    let mut out = Vec::new();
    rx.drain_block_safe(0, 16, &mut out);
    assert_eq!(tx.slots_available_here(&rx), 2);
}

#[test]
fn every_kill_that_was_sent_is_drained() {
    let (mut tx, mut rx) = kill_queue(4);
    let mut out = vec![kill(99)];
    rx.drain_all(&mut out); // looks before anything is sent
    tx.push(kill(1)).unwrap();
    tx.push(kill(2)).unwrap();
    tx.push(kill(10)).unwrap();
    rx.look(&tx);
    rx.drain_all(&mut out);
    assert_eq!(out, vec![kill(99), kill(1), kill(2), kill(10)]);
    rx.drain_all_here(&tx, &mut out);
    assert_eq!(out.len(), 4);
    tx.push(kill(3)).unwrap();
    rx.drain_all_here(&tx, &mut out);
    assert_eq!(out[4..], [kill(3)]);
}

#[test]
fn a_kill_is_refused_exactly_by_a_full_ring() {
    let (mut tx, mut rx) = kill_queue(2);
    assert_eq!(tx.push_here(kill(1), &rx), Ok(()));
    assert_eq!(tx.push_here(kill(2), &rx), Ok(()));
    assert_eq!(tx.push_here(kill(3), &rx), Err(kill(3)));
    let mut out = Vec::new();
    rx.drain_all_here(&tx, &mut out);
    assert_eq!(tx.push_here(kill(4), &rx), Ok(()));
    rx.drain_all_here(&tx, &mut out);
    assert_eq!(out, vec![kill(1), kill(2), kill(4)]);
}
