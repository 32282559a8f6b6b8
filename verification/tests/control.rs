use rfofs::client::{
    forward, reply, rfofs_add_fof, rfofs_block_size, rfofs_clock_mode, rfofs_connect,
    rfofs_current_sample, rfofs_disconnect, rfofs_get_stats, rfofs_kill, rfofs_sample_rate,
    rfofs_set_clock_mode, RfofsStats,
};
use rfofs::clock::{RFOFS_CLOCK_JACK_FRAME_TIME, RFOFS_CLOCK_JACK_TRANSPORT};
use rfofs::queue::{kill_queue, time_wheel};
use rfofs::schedule::QueueStats;
use rfofs::setup::{
    AttachAction, AttachError, AttachEvent, AttachState, CreateAction, CreateState, Outcome,
};
use rfofs::shm::{
    pop_slot, publication, push_slot, shm_name, HeaderStore, Ring, SharedControlBlock, FOF_CAP,
    KILL_CAP, MAGIC, SHM_NAME, SHM_NAME_ENV, VERSION,
};
use rfofs::{FofKillRequest, FofParams};

fn params(start_sample: u64) -> FofParams {
    FofParams {
        id: 0,
        start_sample,
        f: 440.0f32.to_bits(),
        gliss: 0.0f32.to_bits(),
        phi: 0.0f32.to_bits(),
        amp: 1.0f32.to_bits(),
        alpha: 0.001f32.to_bits(),
        beta: 100.0f32.to_bits(),
        fade_level: 0.001f32.to_bits(),
        fade_dur: 50.0f32.to_bits(),
        azm: 0.0f32.to_bits(),
        elev: 0.0f32.to_bits(),
        distance: 1.0f32.to_bits(),
    }
}

fn running_block() -> SharedControlBlock {
    let mut block = SharedControlBlock::blank(4);
    block.publish(48_000.0f32.to_bits(), 256, RFOFS_CLOCK_JACK_FRAME_TIME);
    block
}

#[test]
fn ring_push_pop_preserves_order_single_threaded() {
    let mut ring: Ring<u64, 4> = Ring::new(0u64);
    ring.try_push(1).unwrap();
    ring.try_push(2).unwrap();
    ring.try_push(3).unwrap();
    assert_eq!(ring.try_pop(), Some(1));
    assert_eq!(ring.try_pop(), Some(2));
    assert_eq!(ring.try_pop(), Some(3));
    assert_eq!(ring.try_pop(), None);
}

#[test]
fn ring_rejects_push_when_full() {
    let mut ring: Ring<u64, 2> = Ring::new(0u64);
    ring.try_push(1).unwrap();
    ring.try_push(2).unwrap();
    assert_eq!(ring.try_push(3), Err(3));
    assert_eq!(ring.try_pop(), Some(1));
    // Freed a slot — push should succeed again.
    ring.try_push(3).unwrap();
    assert_eq!(ring.try_pop(), Some(2));
    assert_eq!(ring.try_pop(), Some(3));
}

#[test]
fn shared_control_block_fof_and_kill_rings_are_independent() {
    assert!(std::mem::size_of::<SharedControlBlock>() > 0);
    let p1 = params(10);
    let p2 = params(20);
    assert_ne!(p1.start_sample, p2.start_sample);

    let mut block = running_block();
    block.try_push_fof(p1).unwrap();
    let req = FofKillRequest { id: 7, fade_dur: 0 };
    block.try_push_kill(req).unwrap();
    block.try_push_fof(p2).unwrap();
    assert_eq!(block.try_pop_kill(), Some(req));
    assert_eq!(block.try_pop_kill(), None);
    assert_eq!(block.try_pop_fof(), Some(p1));
    assert_eq!(block.try_pop_fof(), Some(p2));
    assert_eq!(block.try_pop_fof(), None);
}

#[test]
fn set_clock_mode_rejects_unknown_values() {
    let mut block = running_block();
    let before = block.clock_mode();
    assert!(!block.set_clock_mode(0xDEAD_BEEF));
    assert_eq!(block.clock_mode(), before, "rejected write must not mutate stored mode");
    assert!(block.set_clock_mode(RFOFS_CLOCK_JACK_TRANSPORT));
    assert_eq!(block.clock_mode(), RFOFS_CLOCK_JACK_TRANSPORT);
}

#[test]
fn ring_of_odd_capacity_wraps() {
    let mut ring: Ring<u64, 3> = Ring::new(0u64);
    for i in 0..100 {
        ring.try_push(2 * i).unwrap();
        ring.try_push(2 * i + 1).unwrap();
        assert_eq!(ring.try_pop(), Some(2 * i));
        assert_eq!(ring.try_pop(), Some(2 * i + 1));
    }
    assert_eq!(ring.try_pop(), None);
}

#[test]
fn control_rings_hold_what_they_say() {
    let mut block = running_block();
    for i in 0..FOF_CAP as u64 {
        assert_eq!(block.try_push_fof(params(i)), Ok(()));
    }
    assert_eq!(block.try_push_fof(params(9999)), Err(params(9999)));
    for i in 0..KILL_CAP as u64 {
        assert_eq!(block.try_push_kill(FofKillRequest { id: i, fade_dur: 1 }), Ok(()));
    }
    let late = FofKillRequest { id: 9999, fade_dur: 1 };
    assert_eq!(block.try_push_kill(late), Err(late));
    for i in 0..FOF_CAP as u64 {
        assert_eq!(block.try_pop_fof(), Some(params(i)));
    }
    assert_eq!(block.try_pop_fof(), None);
}

#[test]
fn ring_steps_across_the_wrap_of_the_counters() {
    assert_eq!(push_slot(0, 0, 4), Some((0, 1)));
    assert_eq!(push_slot(0, 4, 4), None);
    assert_eq!(push_slot(u64::MAX - 1, u64::MAX, 4), Some((3, 0)));
    assert_eq!(push_slot(u64::MAX - 1, 1, 4), Some((1, 2)));
    assert_eq!(push_slot(u64::MAX - 1, 2, 4), None);
    assert_eq!(pop_slot(5, 5, 4), None);
    assert_eq!(pop_slot(5, 6, 4), Some((1, 6)));
    assert_eq!(pop_slot(u64::MAX, 0, 4), Some((3, 0)));
}

#[test]
fn stale_counters_are_safe() {
    // The consumer has moved on from 2 to 5; the producer still sees 2.
    assert_eq!(push_slot(2, 5, 4), push_slot(5, 5, 4));
    // The producer has moved on from 3 to 6; the consumer still sees 3.
    assert_eq!(pop_slot(2, 3, 4), pop_slot(2, 6, 4));
}

#[test]
fn interleaved_steps_lose_and_repeat_nothing() {
    const CAP: usize = 4;
    // The counters start shortly before they wrap.
    let start = u64::MAX - 5;
    let (mut head, mut tail) = (start, start);
    let mut slots = [None::<u64>; CAP];
    // Each side works with the other's counter as it last saw it.
    let (mut seen_head, mut seen_tail) = (start, start);
    let (mut pushed, mut popped) = (0u64, 0u64);
    let mut seed = 12345u32;
    for _ in 0..10_000 {
        seed = seed.wrapping_mul(1_664_525).wrapping_add(1_013_904_223);
        match seed >> 30 {
            0 => seen_head = head,
            1 => seen_tail = tail,
            2 => {
                if let Some((slot, next)) = push_slot(seen_head, tail, CAP) {
                    assert!(pushed - popped < CAP as u64);
                    slots[slot] = Some(pushed);
                    tail = next;
                    pushed += 1;
                } else {
                    // Refused: the ring was full when the producer looked.
                    assert_eq!(tail.wrapping_sub(seen_head), CAP as u64);
                }
            }
            _ => {
                if let Some((slot, next)) = pop_slot(head, seen_tail, CAP) {
                    assert_eq!(slots[slot].take(), Some(popped));
                    head = next;
                    popped += 1;
                }
            }
        }
        // Undisturbed, and with a fresh look, the answers are exact.
        assert_eq!(push_slot(head, tail, CAP).is_none(), pushed - popped == CAP as u64);
        assert_eq!(pop_slot(head, tail, CAP).is_none(), pushed == popped);
    }
    assert!(popped > 1000);
}

#[test]
fn segment_name_can_be_overridden() {
    assert_eq!(SHM_NAME, "/rfofs_ctl");
    assert_eq!(SHM_NAME_ENV, "RFOFS_SHM_NAME");
    assert_eq!(shm_name(None), "/rfofs_ctl");
    assert_eq!(shm_name(Some("/mine".to_string())), "/mine");
}

#[test]
fn publication_ends_with_ready() {
    assert_eq!(
        publication(7, 256, 2),
        vec![
            HeaderStore::Magic(0x5246_4F46_535F_4331),
            HeaderStore::Version(1),
            HeaderStore::SampleRateBits(7),
            HeaderStore::BlockSize(256),
            HeaderStore::ClockMode(2),
            HeaderStore::StatsEnabled(1),
            HeaderStore::Ready(1),
        ]
    );
    let mut block = SharedControlBlock::blank(1);
    assert!(!block.stats_enabled());
    for store in publication(7, 256, 2) {
        assert_eq!(block.header().ready, 0);
        block.store(store);
    }
    let header = block.header();
    assert_eq!(header.ready, 1);
    assert_eq!((header.magic, header.version), (MAGIC, VERSION));
    assert_eq!((block.sample_rate(), block.block_size(), block.clock_mode()), (7, 256, 2));
    assert!(block.stats_enabled());
}

#[test]
fn control_block_words() {
    let mut block = running_block();
    assert_eq!(f32::from_bits(block.sample_rate()), 48_000.0);
    assert_eq!(block.block_size(), 256);
    assert_eq!(block.current_sample(), 0);
    block.set_current_sample(12345);
    assert_eq!(block.current_sample(), 12345);
    assert_eq!(block.stats().slot_offset_histogram.len(), 4);
    let mut stats = QueueStats::zero(4);
    stats.too_late = 3;
    block.set_stats(stats);
    assert_eq!(block.stats().too_late, 3);
}

/// Run the creation of a segment on given outcomes; give the actions and the
/// last state.
fn create(outcomes: &[Outcome]) -> (Vec<CreateAction>, CreateState) {
    let mut state = CreateState::Start;
    let mut actions = Vec::new();
    for &outcome in outcomes {
        actions.push(state.action());
        state = state.next(outcome);
    }
    (actions, state)
}

#[test]
fn creation_of_a_fresh_segment() {
    let (actions, state) = create(&[Outcome::Done, Outcome::Done, Outcome::Done, Outcome::Done]);
    assert_eq!(
        actions,
        vec![
            CreateAction::OpenExclusive,
            CreateAction::Truncate,
            CreateAction::MapMemory,
            CreateAction::Close,
        ]
    );
    assert_eq!(state, CreateState::Created);
    assert_eq!(state.action(), CreateAction::Publish);
}

#[test]
fn creation_clears_a_stale_segment_once() {
    let (actions, state) = create(&[
        Outcome::Exists(17),
        Outcome::Failed(1),
        Outcome::Done,
        Outcome::Done,
        Outcome::Done,
        Outcome::Done,
    ]);
    assert_eq!(actions[1], CreateAction::Unlink);
    assert_eq!(actions[2], CreateAction::OpenExclusive);
    assert_eq!(state, CreateState::Created);
    let (_, state) = create(&[Outcome::Exists(17), Outcome::Done, Outcome::Exists(17)]);
    assert_eq!(state, CreateState::Failed(17));
    assert_eq!(state.action(), CreateAction::GiveUp(17));
}

#[test]
fn creation_fails_with_the_error_that_stands() {
    assert_eq!(create(&[Outcome::Failed(13)]).1, CreateState::Failed(13));
    let (actions, state) = create(&[Outcome::Done, Outcome::Failed(28), Outcome::Failed(9)]);
    assert_eq!(actions[2], CreateAction::Close);
    assert_eq!(state, CreateState::Failed(28));
    let (actions, state) =
        create(&[Outcome::Done, Outcome::Done, Outcome::Failed(12), Outcome::Done]);
    assert_eq!(actions[3], CreateAction::Close);
    assert_eq!(state, CreateState::Failed(12));
    let (_, state) =
        create(&[Outcome::Done, Outcome::Done, Outcome::Failed(12), Outcome::Failed(9)]);
    assert_eq!(state, CreateState::Failed(9));
    assert_eq!(state.next(Outcome::Done), state);
}

/// Attach to a segment that becomes ready at the given look.
fn attach(ready_at: u32, magic: u64, version: u32) -> (u32, u32, bool, AttachState) {
    let mut state = AttachState::Start;
    let (mut looks, mut sleeps, mut unmapped) = (0, 0, false);
    loop {
        let event = match state.action() {
            AttachAction::Open | AttachAction::MapMemory | AttachAction::Close => {
                AttachEvent::Call(Outcome::Done)
            }
            AttachAction::ReadReady => {
                looks += 1;
                AttachEvent::Ready(if looks >= ready_at { 1 } else { 0 })
            }
            AttachAction::Sleep => {
                sleeps += 1;
                AttachEvent::Call(Outcome::Done)
            }
            AttachAction::ReadHeader => AttachEvent::Header { magic, version },
            AttachAction::Unmap => {
                unmapped = true;
                AttachEvent::Call(Outcome::Done)
            }
            AttachAction::Serve | AttachAction::GiveUp(_) => {
                return (looks, sleeps, unmapped, state);
            }
        };
        state = state.next(event);
    }
}

#[test]
fn attachment_to_a_ready_segment() {
    assert_eq!(attach(1, MAGIC, VERSION), (1, 0, false, AttachState::Attached));
    assert_eq!(attach(100, MAGIC, VERSION), (100, 99, false, AttachState::Attached));
}

#[test]
fn attachment_gives_up_after_a_hundred_looks() {
    assert_eq!(
        attach(101, MAGIC, VERSION),
        (100, 100, true, AttachState::Failed(AttachError::NotReady))
    );
}

#[test]
fn attachment_checks_magic_and_version() {
    let mismatch = AttachState::Failed(AttachError::VersionMismatch);
    assert_eq!(attach(1, MAGIC + 1, VERSION), (1, 0, true, mismatch));
    assert_eq!(attach(2, MAGIC, VERSION + 1), (2, 1, true, mismatch));
}

#[test]
fn attachment_errors() {
    let failed = AttachState::Start.next(AttachEvent::Call(Outcome::Failed(2)));
    assert_eq!(failed, AttachState::Failed(AttachError::NotRunning(2)));
    assert_eq!(failed.action(), AttachAction::GiveUp(AttachError::NotRunning(2)));
    let unmapped = AttachState::Start
        .next(AttachEvent::Call(Outcome::Done))
        .next(AttachEvent::Call(Outcome::Failed(12)));
    assert_eq!(unmapped.action(), AttachAction::Close);
    assert_eq!(
        unmapped.next(AttachEvent::Call(Outcome::Done)),
        AttachState::Failed(AttachError::Mmap(12))
    );
    assert_eq!(
        unmapped.next(AttachEvent::Call(Outcome::Failed(9))),
        AttachState::Failed(AttachError::Mmap(9))
    );
}

#[test]
fn client_without_a_server() {
    let mut handle = rfofs_connect(Err(AttachError::NotRunning(2)));
    assert!(handle.is_none());
    assert_eq!(rfofs_sample_rate(&handle), 0.0f32.to_bits());
    assert_eq!(rfofs_block_size(&handle), 0);
    assert_eq!(rfofs_clock_mode(&handle), 0);
    assert_eq!(rfofs_current_sample(&handle), 0);
    assert_eq!(rfofs_add_fof(&mut handle, params(1)), -1);
    assert_eq!(rfofs_kill(&mut handle, 1, 0), -1);
    assert_eq!(rfofs_set_clock_mode(&mut handle, 1), -1);
    let mut out = Some(RfofsStats { too_late: 1, too_early: 2, slot_full: 3, queue_size: 4 });
    assert_eq!(rfofs_get_stats(&handle, &mut out), -1);
    assert_eq!(out.unwrap().queue_size, 4);
    rfofs_disconnect(&mut handle);
    assert!(handle.is_none());
}

#[test]
fn client_of_a_running_server() {
    let mut block = running_block();
    block.set_current_sample(512);
    let mut stats = QueueStats::zero(4);
    stats.too_late = 1;
    stats.too_early = 2;
    stats.slot_full = 3;
    stats.queue_size = 4;
    block.set_stats(stats);
    let mut handle = rfofs_connect(Ok(block));
    assert_eq!(f32::from_bits(rfofs_sample_rate(&handle)), 48_000.0);
    assert_eq!(rfofs_block_size(&handle), 256);
    assert_eq!(rfofs_clock_mode(&handle), 1);
    assert_eq!(rfofs_current_sample(&handle), 512);
    assert_eq!(rfofs_set_clock_mode(&mut handle, 3), -2);
    assert_eq!(rfofs_clock_mode(&handle), 1);
    assert_eq!(rfofs_set_clock_mode(&mut handle, 2), 0);
    assert_eq!(rfofs_clock_mode(&handle), 2);
    let mut out = Some(RfofsStats { too_late: 0, too_early: 0, slot_full: 0, queue_size: 0 });
    assert_eq!(rfofs_get_stats(&handle, &mut out), 0);
    assert_eq!(
        out,
        Some(RfofsStats { too_late: 1, too_early: 2, slot_full: 3, queue_size: 4 })
    );
    let mut nowhere = None;
    assert_eq!(rfofs_get_stats(&handle, &mut nowhere), -1);
    assert_eq!(nowhere, None);
    for i in 0..FOF_CAP as u64 {
        assert_eq!(rfofs_add_fof(&mut handle, params(i)), 0);
    }
    assert_eq!(rfofs_add_fof(&mut handle, params(0)), -2);
    for i in 0..KILL_CAP as u64 {
        assert_eq!(rfofs_kill(&mut handle, i, 0), 0);
    }
    assert_eq!(rfofs_kill(&mut handle, 1, 0), -2);
    rfofs_disconnect(&mut handle);
    assert!(handle.is_none());
    assert_eq!(rfofs_add_fof(&mut handle, params(0)), -1);
}

#[test]
fn reply_codes() {
    assert_eq!(reply::<u64>(None), -1);
    assert_eq!(reply::<u64>(Some(Ok(()))), 0);
    assert_eq!(reply(Some(Err(5u64))), -2);
}

#[test]
fn requests_are_handed_on_to_the_queues() {
    let (mut wheel_tx, mut wheel_rx) = time_wheel(1, 4, 10, 8);
    let (mut kill_tx, mut kill_rx) = kill_queue(1);
    let req = FofKillRequest { id: 3, fade_dur: 9 };
    assert!(!forward(None, None, &mut wheel_tx, &mut kill_tx));
    assert!(forward(Some(params(1)), None, &mut wheel_tx, &mut kill_tx));
    assert!(forward(None, Some(req), &mut wheel_tx, &mut kill_tx));
    // Both are full now: what comes is dropped.
    assert!(forward(Some(params(2)), Some(req), &mut wheel_tx, &mut kill_tx));
    let mut grains = Vec::new();
    wheel_rx.drain_block_safe(0, 10, &mut grains);
    assert_eq!(grains, vec![params(1)]);
    let mut kills = Vec::new();
    kill_rx.drain_all(&mut kills);
    assert_eq!(kills, vec![req]);
}

#[test]
fn pushes_and_pops_in_any_sequence_keep_the_order() {
    let mut ring: Ring<u64, 3> = Ring::new(0u64);
    let mut accepted = Vec::new();
    let mut came_out = Vec::new();
    let mut seed = 12345u64;
    for i in 0..500u64 {
        seed = seed.wrapping_mul(6364136223846793005).wrapping_add(1442695040888963407);
        if seed >> 63 == 0 {
            if ring.try_push(i).is_ok() {
                accepted.push(i);
            } else {
                assert_eq!(accepted.len() - came_out.len(), 3);
            }
        } else {
            match ring.try_pop() {
                Some(item) => came_out.push(item),
                None => assert_eq!(accepted, came_out),
            }
        }
    }
    while let Some(item) = ring.try_pop() {
        came_out.push(item);
    }
    assert!(accepted.len() > 100);
    assert_eq!(accepted, came_out);
}
