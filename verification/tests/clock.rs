use rfofs::clock::{RFOFS_CLOCK_JACK_FRAME_TIME, RFOFS_CLOCK_JACK_TRANSPORT};
use rfofs::ClockMode;

#[test]
fn numeric_values_are_stable_for_compatibility() {
    assert_eq!(RFOFS_CLOCK_JACK_FRAME_TIME, 1);
    assert_eq!(RFOFS_CLOCK_JACK_TRANSPORT, 2);
}

#[test]
fn roundtrips_through_numeric_value() {
    for mode in [ClockMode::JackFrameTime, ClockMode::JackTransport] {
        assert_eq!(ClockMode::from_u32(mode.as_u32()), Some(mode));
    }
}

#[test]
fn parses_names_and_numbers() {
    assert_eq!(ClockMode::parse("frame-time"), Some(ClockMode::JackFrameTime));
    assert_eq!(ClockMode::parse("jack-frame-time"), Some(ClockMode::JackFrameTime));
    assert_eq!(ClockMode::parse("transport"), Some(ClockMode::JackTransport));
    assert_eq!(ClockMode::parse("jack-transport"), Some(ClockMode::JackTransport));
    assert_eq!(ClockMode::parse("1"), Some(ClockMode::JackFrameTime));
    assert_eq!(ClockMode::parse("2"), Some(ClockMode::JackTransport));
    assert_eq!(ClockMode::parse("bogus"), None);
}

#[test]
fn default_is_frame_time() {
    assert_eq!(ClockMode::default(), ClockMode::JackFrameTime);
}

#[test]
fn unknown_numbers_are_no_mode() {
    for v in [0, 3, 4, u32::MAX] {
        assert_eq!(ClockMode::from_u32(v), None);
    }
    for s in ["0", "3", "", "+", "-1", " 1", "1 ", "Transport", "4294967296", "99999999999999999999"] {
        assert_eq!(ClockMode::parse(s), None, "{s:?}");
    }
}

#[test]
fn numbers_may_have_a_plus_and_leading_zeros() {
    assert_eq!(ClockMode::parse("+1"), Some(ClockMode::JackFrameTime));
    assert_eq!(ClockMode::parse("0002"), Some(ClockMode::JackTransport));
    assert_eq!(ClockMode::parse("++1"), None);
}

#[test]
fn stored_mode_wins_over_startup_mode() {
    assert_eq!(ClockMode::in_force(2, ClockMode::JackFrameTime), ClockMode::JackTransport);
    assert_eq!(ClockMode::in_force(1, ClockMode::JackTransport), ClockMode::JackFrameTime);
    assert_eq!(ClockMode::in_force(0, ClockMode::JackTransport), ClockMode::JackTransport);
    assert_eq!(ClockMode::in_force(7, ClockMode::JackFrameTime), ClockMode::JackFrameTime);
}

#[test]
fn block_start_follows_the_selected_source() {
    let frame = ClockMode::JackFrameTime;
    let transport = ClockMode::JackTransport;
    assert_eq!(frame.block_start(1000, Some(5), 77), 1000);
    assert_eq!(frame.block_start(u32::MAX, None, 77), 4294967295);
    assert_eq!(transport.block_start(1000, Some(5), 77), 5);
    assert_eq!(transport.block_start(1000, None, 77), 77);
}
