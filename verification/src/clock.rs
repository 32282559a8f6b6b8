//! Selects which JACK time source drives the engine's absolute sample clock
//! each process cycle: the free-running frame counter, or the shared transport
//! position, which can be started, stopped and relocated independently.
use crate::text;
use crate::text::{chars_of, parse_decimal, same_text};
use vstd::prelude::*;

verus! {

/// Drive the clock from the free-running count of frames elapsed since the
/// JACK server started. This is the default.
pub const RFOFS_CLOCK_JACK_FRAME_TIME: u32 = 1;

/// Drive the clock from the frame that the shared JACK transport reports, so
/// that scheduling follows transport start, stop and relocation.
pub const RFOFS_CLOCK_JACK_TRANSPORT: u32 = 2;

/// Which JACK time source supplies the engine's sample clock each block.
#[derive(Debug, Clone, Copy, PartialEq, Eq, Structural)]
pub enum ClockMode {
    JackFrameTime,
    JackTransport,
}

impl ClockMode {
    /// The number that stands for the mode.
    pub open spec fn number(self) -> u32 {
        match self {
            ClockMode::JackFrameTime => RFOFS_CLOCK_JACK_FRAME_TIME,
            ClockMode::JackTransport => RFOFS_CLOCK_JACK_TRANSPORT,
        }
    }

    /// The mode that a number stands for.
    pub open spec fn numbered(v: u32) -> Option<ClockMode> {
        if v == RFOFS_CLOCK_JACK_FRAME_TIME {
            Some(ClockMode::JackFrameTime)
        } else if v == RFOFS_CLOCK_JACK_TRANSPORT {
            Some(ClockMode::JackTransport)
        } else {
            None
        }
    }

    /// The mode that a text denotes: by one of its names, or by its number.
    pub open spec fn denoted(s: Seq<char>) -> Option<ClockMode> {
        if s == "frame-time"@ || s == "jack-frame-time"@ {
            Some(ClockMode::JackFrameTime)
        } else if s == "transport"@ || s == "jack-transport"@ {
            Some(ClockMode::JackTransport)
        } else {
            match text::decimal(s, u32::MAX as int) {
                Some(v) => ClockMode::numbered(v as u32),
                None => None,
            }
        }
    }

    /// The start of a block under this mode. Without a transport position the
    /// engine's own clock runs on.
    pub open spec fn start(self, frame_time: u32, transport: Option<u32>, running: u64) -> u64 {
        match self {
            ClockMode::JackFrameTime => frame_time as u64,
            ClockMode::JackTransport => match transport {
                Some(frame) => frame as u64,
                None => running,
            },
        }
    }

    /// The numeric value for this mode, on the wire and on the command line.
    pub fn as_u32(self) -> (v: u32)
        ensures
            v == self.number(),
    {
        match self {
            ClockMode::JackFrameTime => RFOFS_CLOCK_JACK_FRAME_TIME,
            ClockMode::JackTransport => RFOFS_CLOCK_JACK_TRANSPORT,
        }
    }

    /// Recover a mode from its numeric value. `None` if `v` isn't one of the
    /// two known constants.
    pub fn from_u32(v: u32) -> (mode: Option<ClockMode>)
        ensures
            mode == ClockMode::numbered(v),
    {
        if v == RFOFS_CLOCK_JACK_FRAME_TIME {
            Some(ClockMode::JackFrameTime)
        } else if v == RFOFS_CLOCK_JACK_TRANSPORT {
            Some(ClockMode::JackTransport)
        } else {
            None
        }
    }

    /// Parse a command-line argument: either a name (`"frame-time"` or
    /// `"transport"`) or the raw numeric value (`"1"` or `"2"`).
    pub fn parse(s: &str) -> (mode: Option<ClockMode>)
        ensures
            mode == ClockMode::denoted(s@),
    {
        if same_text(s, "frame-time") || same_text(s, "jack-frame-time") {
            return Some(ClockMode::JackFrameTime);
        }
        if same_text(s, "transport") || same_text(s, "jack-transport") {
            return Some(ClockMode::JackTransport);
        }
        match parse_decimal(&chars_of(s), u32::MAX as u64) {
            Some(v) => ClockMode::from_u32(v as u32),
            None => None,
        }
    }

    /// The mode in force: the one stored in the control block, or the one
    /// selected at startup where what is stored is no mode.
    pub fn in_force(stored: u32, startup: ClockMode) -> (mode: ClockMode)
        ensures
            mode == (match ClockMode::numbered(stored) {
                Some(mode) => mode,
                None => startup,
            }),
    {
        match ClockMode::from_u32(stored) {
            Some(mode) => mode,
            None => startup,
        }
    }

    /// The absolute sample at which the block to process starts, from what the
    /// time sources report.
    pub fn block_start(self, frame_time: u32, transport: Option<u32>, running: u64) -> (start: u64)
        ensures
            start == self.start(frame_time, transport, running),
    {
        match self {
            ClockMode::JackFrameTime => frame_time as u64,
            ClockMode::JackTransport => match transport {
                Some(frame) => frame as u64,
                None => running,
            },
        }
    }
}

impl Default for ClockMode {
    fn default() -> (mode: ClockMode)
        ensures
            mode == ClockMode::JackFrameTime,
    {
        ClockMode::JackFrameTime
    }
}

/// The numbers and the modes correspond one to one.
pub proof fn law_modes_round_trip(mode: ClockMode, v: u32)
    ensures
        ClockMode::numbered(mode.number()) == Some(mode),
        ClockMode::numbered(v) matches Some(found) ==> found.number() == v,
{
}

/// Frame time is mode 1 and transport is mode 2; no other number is a mode.
pub proof fn law_modes_are_one_and_two(v: u32)
    ensures
        ClockMode::numbered(v) == Some(ClockMode::JackFrameTime) <==> v == 1,
        ClockMode::numbered(v) == Some(ClockMode::JackTransport) <==> v == 2,
        ClockMode::numbered(v) is None <==> v != 1 && v != 2,
        ClockMode::JackFrameTime.number() == 1,
        ClockMode::JackTransport.number() == 2,
{
}

/// A mode is denoted by its names and by its number as it is written, and by
/// nothing else.
pub proof fn law_modes_are_named(s: Seq<char>)
    ensures
        ClockMode::denoted(s) == Some(ClockMode::JackFrameTime) <==> s == "frame-time"@ || s
            == "jack-frame-time"@ || text::decimal(s, u32::MAX as int) == Some(1int),
        ClockMode::denoted(s) == Some(ClockMode::JackTransport) <==> s == "transport"@ || s
            == "jack-transport"@ || text::decimal(s, u32::MAX as int) == Some(2int),
{
    reveal_strlit("frame-time");
    reveal_strlit("jack-frame-time");
    reveal_strlit("transport");
    reveal_strlit("jack-transport");
    assert("frame-time"@.len() == 10 && "frame-time"@[0] == 'f');
    assert("jack-frame-time"@.len() == 15 && "jack-frame-time"@[0] == 'j');
    assert("transport"@.len() == 9 && "transport"@[0] == 't');
    assert("jack-transport"@.len() == 14 && "jack-transport"@[0] == 'j');
    text::law_other_texts_are_no_numbers(s, u32::MAX as int, 0);
    text::law_numbers_are_in_range(s, u32::MAX as int);
}

/// Under frame time a block starts at the count of frames, whatever the transport
/// does. Under transport it starts where the transport is and, while that is not
/// known, where the engine's own clock is, whatever the count of frames is.
pub proof fn law_only_the_source_in_force_counts(
    frame_time: u32,
    other_time: u32,
    transport: Option<u32>,
    other_transport: Option<u32>,
    frame: u32,
    running: u64,
    other_running: u64,
)
    ensures
        ClockMode::JackFrameTime.start(frame_time, transport, running) == frame_time,
        ClockMode::JackFrameTime.start(frame_time, transport, running)
            == ClockMode::JackFrameTime.start(frame_time, other_transport, other_running),
        ClockMode::JackTransport.start(frame_time, Some(frame), running) == frame,
        ClockMode::JackTransport.start(frame_time, None, running) == running,
        ClockMode::JackTransport.start(frame_time, transport, running)
            == ClockMode::JackTransport.start(other_time, transport, running),
{
}

} // verus!
