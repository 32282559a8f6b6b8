//! What the command-line arguments mean.
use crate::clock::ClockMode;
use crate::pan;
use crate::pan::PanMode;
use crate::text;
use crate::text::{chars_of, parse_decimal, same_text};
use vstd::prelude::*;
use vstd::string::StringExecFns;

verus! {

/// The panning notation that a mode argument stands for: 1 to 4 are shortcuts,
/// anything else stands for itself.
pub open spec fn pan_notation(value: Seq<char>) -> Seq<char> {
    if value == "1"@ {
        "mono"@
    } else if value == "2"@ {
        "stereo"@
    } else if value == "3"@ {
        "amb O1 D3"@
    } else if value == "4"@ {
        "amb O1 D3 R0"@
    } else {
        value
    }
}

/// Parse a clock-mode argument.
pub fn parse_clock_mode(s: &str) -> (mode: Result<ClockMode, String>)
    ensures
        match ClockMode::denoted(s@) {
            Some(denoted) => mode == Ok::<ClockMode, String>(denoted),
            None => mode matches Err(message) && message@ == "invalid clock mode: "@ + s@,
        },
{
    match ClockMode::parse(s) {
        Some(mode) => Ok(mode),
        None => Err(String::from_str("invalid clock mode: ").concat(s)),
    }
}

/// Map the numeric shortcuts for a panning mode to its notation. 1 and 2 are
/// plain mono and stereo; 3 and 4 are first-order ambisonics in 3D, 4 with a
/// mono reverb bus.
pub fn mode_shortcut_to_pan_mode_str<'a>(value: &'a str) -> (notation: &'a str)
    ensures
        notation@ == pan_notation(value@),
{
    if same_text(value, "1") {
        "mono"
    } else if same_text(value, "2") {
        "stereo"
    } else if same_text(value, "3") {
        "amb O1 D3"
    } else if same_text(value, "4") {
        "amb O1 D3 R0"
    } else {
        value
    }
}

/// Parse a panning-mode argument.
pub fn parse_pan_mode(s: &str) -> (mode: Result<PanMode, String>)
    ensures
        match pan::denoted_mode(pan_notation(s@)) {
            Some(denoted) => mode == Ok::<PanMode, String>(denoted),
            None => mode matches Err(message) && message@ == "invalid mode: "@ + s@,
        },
{
    match PanMode::parse(mode_shortcut_to_pan_mode_str(s)) {
        Some(mode) => Ok(mode),
        None => Err(String::from_str("invalid mode: ").concat(s)),
    }
}

/// Parse a count that must not be zero.
pub fn parse_nonzero_count(s: &str) -> (count: Result<usize, String>)
    ensures
        match text::decimal(s@, usize::MAX as int) {
            Some(n) => if n == 0 {
                count matches Err(message) && message@ == "--count must be > 0"@
            } else {
                count matches Ok(parsed) && parsed == n
            },
            None => count matches Err(message) && message@ == "invalid count: "@ + s@,
        },
{
    match parse_decimal(&chars_of(s), usize::MAX as u64) {
        Some(n) => if n == 0 {
            Err(String::from_str("--count must be > 0"))
        } else {
            Ok(n as usize)
        },
        None => Err(String::from_str("invalid count: ").concat(s)),
    }
}

/// The shortcuts denote mono, stereo, first-order ambisonics in space, and the
/// same with a reverb bus of order 0; every other argument stands for itself.
pub proof fn law_shortcuts_stand_for_modes(value: Seq<char>)
    ensures
        value == "1"@ ==> pan::denoted_mode(pan_notation(value)) == Some(PanMode::Mono),
        value == "2"@ ==> pan::denoted_mode(pan_notation(value)) == Some(PanMode::Stereo),
        value == "3"@ ==> pan::denoted_mode(pan_notation(value)) == Some(
            pan::ambisonic(1, 3, None),
        ),
        value == "4"@ ==> pan::denoted_mode(pan_notation(value)) == Some(
            pan::ambisonic(1, 3, Some(0)),
        ),
        value != "1"@ && value != "2"@ && value != "3"@ && value != "4"@ ==> pan_notation(value)
            == value,
{
    reveal_strlit("1");
    reveal_strlit("2");
    reveal_strlit("3");
    reveal_strlit("4");
    reveal_strlit("mono");
    reveal_strlit("stereo");
    reveal_strlit("amb O1 D3");
    reveal_strlit("amb O1 D3 R0");
    reveal_strlit("amb");
    assert("1"@[0] == '1' && "2"@[0] == '2' && "3"@[0] == '3' && "4"@[0] == '4');
    assert("mono"@.len() == 4 && "stereo"@.len() == 6);
    let none = Seq::<char>::empty();
    if value == "1"@ {
        text::law_trimming_removes_only_space(none, "mono"@, none);
        assert(none + "mono"@ + none =~= "mono"@);
    } else if value == "2"@ {
        text::law_trimming_removes_only_space(none, "stereo"@, none);
        assert(none + "stereo"@ + none =~= "stereo"@);
    } else if value == "3"@ || value == "4"@ {
        reveal_with_fuel(text::spaced, 4);
        reveal_with_fuel(text::written, 2);
        pan::law_letter_and_number_are_a_token('o', 'O', 1);
        pan::law_letter_and_number_are_a_token('d', 'D', 3);
        pan::law_letter_and_number_are_a_token('r', 'R', 0);
        let o = seq!['O'] + text::written(1);
        let d = seq!['D'] + text::written(3);
        let r = seq!['R'] + text::written(0);
        assert(o =~= seq!['O', '1']);
        assert(d =~= seq!['D', '3']);
        assert(r =~= seq!['R', '0']);
        let gap = seq![' '];
        let two = seq![o, d];
        let three = seq![o, d, r];
        let gaps2 = seq![gap, gap];
        let gaps3 = seq![gap, gap, gap];
        assert(gaps3.drop_last() =~= gaps2);
        assert(three.drop_last() =~= two);
        assert(gaps2.drop_last() =~= seq![gap]);
        assert(two.drop_last() =~= seq![o]);
        assert(seq![gap].drop_last() =~= Seq::<Seq<char>>::empty());
        assert(seq![o].drop_last() =~= Seq::<Seq<char>>::empty());
        if value == "3"@ {
            assert(none + ("amb"@ + text::spaced(gaps2, two)) + none =~= "amb O1 D3"@);
            pan::law_notation_without_reverb(none, "amb"@, gaps2, two, none, 1, 3, 0, 1);
        } else {
            assert(none + ("amb"@ + text::spaced(gaps3, three)) + none =~= "amb O1 D3 R0"@);
            pan::law_notation_with_reverb(none, "amb"@, gaps3, three, none, 1, 3, 0, 0, 1, 2);
        }
    }
}

} // verus!
