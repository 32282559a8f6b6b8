//! Panning modes: their notation, their channel counts, and what each output
//! channel is fed with. The gains themselves are trigonometry and stay with
//! the caller.
use crate::text;
use crate::text::{
    chars_of, matches_word, parse_decimal, part, split_words, starts_with, to_lower, trim,
};
use vstd::prelude::*;

verus! {

/// Global panning mode, set at startup, uniform for all FOFs.
#[derive(Clone, Copy, Debug, PartialEq, Eq)]
pub enum PanMode {
    Mono,
    /// Equal-power stereo panning using azimuth only.
    Stereo,
    /// Ambisonics: order `n`, dimensions `m` (2 or 3), optional reverb bus of
    /// order `k` (0 or 1).
    ///
    /// Notation: ambOnDmRk, e.g. amb O1 D3 R1 is first-order 3D plus a
    /// first-order reverb bus; amb O2 D3 R0 is second-order 3D plus a mono
    /// reverb bus. Without the `R` token there is no reverb bus at all.
    ///
    /// The size of the reverb bus is fixed by `k` alone and does not grow with
    /// the order of the direct signal. What feeds it does not fall off with
    /// distance, and is muted entirely below distance 1.
    Ambisonic { order: u8, dims: u8, reverb: Option<u8> },
}

/// Number of direct ambisonic channels: 2n + 1 in the plane, (n + 1)² in space.
pub open spec fn direct_channels(order: u8, dims: u8) -> int {
    if dims == 2 {
        2 * order + 1
    } else {
        (order + 1) * (order + 1)
    }
}

/// Number of channels of the reverb bus: none, one, or those of first order.
pub open spec fn reverb_channels(dims: u8, reverb: Option<u8>) -> int {
    match reverb {
        None => 0,
        Some(k) => if k == 0 {
            1
        } else {
            direct_channels(1, dims)
        },
    }
}

/// An ambisonic mode.
pub open spec fn ambisonic(order: u8, dims: u8, reverb: Option<u8>) -> PanMode {
    PanMode::Ambisonic { order, dims, reverb }
}

/// What the tokens of the ambisonics notation say.
pub struct AmbTokens {
    pub order: Option<u8>,
    pub dims: Option<u8>,
    pub reverb: Option<u8>,
    /// Whether there is a token with another letter.
    pub unknown: bool,
}

/// The number in a token, if it is one that fits.
pub open spec fn token_number(digits: Seq<char>) -> Option<u8> {
    match text::decimal(digits, 255) {
        Some(n) => Some(n as u8),
        None => None,
    }
}

impl AmbTokens {
    /// Nothing said yet.
    pub open spec fn unset() -> AmbTokens {
        AmbTokens { order: None, dims: None, reverb: None, unknown: false }
    }

    /// With one more token. A later token overrides an earlier one of its
    /// letter; an `R` token that holds no number stands for order 0; one with
    /// another letter is not part of the notation.
    pub open spec fn with(self, token: Seq<char>) -> AmbTokens {
        let letter = text::lower(token[0]);
        let digits = token.drop_first();
        if letter == 'o' {
            AmbTokens { order: token_number(digits), ..self }
        } else if letter == 'd' {
            AmbTokens { dims: token_number(digits), ..self }
        } else if letter == 'r' {
            AmbTokens {
                reverb: Some(
                    match token_number(digits) {
                        Some(k) => k,
                        None => 0,
                    },
                ),
                ..self
            }
        } else {
            AmbTokens { unknown: true, ..self }
        }
    }

    /// What a list of tokens says.
    pub open spec fn of(tokens: Seq<Seq<char>>) -> AmbTokens
        decreases tokens.len(),
    {
        if tokens.len() == 0 {
            AmbTokens::unset()
        } else {
            AmbTokens::of(tokens.drop_last()).with(tokens.last())
        }
    }

    /// The mode, if order and dimensions are said and nothing unknown is.
    pub open spec fn mode(self) -> Option<PanMode> {
        match (self.order, self.dims) {
            (Some(order), Some(dims)) => if self.unknown {
                None
            } else {
                Some(PanMode::Ambisonic { order, dims, reverb: self.reverb })
            },
            _ => None,
        }
    }
}

/// The text begins with "amb" in one of the three spellings that count.
pub open spec fn amb_prefixed(s: Seq<char>) -> bool {
    "amb"@.is_prefix_of(s) || "Amb"@.is_prefix_of(s) || "AMB"@.is_prefix_of(s)
}

/// The mode that a text denotes.
pub open spec fn denoted_mode(s: Seq<char>) -> Option<PanMode> {
    let t = text::trimmed(s);
    if text::same_but_case(t, "mono"@) {
        Some(PanMode::Mono)
    } else if text::same_but_case(t, "stereo"@) {
        Some(PanMode::Stereo)
    } else if amb_prefixed(t) {
        AmbTokens::of(text::words(t.skip(3))).mode()
    } else {
        None
    }
}

/// A term of the panning formulas that a channel can be fed with.
#[derive(Clone, Copy, Debug, PartialEq, Eq, Structural)]
pub enum PanTerm {
    /// The signal as it is.
    Whole,
    /// Cosine of the stereo angle.
    Left,
    /// Sine of the stereo angle.
    Right,
    /// Omnidirectional: 1/√2.
    W,
    /// cos(elevation) · cos(azimuth).
    X,
    /// cos(elevation) · sin(azimuth).
    Y,
    /// sin(elevation).
    Z,
}

/// What a channel is fed with: a term of the direct signal, which falls off
/// with distance, or of the reverb send, which does not.
#[derive(Clone, Copy, Debug, PartialEq, Eq, Structural)]
pub struct Feed {
    pub term: PanTerm,
    /// Whether this is the reverb send.
    pub send: bool,
}

/// The term of B-format channel `k`. Orders above the first have channels and
/// no terms.
pub open spec fn b_format(order: u8, dims: u8, k: int) -> Option<PanTerm> {
    if k == 0 {
        Some(PanTerm::W)
    } else if order >= 1 && k == 1 {
        Some(PanTerm::X)
    } else if order >= 1 && k == 2 {
        Some(PanTerm::Y)
    } else if order >= 1 && k == 3 && dims == 3 {
        Some(PanTerm::Z)
    } else {
        None
    }
}

pub open spec fn fed(term: Option<PanTerm>, send: bool) -> Option<Feed> {
    match term {
        Some(term) => Some(Feed { term, send }),
        None => None,
    }
}

/// The term of channel `k` of the reverb bus.
pub open spec fn bus_term(dims: u8, reverb_order: u8, k: int) -> Option<PanTerm> {
    if reverb_order == 0 {
        if k == 0 {
            Some(PanTerm::W)
        } else {
            None
        }
    } else {
        b_format(1, dims, k)
    }
}

impl PanMode {
    /// Number of output channels this mode produces.
    pub open spec fn channels(self) -> int {
        match self {
            PanMode::Mono => 1,
            PanMode::Stereo => 2,
            PanMode::Ambisonic { order, dims, reverb } => direct_channels(order, dims)
                + reverb_channels(dims, reverb),
        }
    }

    /// What channel `ch` is fed with for a source that is, or is not, as far
    /// as the reference distance.
    pub open spec fn feed(self, far: bool, ch: int) -> Option<Feed> {
        match self {
            PanMode::Mono => fed(Some(PanTerm::Whole), false),
            PanMode::Stereo => fed(
                Some(
                    if ch == 0 {
                        PanTerm::Left
                    } else {
                        PanTerm::Right
                    },
                ),
                false,
            ),
            PanMode::Ambisonic { order, dims, reverb } => {
                let direct = direct_channels(order, dims);
                if ch < direct {
                    fed(b_format(order, dims, ch), false)
                } else {
                    match reverb {
                        Some(k) => if far {
                            fed(bus_term(dims, k, ch - direct), true)
                        } else {
                            None
                        },
                        None => None,
                    }
                }
            },
        }
    }

    /// Number of output channels this mode produces.
    pub fn channel_count(&self) -> (n: usize)
        ensures
            n == self.channels(),
    {
        match self {
            PanMode::Mono => 1,
            PanMode::Stereo => 2,
            PanMode::Ambisonic { order, dims, reverb } => {
                let direct: usize = ambisonic_direct_channel_count(*order, *dims);
                let rev: usize = match reverb {
                    None => 0,
                    Some(k) => if *k == 0 {
                        1
                    } else {
                        ambisonic_direct_channel_count(1, *dims)
                    },
                };
                direct + rev
            },
        }
    }

    /// Parse the ambOnDmRk notation string, e.g. "amb O2 D3 R1" or "amb O1 D2".
    /// Returns None if the string is not recognised.
    pub fn parse(s: &str) -> (mode: Option<PanMode>)
        ensures
            mode == denoted_mode(s@),
    {
        let t: Vec<char> = trim(&chars_of(s));
        if matches_word(&t, "mono") {
            return Some(PanMode::Mono);
        }
        if matches_word(&t, "stereo") {
            return Some(PanMode::Stereo);
        }
        if !starts_with(&t, "amb") && !starts_with(&t, "Amb") && !starts_with(&t, "AMB") {
            return None;
        }
        proof {
            reveal_strlit("amb");
            reveal_strlit("Amb");
            reveal_strlit("AMB");
            assert(t@.subrange(3, t@.len() as int) =~= t@.skip(3));
        }
        let rest: Vec<char> = part(&t, 3, t.len());
        let tokens: AmbTokens = read_tokens(&rest);
        if tokens.unknown {
            return None;
        }
        match (tokens.order, tokens.dims) {
            (Some(order), Some(dims)) => Some(
                PanMode::Ambisonic { order, dims, reverb: tokens.reverb },
            ),
            _ => None,
        }
    }

    /// What each output channel is fed with for a source that is, or is not,
    /// as far as the reference distance.
    pub fn layout(&self, far: bool) -> (feeds: Vec<Option<Feed>>)
        ensures
            feeds@.len() == self.channels(),
            forall|ch: int|
                #![trigger feeds@[ch]]
                0 <= ch < feeds@.len() ==> feeds@[ch] == self.feed(far, ch),
    {
        let n: usize = self.channel_count();
        let mut feeds: Vec<Option<Feed>> = Vec::with_capacity(n);
        let mut ch: usize = 0;
        while ch < n
            invariant
                ch <= n,
                n == self.channels(),
                feeds@.len() == ch,
                forall|k: int|
                    #![trigger feeds@[k]]
                    0 <= k < ch ==> feeds@[k] == self.feed(far, k),
            decreases n - ch,
        {
            feeds.push(self.channel_feed(far, ch));
            ch = ch + 1;
        }
        feeds
    }

    /// What one output channel is fed with.
    fn channel_feed(&self, far: bool, ch: usize) -> (feed: Option<Feed>)
        ensures
            feed == self.feed(far, ch as int),
    {
        match self {
            PanMode::Mono => Some(Feed { term: PanTerm::Whole, send: false }),
            PanMode::Stereo => {
                let term: PanTerm = if ch == 0 {
                    PanTerm::Left
                } else {
                    PanTerm::Right
                };
                Some(Feed { term, send: false })
            },
            PanMode::Ambisonic { order, dims, reverb } => {
                let direct: usize = ambisonic_direct_channel_count(*order, *dims);
                if ch < direct {
                    return feed_of(encode_ambisonics(*order, *dims, ch), false);
                }
                match reverb {
                    Some(k) => if !far {
                        None
                    } else if *k > 0 {
                        feed_of(encode_ambisonics(1, *dims, ch - direct), true)
                    } else if ch == direct {
                        Some(Feed { term: PanTerm::W, send: true })
                    } else {
                        None
                    },
                    None => None,
                }
            },
        }
    }

    /// Whether the direct signal has channels of orders above the first, which
    /// stay silent.
    pub fn has_silent_direct_orders(&self) -> (silent: bool)
        ensures
            silent == (self matches PanMode::Ambisonic { order, .. } && order >= 2),
    {
        match self {
            PanMode::Ambisonic { order, .. } => *order >= 2,
            _ => false,
        }
    }

    /// Whether a reverb bus of an order above the first was asked for; it is
    /// a first-order one.
    pub fn has_silent_reverb_orders(&self) -> (silent: bool)
        ensures
            silent == (self matches PanMode::Ambisonic { reverb: Some(k), .. } && k > 1),
    {
        match self {
            PanMode::Ambisonic { reverb: Some(k), .. } => *k > 1,
            _ => false,
        }
    }
}

/// Number of direct ambisonic channels.
pub fn ambisonic_direct_channel_count(order: u8, dims: u8) -> (n: usize)
    ensures
        n == direct_channels(order, dims),
        n <= 65536,
{
    let n: usize = order as usize;
    if dims == 2 {
        2 * n + 1
    } else {
        assert((n + 1) * (n + 1) <= 256 * 256) by (nonlinear_arith)
            requires
                n <= 255,
        ;
        (n + 1) * (n + 1)
    }
}

/// The term of B-format channel `k`: [W, X, Y, (Z), higher orders ...].
pub fn encode_ambisonics(order: u8, dims: u8, k: usize) -> (term: Option<PanTerm>)
    ensures
        term == b_format(order, dims, k as int),
{
    if k == 0 {
        return Some(PanTerm::W);
    }
    if order == 0 {
        return None;
    }
    if k == 1 {
        Some(PanTerm::X)
    } else if k == 2 {
        Some(PanTerm::Y)
    } else if k == 3 && dims == 3 {
        Some(PanTerm::Z)
    } else {
        None
    }
}

fn feed_of(term: Option<PanTerm>, send: bool) -> (feed: Option<Feed>)
    ensures
        feed == fed(term, send),
{
    match term {
        Some(term) => Some(Feed { term, send }),
        None => None,
    }
}

/// Read the number in a token after its letter.
fn read_number(token: &Vec<char>) -> (n: Option<u8>)
    requires
        token@.len() > 0,
    ensures
        n == token_number(token@.drop_first()),
{
    let digits: Vec<char> = part(token, 1, token.len());
    proof {
        assert(digits@ =~= token@.drop_first());
    }
    match parse_decimal(&digits, 255) {
        Some(n) => Some(n as u8),
        None => None,
    }
}

/// Read the tokens of the ambisonics notation.
fn read_tokens(chars: &Vec<char>) -> (tokens: AmbTokens)
    ensures
        tokens == AmbTokens::of(text::words(chars@)),
{
    let list: Vec<Vec<char>> = split_words(chars);
    let ghost words = text::words(chars@);
    let mut tokens: AmbTokens = AmbTokens { order: None, dims: None, reverb: None, unknown: false };
    proof {
        text::law_words_hold_no_space(chars@);
        assert(words.take(0) =~= Seq::<Seq<char>>::empty());
    }
    let mut i: usize = 0;
    while i < list.len()
        invariant
            i <= list@.len() == words.len(),
            forall|k: int|
                #![trigger list@[k]]
                0 <= k < list@.len() ==> list@[k]@ == words[k] && list@[k]@.len() > 0,
            tokens == AmbTokens::of(words.take(i as int)),
        decreases list@.len() - i,
    {
        let token: &Vec<char> = &list[i];
        proof {
            assert(list@[i as int]@ == words[i as int]);
            assert(words.take(i + 1).drop_last() =~= words.take(i as int));
        }
        let letter: char = to_lower(token[0]);
        if letter == 'o' {
            tokens.order = read_number(token);
        } else if letter == 'd' {
            tokens.dims = read_number(token);
        } else if letter == 'r' {
            let k: u8 = match read_number(token) {
                Some(k) => k,
                None => 0,
            };
            tokens.reverb = Some(k);
        } else {
            tokens.unknown = true;
        }
        i = i + 1;
    }
    proof {
        assert(words.take(i as int) =~= words);
    }
    tokens
}

/// A token of the notation: a letter, in either case, and a number.
pub open spec fn is_token(token: Seq<char>, letter: char, n: u8) -> bool {
    &&& text::is_word(token)
    &&& text::lower(token[0]) == letter
    &&& token_number(token.drop_first()) == Some(n)
}

/// The ambisonics notation reads as it is written: with an order, dimensions and
/// the order of a reverb bus, in whatever sequence, and with white space between
/// them and around the whole.
pub proof fn law_notation_with_reverb(
    lead: Seq<char>,
    prefix: Seq<char>,
    gaps: Seq<Seq<char>>,
    tokens: Seq<Seq<char>>,
    trail: Seq<char>,
    order: u8,
    dims: u8,
    reverb: u8,
    at_order: int,
    at_dims: int,
    at_reverb: int,
)
    requires
        prefix == "amb"@ || prefix == "Amb"@ || prefix == "AMB"@,
        text::all_space(lead),
        text::all_space(trail),
        gaps.len() == 3,
        text::are_gaps(gaps),
        tokens.len() == 3,
        0 <= at_order < 3,
        0 <= at_dims < 3,
        0 <= at_reverb < 3,
        at_order != at_dims,
        at_order != at_reverb,
        at_dims != at_reverb,
        is_token(tokens[at_order], 'o', order),
        is_token(tokens[at_dims], 'd', dims),
        is_token(tokens[at_reverb], 'r', reverb),
    ensures
        denoted_mode(lead + (prefix + text::spaced(gaps, tokens)) + trail) == Some(
            ambisonic(order, dims, Some(reverb)),
        ),
{
    assert forall|i: int| #![trigger tokens[i]] 0 <= i < tokens.len() implies text::is_word(
        tokens[i],
    ) by {
        assert(i == at_order || i == at_dims || i == at_reverb);
    }
    lemma_notation_is_read(lead, prefix, gaps, tokens, trail);
    lemma_three_tokens(tokens);
}

/// As [`law_notation_with_reverb`], without a reverb bus.
pub proof fn law_notation_without_reverb(
    lead: Seq<char>,
    prefix: Seq<char>,
    gaps: Seq<Seq<char>>,
    tokens: Seq<Seq<char>>,
    trail: Seq<char>,
    order: u8,
    dims: u8,
    at_order: int,
    at_dims: int,
)
    requires
        prefix == "amb"@ || prefix == "Amb"@ || prefix == "AMB"@,
        text::all_space(lead),
        text::all_space(trail),
        gaps.len() == 2,
        text::are_gaps(gaps),
        tokens.len() == 2,
        0 <= at_order < 2,
        0 <= at_dims < 2,
        at_order != at_dims,
        is_token(tokens[at_order], 'o', order),
        is_token(tokens[at_dims], 'd', dims),
    ensures
        denoted_mode(lead + (prefix + text::spaced(gaps, tokens)) + trail) == Some(
            ambisonic(order, dims, None),
        ),
{
    assert forall|i: int| #![trigger tokens[i]] 0 <= i < tokens.len() implies text::is_word(
        tokens[i],
    ) by {
        assert(i == at_order || i == at_dims);
    }
    lemma_notation_is_read(lead, prefix, gaps, tokens, trail);
    lemma_two_tokens(tokens);
}

/// A token with another letter is not part of the notation.
pub proof fn law_other_letters_are_refused(tokens: Seq<Seq<char>>, i: int)
    requires
        0 <= i < tokens.len(),
        ({
            let letter = text::lower(tokens[i][0]);
            letter != 'o' && letter != 'd' && letter != 'r'
        }),
    ensures
        AmbTokens::of(tokens).mode() is None,
{
    lemma_unknown_stays(tokens, i);
}

proof fn lemma_unknown_stays(tokens: Seq<Seq<char>>, i: int)
    requires
        0 <= i < tokens.len(),
        ({
            let letter = text::lower(tokens[i][0]);
            letter != 'o' && letter != 'd' && letter != 'r'
        }),
    ensures
        AmbTokens::of(tokens).unknown,
    decreases tokens.len(),
{
    if i < tokens.len() - 1 {
        assert(tokens.drop_last()[i] == tokens[i]);
        lemma_unknown_stays(tokens.drop_last(), i);
    }
}

proof fn lemma_two_tokens(tokens: Seq<Seq<char>>)
    requires
        tokens.len() == 2,
    ensures
        AmbTokens::of(tokens) == AmbTokens::unset().with(tokens[0]).with(tokens[1]),
{
    reveal_with_fuel(AmbTokens::of, 3);
}

proof fn lemma_three_tokens(tokens: Seq<Seq<char>>)
    requires
        tokens.len() == 3,
    ensures
        AmbTokens::of(tokens) == AmbTokens::unset().with(tokens[0]).with(tokens[1]).with(
            tokens[2],
        ),
{
    reveal_with_fuel(AmbTokens::of, 4);
}

/// A text in the notation says what its tokens say.
proof fn lemma_notation_is_read(
    lead: Seq<char>,
    prefix: Seq<char>,
    gaps: Seq<Seq<char>>,
    tokens: Seq<Seq<char>>,
    trail: Seq<char>,
)
    requires
        prefix == "amb"@ || prefix == "Amb"@ || prefix == "AMB"@,
        text::all_space(lead),
        text::all_space(trail),
        gaps.len() == tokens.len(),
        tokens.len() > 0,
        text::are_gaps(gaps),
        forall|i: int| #![trigger tokens[i]] 0 <= i < tokens.len() ==> text::is_word(tokens[i]),
    ensures
        denoted_mode(lead + (prefix + text::spaced(gaps, tokens)) + trail) == AmbTokens::of(
            tokens,
        ).mode(),
{
    reveal_strlit("amb");
    reveal_strlit("Amb");
    reveal_strlit("AMB");
    reveal_strlit("mono");
    reveal_strlit("stereo");
    let rest = text::spaced(gaps, tokens);
    let body = prefix + rest;
    text::law_spaced_words_are_read_back(gaps, tokens);
    let n = tokens.len() - 1;
    assert(text::is_word(tokens[n]));
    assert(body.last() == tokens[n][tokens[n].len() - 1]);
    assert(body.first() == prefix[0]);
    text::law_trimming_removes_only_space(lead, body, trail);
    assert(body.skip(3) =~= rest);
    assert(prefix =~= body.subrange(0, prefix.len() as int));
    assert(text::lower(body[0]) == 'a');
    if text::same_but_case(body, "mono"@) {
        assert(text::lower(body[0]) == text::lower("mono"@[0]));
    }
    if text::same_but_case(body, "stereo"@) {
        assert(text::lower(body[0]) == text::lower("stereo"@[0]));
    }
}

/// The direct channels of every ambisonic mode carry B-format, whether there is
/// a reverb bus or not and however far the source is: channel 0 is fed with W
/// and, from order 1 on, channels 1 and 2 with X and Y and in space channel 3
/// with Z. All of it is direct signal, and further channels are silent.
pub proof fn law_direct_channels_carry_b_format(
    order: u8,
    dims: u8,
    reverb: Option<u8>,
    far: bool,
    ch: int,
)
    requires
        0 <= ch < (if dims == 2 {
            2 * order + 1
        } else {
            (order + 1) * (order + 1)
        }),
    ensures
        ({
            let feed = PanMode::Ambisonic { order, dims, reverb }.feed(far, ch);
            let direct = |term: PanTerm| Some(Feed { term, send: false });
            &&& ch == 0 ==> feed == direct(PanTerm::W)
            &&& ch == 1 && order >= 1 ==> feed == direct(PanTerm::X)
            &&& ch == 2 && order >= 1 ==> feed == direct(PanTerm::Y)
            &&& ch == 3 && order >= 1 && dims == 3 ==> feed == direct(PanTerm::Z)
            &&& ch == 3 && dims != 3 ==> feed is None
            &&& ch >= 4 ==> feed is None
        }),
{
    assert(order == 0 ==> (order + 1) * (order + 1) == 1) by (nonlinear_arith);
}

/// The channels of the reverb bus follow the direct ones. Far sources are sent
/// to it: an order 0 bus gets W, one of a higher order W, X, Y and in space Z.
/// Near sources are not.
pub proof fn law_reverb_channels_follow(order: u8, dims: u8, k: u8, far: bool, ch: int)
    requires
        0 <= ch < (if k == 0 {
            1int
        } else if dims == 2 {
            3
        } else {
            4
        }),
    ensures
        ({
            let direct: int = if dims == 2 {
                2 * order + 1
            } else {
                (order + 1) * (order + 1)
            };
            let feed = PanMode::Ambisonic { order, dims, reverb: Some(k) }.feed(far, direct + ch);
            let sent = |term: PanTerm| Some(Feed { term, send: true });
            &&& !far ==> feed is None
            &&& far && ch == 0 ==> feed == sent(PanTerm::W)
            &&& far && ch == 1 ==> feed == sent(PanTerm::X)
            &&& far && ch == 2 ==> feed == sent(PanTerm::Y)
            &&& far && ch == 3 && dims == 3 ==> feed == sent(PanTerm::Z)
            &&& far && ch == 3 && dims != 3 ==> feed is None
        }),
{
}

/// Mono has one channel with the signal as it is, stereo a left and a right one.
pub proof fn law_mono_and_stereo_channels(far: bool)
    ensures
        PanMode::Mono.channels() == 1,
        PanMode::Mono.feed(far, 0) == Some(Feed { term: PanTerm::Whole, send: false }),
        PanMode::Stereo.channels() == 2,
        PanMode::Stereo.feed(far, 0) == Some(Feed { term: PanTerm::Left, send: false }),
        PanMode::Stereo.feed(far, 1) == Some(Feed { term: PanTerm::Right, send: false }),
{
}

/// An ambisonic mode has 2n + 1 direct channels in the plane and (n + 1)² in
/// space, and besides them one for a reverb bus of order 0, or those of first
/// order for one of a higher order.
pub proof fn law_ambisonic_channels(order: u8, dims: u8, reverb: Option<u8>)
    ensures
        ({
            let n = PanMode::Ambisonic { order, dims, reverb }.channels();
            let direct: int = if dims == 2 {
                2 * order + 1
            } else {
                (order + 1) * (order + 1)
            };
            &&& reverb is None ==> n == direct
            &&& reverb == Some(0u8) ==> n == direct + 1
            &&& reverb matches Some(k) ==> k >= 1 ==> n == direct + (if dims == 2 {
                3int
            } else {
                4
            })
        }),
{
}

/// A token is a letter, capital or small, and a number as it is written.
pub proof fn law_letter_and_number_are_a_token(letter: char, c: char, n: u8)
    requires
        'a' <= letter <= 'z',
        c == letter || ('A' <= c <= 'Z' && c as u32 - 'A' as u32 == letter as u32 - 'a' as u32),
    ensures
        is_token(seq![c] + text::written(n as nat), letter, n),
{
    let token = seq![c] + text::written(n as nat);
    text::law_written_numbers_are_read(n as nat, 255);
    text::law_capitals_are_made_small(c);
    assert(token.drop_first() =~= text::written(n as nat));
    assert forall|i: int| #![trigger token[i]] 0 <= i < token.len() implies !text::is_space(
        token[i],
    ) by {
        if i > 0 {
            text::lemma_written(n as nat);
            assert(text::is_digit(text::written(n as nat)[i - 1]));
            assert(token[i] == text::written(n as nat)[i - 1]);
        }
    }
}

/// What a list of tokens says of the order is what the last token with the
/// letter for it says, and so for the dimensions and for the reverb bus; where
/// there is no such token nothing is said. Tokens with other letters say nothing
/// of them.
pub proof fn law_last_token_of_a_letter_counts(tokens: Seq<Seq<char>>, letter: char, i: int)
    requires
        letter == 'o' || letter == 'd' || letter == 'r',
        -1 <= i < tokens.len(),
        i >= 0 ==> text::lower(tokens[i][0]) == letter,
        forall|j: int|
            #![trigger tokens[j]]
            i < j < tokens.len() ==> text::lower(tokens[j][0]) != letter,
    ensures
        ({
            let said = AmbTokens::of(tokens);
            let n = if i >= 0 {
                text::decimal(tokens[i].drop_first(), 255)
            } else {
                None
            };
            &&& letter == 'o' ==> said.order == (match n {
                Some(v) => Some(v as u8),
                None => None::<u8>,
            })
            &&& letter == 'd' ==> said.dims == (match n {
                Some(v) => Some(v as u8),
                None => None::<u8>,
            })
            &&& letter == 'r' ==> said.reverb == (if i < 0 {
                None
            } else {
                match n {
                    Some(v) => Some(v as u8),
                    None => Some(0u8),
                }
            })
        }),
    decreases tokens.len(),
{
    let n = tokens.len() - 1;
    if i < n {
        let fewer = tokens.drop_last();
        assert forall|j: int| #![trigger fewer[j]] i < j < fewer.len() implies text::lower(
            fewer[j][0],
        ) != letter by {
            assert(fewer[j] == tokens[j]);
        }
        if i >= 0 {
            assert(fewer[i] == tokens[i]);
        }
        law_last_token_of_a_letter_counts(fewer, letter, i);
        assert(text::lower(tokens[n][0]) != letter);
    }
}

/// The tokens denote a mode if and only if order and dimensions are said and no
/// token has another letter, and the mode is the one that was said.
pub proof fn law_tokens_denote_what_they_say(tokens: Seq<Seq<char>>)
    ensures
        ({
            let said = AmbTokens::of(tokens);
            let other = exists|i: int|
                #![trigger tokens[i]]
                0 <= i < tokens.len() && ({
                    let letter = text::lower(tokens[i][0]);
                    letter != 'o' && letter != 'd' && letter != 'r'
                });
            &&& said.mode() is Some <==> said.order is Some && said.dims is Some && !other
            &&& said.mode() matches Some(mode) ==> mode == (PanMode::Ambisonic {
                order: said.order->0,
                dims: said.dims->0,
                reverb: said.reverb,
            })
        }),
{
    lemma_unknown_is_there(tokens);
    if exists|i: int|
        #![trigger tokens[i]]
        0 <= i < tokens.len() && ({
            let letter = text::lower(tokens[i][0]);
            letter != 'o' && letter != 'd' && letter != 'r'
        }) {
        let i = choose|i: int|
            #![trigger tokens[i]]
            0 <= i < tokens.len() && ({
                let letter = text::lower(tokens[i][0]);
                letter != 'o' && letter != 'd' && letter != 'r'
            });
        lemma_unknown_stays(tokens, i);
    }
}

proof fn lemma_unknown_is_there(tokens: Seq<Seq<char>>)
    ensures
        AmbTokens::of(tokens).unknown ==> exists|i: int|
            #![trigger tokens[i]]
            0 <= i < tokens.len() && ({
                let letter = text::lower(tokens[i][0]);
                letter != 'o' && letter != 'd' && letter != 'r'
            }),
    decreases tokens.len(),
{
    if tokens.len() > 0 {
        let fewer = tokens.drop_last();
        lemma_unknown_is_there(fewer);
        if AmbTokens::of(fewer).unknown {
            let i = choose|i: int|
                #![trigger fewer[i]]
                0 <= i < fewer.len() && ({
                    let letter = text::lower(fewer[i][0]);
                    letter != 'o' && letter != 'd' && letter != 'r'
                });
            assert(tokens[i] == fewer[i]);
        } else if AmbTokens::of(tokens).unknown {
            assert(tokens[tokens.len() - 1] == tokens.last());
        }
    }
}

/// Mono and stereo are denoted by their names, in whatever case and with white
/// space around them, and by nothing else.
pub proof fn law_mono_and_stereo_are_named(s: Seq<char>)
    ensures
        denoted_mode(s) == Some(PanMode::Mono) <==> text::same_but_case(text::trimmed(s), "mono"@),
        denoted_mode(s) == Some(PanMode::Stereo) <==> text::same_but_case(
            text::trimmed(s),
            "stereo"@,
        ),
{
    reveal_strlit("mono");
    reveal_strlit("stereo");
}

/// A text denotes an ambisonic mode only if it begins with "amb", and then by
/// the words that follow.
pub proof fn law_ambisonics_is_named(s: Seq<char>)
    ensures
        ({
            let t = text::trimmed(s);
            let named = t.len() >= 3 && (t.take(3) == "amb"@ || t.take(3) == "Amb"@ || t.take(3)
                == "AMB"@);
            &&& denoted_mode(s) matches Some(PanMode::Ambisonic { .. }) ==> named
            &&& named ==> denoted_mode(s) == AmbTokens::of(text::words(t.skip(3))).mode()
        }),
{
    reveal_strlit("amb");
    reveal_strlit("Amb");
    reveal_strlit("AMB");
    reveal_strlit("mono");
    reveal_strlit("stereo");
    let t = text::trimmed(s);
    if t.len() >= 3 {
        assert(t.take(3) =~= t.subrange(0, 3));
        if t.take(3) == "amb"@ || t.take(3) == "Amb"@ || t.take(3) == "AMB"@ {
            assert(t[0] == t.take(3)[0]);
            assert(text::lower(t[0]) == 'a');
            if text::same_but_case(t, "mono"@) {
                assert(text::lower(t[0]) == text::lower("mono"@[0]));
            }
            if text::same_but_case(t, "stereo"@) {
                assert(text::lower(t[0]) == text::lower("stereo"@[0]));
            }
        }
    }
}

/// The reverb bus is muted for sources closer than the reference distance, and
/// what the direct channels are fed with does not depend on it.
pub proof fn law_reverb_is_muted_up_close(mode: PanMode, far: bool, ch: int)
    requires
        0 <= ch < mode.channels(),
    ensures
        mode.feed(false, ch) matches Some(feed) ==> !feed.send,
        mode.feed(far, ch) matches Some(feed) ==> !feed.send ==> mode.feed(!far, ch) == Some(feed),
{
}

/// The size of the reverb bus does not depend on the order of the direct
/// signal.
pub proof fn law_reverb_size_is_fixed(order: u8, other: u8, dims: u8, reverb: Option<u8>)
    ensures
        ambisonic(order, dims, reverb).channels() - direct_channels(order, dims) == ambisonic(
            other,
            dims,
            reverb,
        ).channels() - direct_channels(other, dims),
{
}

/// A first-order reverb bus carries the same terms as the first channels of a
/// direct signal of any order above 0.
pub proof fn law_reverb_copies_first_order(order: u8, dims: u8, reverb_order: u8, k: int)
    requires
        order >= 1,
        reverb_order >= 1,
        0 <= k < direct_channels(1, dims),
    ensures
        k < direct_channels(order, dims),
        ({
            let mode = ambisonic(order, dims, Some(reverb_order));
            match (mode.feed(true, k), mode.feed(true, direct_channels(order, dims) + k)) {
                (Some(dry), Some(wet)) => dry.term == wet.term && !dry.send && wet.send,
                (None, None) => true,
                _ => false,
            }
        }),
{
    assert(2 * 2 <= (order + 1) * (order + 1)) by (nonlinear_arith)
        requires
            order >= 1,
    ;
}

} // verus!
