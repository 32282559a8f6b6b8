//! Reading small pieces of text: words, numbers and white space.
use vstd::prelude::*;

verus! {

/// The white-space characters of Unicode.
pub open spec fn is_space(c: char) -> bool {
    let p = c as u32;
    ||| 0x09 <= p <= 0x0d
    ||| p == 0x20
    ||| p == 0x85
    ||| p == 0xa0
    ||| p == 0x1680
    ||| 0x2000 <= p <= 0x200a
    ||| p == 0x2028
    ||| p == 0x2029
    ||| p == 0x202f
    ||| p == 0x205f
    ||| p == 0x3000
}

/// The text without white space at its ends.
pub open spec fn trimmed(s: Seq<char>) -> Seq<char>
    decreases s.len(),
{
    if s.len() == 0 {
        s
    } else if is_space(s.last()) {
        trimmed(s.drop_last())
    } else if is_space(s.first()) {
        trimmed(s.drop_first())
    } else {
        s
    }
}

/// The stretches of the text between white space.
pub open spec fn words(s: Seq<char>) -> Seq<Seq<char>>
    decreases s.len(),
{
    if s.len() == 0 {
        Seq::empty()
    } else {
        let before = words(s.drop_last());
        if is_space(s.last()) {
            before
        } else if s.len() == 1 || is_space(s[s.len() - 2]) {
            before.push(seq![s.last()])
        } else {
            before.drop_last().push(before.last().push(s.last()))
        }
    }
}

/// A character with ASCII capitals made small.
pub open spec fn lower(c: char) -> char {
    if 'A' <= c <= 'Z' {
        (c as u32 + 32) as char
    } else {
        c
    }
}

/// The two texts differ at most in the case of ASCII letters.
pub open spec fn same_but_case(a: Seq<char>, b: Seq<char>) -> bool {
    &&& a.len() == b.len()
    &&& forall|i: int| #![trigger a[i]] #![trigger b[i]] 0 <= i < a.len() ==> lower(a[i]) == lower(b[i])
}

pub open spec fn is_digit(c: char) -> bool {
    '0' <= c <= '9'
}

pub open spec fn all_digits(s: Seq<char>) -> bool {
    forall|i: int| #![trigger s[i]] 0 <= i < s.len() ==> is_digit(s[i])
}

/// The number that decimal digits write.
pub open spec fn digits_value(s: Seq<char>) -> int
    decreases s.len(),
{
    if s.len() == 0 {
        0
    } else {
        10 * digits_value(s.drop_last()) + (s.last() as u32 - '0' as u32)
    }
}

/// The text without one leading plus sign.
pub open spec fn unsigned_part(s: Seq<char>) -> Seq<char> {
    if s.len() > 0 && s[0] == '+' {
        s.drop_first()
    } else {
        s
    }
}

/// The number of at most `max` that a text writes: decimal digits, at least
/// one, after at most one plus sign.
pub open spec fn decimal(s: Seq<char>, max: int) -> Option<int> {
    let digits = unsigned_part(s);
    if digits.len() > 0 && all_digits(digits) && digits_value(digits) <= max {
        Some(digits_value(digits))
    } else {
        None
    }
}

/// The characters of a text.
pub fn chars_of(s: &str) -> (chars: Vec<char>)
    ensures
        chars@ == s@,
{
    let mut chars: Vec<char> = Vec::new();
    for c in it: s.chars()
        invariant
            chars@ == it.seq().take(it.index() as int),
            it.seq() == s@,
    {
        chars.push(c);
    }
    chars
}

/// Whether two texts are the same.
pub fn same_text(a: &str, b: &str) -> (same: bool)
    ensures
        same == (a@ == b@),
{
    a.to_owned() == b.to_owned()
}

/// Whether a character is white space.
pub fn is_white(c: char) -> (white: bool)
    ensures
        white == is_space(c),
{
    let p: u32 = c as u32;
    (0x09 <= p && p <= 0x0d) || p == 0x20 || p == 0x85 || p == 0xa0 || p == 0x1680 || (0x2000 <= p
        && p <= 0x200a) || p == 0x2028 || p == 0x2029 || p == 0x202f || p == 0x205f || p == 0x3000
}

/// The part of a text from one position up to another.
pub fn part(chars: &Vec<char>, from: usize, to: usize) -> (part: Vec<char>)
    requires
        from <= to <= chars@.len(),
    ensures
        part@ == chars@.subrange(from as int, to as int),
{
    let mut part: Vec<char> = Vec::with_capacity(to - from);
    let mut i: usize = from;
    while i < to
        invariant
            from <= i <= to <= chars@.len(),
            part@ == chars@.subrange(from as int, i as int),
        decreases to - i,
    {
        part.push(chars[i]);
        i = i + 1;
    }
    part
}

/// The text without white space at its ends.
pub fn trim(chars: &Vec<char>) -> (text: Vec<char>)
    ensures
        text@ == trimmed(chars@),
{
    let mut from: usize = 0;
    let mut to: usize = chars.len();
    proof {
        assert(chars@.subrange(0, to as int) =~= chars@);
    }
    while from < to && is_white(chars[to - 1])
        invariant
            from == 0,
            to <= chars@.len(),
            trimmed(chars@.subrange(0, to as int)) == trimmed(chars@),
        decreases to,
    {
        let ghost now = chars@.subrange(0, to as int);
        proof {
            assert(now.drop_last() =~= chars@.subrange(0, to - 1));
        }
        to = to - 1;
    }
    while from < to && is_white(chars[from])
        invariant
            from <= to <= chars@.len(),
            from < to ==> !is_space(chars@[to - 1]),
            trimmed(chars@.subrange(from as int, to as int)) == trimmed(chars@),
        decreases to - from,
    {
        let ghost now = chars@.subrange(from as int, to as int);
        proof {
            assert(now.drop_first() =~= chars@.subrange(from + 1, to as int));
        }
        from = from + 1;
    }
    part(chars, from, to)
}

/// The stretches of a text between white space.
pub fn split_words(chars: &Vec<char>) -> (list: Vec<Vec<char>>)
    ensures
        list@.len() == words(chars@).len(),
        forall|i: int| #![trigger list@[i]] 0 <= i < list@.len() ==> list@[i]@ == words(chars@)[i],
{
    let mut list: Vec<Vec<char>> = Vec::new();
    let mut i: usize = 0;
    while i < chars.len()
        invariant
            i <= chars@.len(),
            list@.len() == words(chars@.take(i as int)).len(),
            forall|k: int|
                #![trigger list@[k]]
                0 <= k < list@.len() ==> list@[k]@ == words(chars@.take(i as int))[k],
        decreases chars@.len() - i,
    {
        let ghost done = chars@.take(i as int);
        let ghost next = chars@.take(i + 1);
        let c: char = chars[i];
        proof {
            assert(next.drop_last() =~= done);
        }
        if !is_white(c) {
            if i == 0 || is_white(chars[i - 1]) {
                let mut word: Vec<char> = Vec::new();
                word.push(c);
                proof {
                    assert(word@ =~= seq![c]);
                }
                list.push(word);
            } else {
                proof {
                    lemma_word_at_end(done);
                }
                match list.pop() {
                    Some(mut word) => {
                        word.push(c);
                        list.push(word);
                    },
                    None => {},
                }
            }
        }
        i = i + 1;
    }
    proof {
        assert(chars@.take(i as int) =~= chars@);
    }
    list
}

/// A text that does not end in white space ends in a word.
proof fn lemma_word_at_end(s: Seq<char>)
    requires
        s.len() > 0,
        !is_space(s.last()),
    ensures
        words(s).len() > 0,
{
}

/// Every word has characters, and none of them is white space.
pub proof fn law_words_hold_no_space(s: Seq<char>)
    ensures
        forall|i: int|
            #![trigger words(s)[i]]
            0 <= i < words(s).len() ==> words(s)[i].len() > 0 && forall|k: int|
                #![trigger words(s)[i][k]]
                0 <= k < words(s)[i].len() ==> !is_space(words(s)[i][k]),
    decreases s.len(),
{
    if s.len() > 0 {
        let before = words(s.drop_last());
        law_words_hold_no_space(s.drop_last());
        assert forall|i: int| #![trigger words(s)[i]] 0 <= i < words(s).len() implies words(
            s,
        )[i].len() > 0 && forall|k: int|
            #![trigger words(s)[i][k]]
            0 <= k < words(s)[i].len() ==> !is_space(words(s)[i][k]) by {
            let word = words(s)[i];
            if !is_space(s.last()) && i == words(s).len() - 1 {
                if !(s.len() == 1 || is_space(s[s.len() - 2])) {
                    lemma_word_at_end(s.drop_last());
                    let stem = before[before.len() - 1];
                    assert(word == stem.push(s.last()));
                    assert forall|k: int| #![trigger word[k]] 0 <= k < word.len() implies !is_space(
                        word[k],
                    ) by {
                        if k < stem.len() {
                            assert(!is_space(stem[k]));
                        }
                    }
                }
            } else {
                assert(word == before[i]);
                assert forall|k: int| #![trigger word[k]] 0 <= k < word.len() implies !is_space(
                    word[k],
                ) by {
                    assert(!is_space(before[i][k]));
                }
            }
        }
    }
}

pub open spec fn all_space(s: Seq<char>) -> bool {
    forall|i: int| #![trigger s[i]] 0 <= i < s.len() ==> is_space(s[i])
}

/// A word: at least one character, and no white space.
pub open spec fn is_word(s: Seq<char>) -> bool {
    s.len() > 0 && forall|i: int| #![trigger s[i]] 0 <= i < s.len() ==> !is_space(s[i])
}

/// Words, each with a gap in front of it.
pub open spec fn spaced(gaps: Seq<Seq<char>>, list: Seq<Seq<char>>) -> Seq<char>
    decreases list.len(),
{
    if list.len() == 0 {
        Seq::empty()
    } else {
        spaced(gaps.drop_last(), list.drop_last()) + gaps.last() + list.last()
    }
}

/// The gaps are white space, and only the first may be empty.
pub open spec fn are_gaps(gaps: Seq<Seq<char>>) -> bool {
    forall|i: int|
        #![trigger gaps[i]]
        0 <= i < gaps.len() ==> all_space(gaps[i]) && (i > 0 ==> gaps[i].len() > 0)
}

/// White space at the ends of a text is all that trimming removes.
pub proof fn law_trimming_removes_only_space(lead: Seq<char>, body: Seq<char>, trail: Seq<char>)
    requires
        all_space(lead),
        all_space(trail),
        body.len() > 0,
        !is_space(body.first()),
        !is_space(body.last()),
    ensures
        trimmed(lead + body + trail) == body,
    decreases lead.len() + trail.len(),
{
    let s = lead + body + trail;
    if trail.len() > 0 {
        let rest = trail.drop_last();
        assert(s.last() == trail[trail.len() - 1]);
        assert(s.drop_last() =~= lead + body + rest);
        assert forall|i: int| #![trigger rest[i]] 0 <= i < rest.len() implies is_space(rest[i]) by {
            assert(rest[i] == trail[i]);
        }
        law_trimming_removes_only_space(lead, body, rest);
    } else if lead.len() > 0 {
        let rest = lead.drop_first();
        assert(s.last() == body.last());
        assert(s.first() == lead[0]);
        assert(s.drop_first() =~= rest + body + trail);
        assert forall|i: int| #![trigger rest[i]] 0 <= i < rest.len() implies is_space(rest[i]) by {
            assert(rest[i] == lead[i + 1]);
        }
        law_trimming_removes_only_space(rest, body, trail);
    } else {
        assert(s =~= body);
    }
}

proof fn lemma_gap_adds_no_word(s: Seq<char>, gap: Seq<char>)
    requires
        all_space(gap),
    ensures
        words(s + gap) == words(s),
    decreases gap.len(),
{
    if gap.len() > 0 {
        let rest = gap.drop_last();
        assert((s + gap).drop_last() =~= s + rest);
        assert((s + gap).last() == gap[gap.len() - 1]);
        assert forall|i: int| #![trigger rest[i]] 0 <= i < rest.len() implies is_space(rest[i]) by {
            assert(rest[i] == gap[i]);
        }
        lemma_gap_adds_no_word(s, rest);
    } else {
        assert(s + gap =~= s);
    }
}

proof fn lemma_word_is_added(s: Seq<char>, word: Seq<char>)
    requires
        s.len() == 0 || is_space(s.last()),
        is_word(word),
    ensures
        words(s + word) == words(s).push(word),
    decreases word.len(),
{
    let rest = word.drop_last();
    let all = s + word;
    assert(all.drop_last() =~= s + rest);
    assert(all.last() == word[word.len() - 1]);
    if rest.len() == 0 {
        assert(s + rest =~= s);
        if s.len() > 0 {
            assert(all[all.len() - 2] == s.last());
        }
        assert(word =~= seq![word.last()]);
    } else {
        assert forall|i: int| #![trigger rest[i]] 0 <= i < rest.len() implies !is_space(
            rest[i],
        ) by {
            assert(rest[i] == word[i]);
        }
        lemma_word_is_added(s, rest);
        assert(all[all.len() - 2] == word[word.len() - 2]);
        assert(rest.push(word.last()) =~= word);
        assert(words(s).push(rest).drop_last() =~= words(s));
    }
}

/// Words that are written with gaps between them are read back.
pub proof fn law_spaced_words_are_read_back(gaps: Seq<Seq<char>>, list: Seq<Seq<char>>)
    requires
        gaps.len() == list.len(),
        are_gaps(gaps),
        forall|i: int| #![trigger list[i]] 0 <= i < list.len() ==> is_word(list[i]),
    ensures
        words(spaced(gaps, list)) == list,
        list.len() > 0 ==> spaced(gaps, list).len() > 0 && spaced(gaps, list).last()
            == list.last().last(),
    decreases list.len(),
{
    if list.len() > 0 {
        let n = list.len() - 1;
        let gaps2 = gaps.drop_last();
        let list2 = list.drop_last();
        assert forall|i: int| #![trigger gaps2[i]] 0 <= i < gaps2.len() implies all_space(gaps2[i])
            && (i > 0 ==> gaps2[i].len() > 0) by {
            assert(gaps2[i] == gaps[i]);
        }
        assert forall|i: int| #![trigger list2[i]] 0 <= i < list2.len() implies is_word(
            list2[i],
        ) by {
            assert(list2[i] == list[i]);
        }
        law_spaced_words_are_read_back(gaps2, list2);
        let before = spaced(gaps2, list2);
        let gap = gaps[n];
        assert(is_word(list[n]));
        lemma_gap_adds_no_word(before, gap);
        if gap.len() > 0 {
            assert((before + gap).last() == gap[gap.len() - 1]);
        } else {
            assert(before + gap =~= before);
        }
        lemma_word_is_added(before + gap, list[n]);
        assert(list2.push(list[n]) =~= list);
    }
}

/// A number as it is written: its decimal digits, the highest first, with no
/// zeros in front.
pub open spec fn written(n: nat) -> Seq<char>
    decreases n,
{
    let digit = ('0' as u32 + n % 10) as char;
    if n < 10 {
        seq![digit]
    } else {
        written(n / 10).push(digit)
    }
}

/// A written number is made of digits, and they write it.
pub proof fn lemma_written(n: nat)
    ensures
        written(n).len() > 0,
        all_digits(written(n)),
        digits_value(written(n)) == n,
    decreases n,
{
    let digit = ('0' as u32 + n % 10) as char;
    assert('0' as u32 == 48);
    assert(48 <= digit as u32 <= 57);
    assert(is_digit(digit));
    if n < 10 {
        reveal_with_fuel(digits_value, 2);
        assert(written(n).drop_last() =~= Seq::<char>::empty());
    } else {
        lemma_written(n / 10);
        assert(written(n).drop_last() =~= written(n / 10));
        assert forall|i: int| #![trigger written(n)[i]] 0 <= i < written(n).len() implies is_digit(
            written(n)[i],
        ) by {
            if i < written(n / 10).len() {
                assert(written(n)[i] == written(n / 10)[i]);
            }
        }
    }
}

/// A number that is written out is read as that number, with or without a plus
/// sign, as far as numbers are wanted, and not read where it is larger.
pub proof fn law_written_numbers_are_read(n: nat, max: int)
    ensures
        n <= max ==> decimal(written(n), max) == Some(n as int),
        n <= max ==> decimal(seq!['+'] + written(n), max) == Some(n as int),
        n > max ==> decimal(written(n), max) is None,
{
    lemma_written(n);
    assert((seq!['+'] + written(n)).drop_first() =~= written(n));
    assert(is_digit(written(n)[0]));
}

/// A text with anything but digits in it, after a plus sign that it may begin
/// with, is no number, and neither is one without digits.
pub proof fn law_other_texts_are_no_numbers(s: Seq<char>, max: int, i: int)
    ensures
        s.len() == 0 ==> decimal(s, max) is None,
        s == seq!['+'] ==> decimal(s, max) is None,
        0 <= i < s.len() && !('0' <= s[i] <= '9') && (i > 0 || s[i] != '+') ==> decimal(s, max)
            is None,
{
    if 0 <= i < s.len() && !('0' <= s[i] <= '9') && (i > 0 || s[i] != '+') {
        if s[0] == '+' {
            assert(s.drop_first()[i - 1] == s[i]);
        }
    }
}

/// What is read as a number is one of those that are wanted.
pub proof fn law_numbers_are_in_range(s: Seq<char>, max: int)
    ensures
        decimal(s, max) matches Some(n) ==> 0 <= n <= max,
{
    let digits = unsigned_part(s);
    if all_digits(digits) {
        lemma_digits_value_grows(digits, digits.len() as int);
        assert(digits.take(digits.len() as int) =~= digits);
    }
}

/// A digit more makes a number ten times what it was, and adds the digit.
pub proof fn law_digit_more_is_ten_times_as_much(s: Seq<char>, d: nat, max: int)
    requires
        s.len() > 0,
        s[0] != '+',
        d < 10,
    ensures
        ({
            let longer = s + written(d);
            match decimal(s, max) {
                Some(n) => if 10 * n + d <= max {
                    decimal(longer, max) == Some(10 * n + d)
                } else {
                    decimal(longer, max) is None
                },
                None => decimal(longer, max) is None,
            }
        }),
{
    let longer = s + written(d);
    lemma_written(d);
    assert(written(d).len() == 1);
    assert(longer.drop_last() =~= s);
    assert(longer[0] == s[0]);
    assert(longer.last() == written(d)[0]);
    assert(is_digit(written(d)[0]));
    if all_digits(s) {
        assert forall|i: int| #![trigger longer[i]] 0 <= i < longer.len() implies is_digit(
            longer[i],
        ) by {
            if i < s.len() {
                assert(longer[i] == s[i]);
            }
        }
        lemma_digits_value_grows(s, s.len() as int);
        assert(s.take(s.len() as int) =~= s);
    }
    if all_digits(longer) {
        assert forall|i: int| #![trigger s[i]] 0 <= i < s.len() implies is_digit(s[i]) by {
            assert(longer[i] == s[i]);
        }
    }
}

/// Texts that differ at most in case are the same once their capitals are made
/// small, and only those are.
pub proof fn law_case_is_all_that_may_differ(a: Seq<char>, b: Seq<char>)
    ensures
        same_but_case(a, b) <==> a.map_values(|c: char| lower(c)) == b.map_values(
            |c: char| lower(c),
        ),
{
    let la = a.map_values(|c: char| lower(c));
    let lb = b.map_values(|c: char| lower(c));
    if same_but_case(a, b) {
        assert(la =~= lb);
    }
    if la == lb {
        assert(la.len() == lb.len());
        assert forall|i: int| #![trigger a[i]] #![trigger b[i]] 0 <= i < a.len() implies lower(
            a[i],
        ) == lower(b[i]) by {
            assert(la[i] == lb[i]);
        }
    }
}

/// White space behind a text adds no word to it.
pub proof fn law_trailing_space_adds_no_word(s: Seq<char>, gap: Seq<char>)
    requires
        all_space(gap),
    ensures
        words(s + gap) == words(s),
{
    lemma_gap_adds_no_word(s, gap);
}

/// Capitals are made the small letters of the same place in the alphabet;
/// nothing else is changed.
pub proof fn law_capitals_are_made_small(c: char)
    ensures
        'A' <= c <= 'Z' ==> 'a' <= lower(c) <= 'z' && lower(c) as u32 - 'a' as u32 == c as u32
            - 'A' as u32,
        !('A' <= c <= 'Z') ==> lower(c) == c,
{
}

/// Of the ASCII characters, the blank and the controls from tab to carriage
/// return are white space; no visible one is.
pub proof fn law_blanks_and_line_ends_are_space(c: char)
    requires
        (c as u32) < 0x80,
    ensures
        is_space(c) <==> c == ' ' || '\t' <= c <= '\r',
{
}

/// A text of white space alone is empty once it is trimmed, and has no words.
pub proof fn law_blank_text_is_empty(s: Seq<char>)
    requires
        all_space(s),
    ensures
        trimmed(s).len() == 0,
        words(s).len() == 0,
    decreases s.len(),
{
    if s.len() > 0 {
        let rest = s.drop_last();
        assert forall|i: int| #![trigger rest[i]] 0 <= i < rest.len() implies is_space(rest[i]) by {
            assert(rest[i] == s[i]);
        }
        assert(is_space(s[s.len() - 1]));
        law_blank_text_is_empty(rest);
    }
}

/// A character with an ASCII capital made small.
pub fn to_lower(c: char) -> (l: char)
    ensures
        l == lower(c),
{
    if 'A' <= c && c <= 'Z' {
        ((c as u8) + 32) as char
    } else {
        c
    }
}

/// Whether two texts differ at most in the case of ASCII letters.
pub fn matches_word(chars: &Vec<char>, word: &str) -> (same: bool)
    ensures
        same == same_but_case(chars@, word@),
{
    let other: Vec<char> = chars_of(word);
    if chars.len() != other.len() {
        return false;
    }
    let mut i: usize = 0;
    while i < chars.len()
        invariant
            i <= chars@.len(),
            chars@.len() == other@.len(),
            other@ == word@,
            forall|k: int| 0 <= k < i ==> lower(#[trigger] chars@[k]) == lower(other@[k]),
        decreases chars@.len() - i,
    {
        if to_lower(chars[i]) != to_lower(other[i]) {
            return false;
        }
        i = i + 1;
    }
    true
}

/// Whether a text begins with another one.
pub fn starts_with(chars: &Vec<char>, prefix: &str) -> (starts: bool)
    ensures
        starts == prefix@.is_prefix_of(chars@),
{
    let other: Vec<char> = chars_of(prefix);
    if chars.len() < other.len() {
        return false;
    }
    let mut i: usize = 0;
    while i < other.len()
        invariant
            i <= other@.len() <= chars@.len(),
            other@ == prefix@,
            forall|k: int| 0 <= k < i ==> #[trigger] chars@[k] == other@[k],
        decreases other@.len() - i,
    {
        if chars[i] != other[i] {
            proof {
                assert(chars@.subrange(0, other@.len() as int)[i as int] != prefix@[i as int]);
            }
            return false;
        }
        i = i + 1;
    }
    proof {
        assert(prefix@ =~= chars@.subrange(0, prefix@.len() as int));
    }
    true
}

proof fn lemma_digits_value_grows(s: Seq<char>, n: int)
    requires
        0 <= n <= s.len(),
        all_digits(s),
    ensures
        0 <= digits_value(s.take(n)) <= digits_value(s),
    decreases s.len(),
{
    if n == s.len() {
        assert(s.take(n) =~= s);
        if s.len() > 0 {
            lemma_digits_value_grows(s.drop_last(), n - 1);
        }
    } else {
        lemma_digits_value_grows(s.drop_last(), n);
        assert(s.drop_last().take(n) =~= s.take(n));
    }
}

/// The number of at most `max` that a text writes.
pub fn parse_decimal(chars: &Vec<char>, max: u64) -> (n: Option<u64>)
    ensures
        match decimal(chars@, max as int) {
            Some(v) => n matches Some(parsed) && parsed == v,
            None => n is None,
        },
{
    let start: usize = if chars.len() > 0 && chars[0] == '+' {
        1
    } else {
        0
    };
    let ghost digits = unsigned_part(chars@);
    proof {
        assert(digits =~= chars@.skip(start as int));
    }
    if start == chars.len() {
        return None;
    }
    let mut value: u64 = 0;
    let mut i: usize = start;
    proof {
        assert(digits.take(0) =~= Seq::<char>::empty());
    }
    while i < chars.len()
        invariant
            start <= i <= chars@.len(),
            digits == chars@.skip(start as int),
            digits == unsigned_part(chars@),
            all_digits(digits.take(i - start)),
            value == digits_value(digits.take(i - start)),
            value <= max,
        decreases chars@.len() - i,
    {
        let c: char = chars[i];
        let ghost n = i - start;
        let ghost next = digits.take(n + 1);
        proof {
            assert(next.drop_last() =~= digits.take(n));
            assert(digits[n] == c);
        }
        if c < '0' || c > '9' {
            return None;
        }
        let d: u64 = (c as u32 - '0' as u32) as u64;
        proof {
            assert forall|k: int| #![trigger next[k]] 0 <= k < next.len() implies is_digit(
                next[k],
            ) by {
                if k < n {
                    assert(digits.take(n)[k] == next[k]);
                }
            }
        }
        if d > max || value > (max - d) / 10 {
            proof {
                if all_digits(digits) {
                    lemma_digits_value_grows(digits, n + 1);
                }
            }
            return None;
        }
        value = value * 10 + d;
        i = i + 1;
    }
    proof {
        assert(digits.take(i - start) =~= digits);
    }
    Some(value)
}

} // verus!
