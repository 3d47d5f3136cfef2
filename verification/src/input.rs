//! Reading the players' answers: a choice between `1` and `2`, and whether
//! to play again. Only the analysis of the text typed stands here.

use vstd::prelude::*;

verus! {

/// Collects the characters of `text`.
fn chars_of(text: &str) -> (chars: Vec<char>)
    ensures
        chars@ == text@,
{
    let mut chars: Vec<char> = Vec::new();
    for c in it: text.chars()
        invariant
            chars@ == it.seq().take(it.index() as int),
    {
        chars.push(c);
    }
    chars
}

/// Unicode `White_Space`, the characters that `str::trim` removes:
/// U+0009–U+000D, U+0020, U+0085, U+00A0, U+1680, U+2000–U+200A, U+2028,
/// U+2029, U+202F, U+205F and U+3000.
pub open spec fn is_white_space(c: char) -> bool {
    let n = c as int;
    ||| 0x09 <= n <= 0x0d
    ||| n == 0x20
    ||| n == 0x85
    ||| n == 0xa0
    ||| n == 0x1680
    ||| 0x2000 <= n <= 0x200a
    ||| n == 0x2028
    ||| n == 0x2029
    ||| n == 0x202f
    ||| n == 0x205f
    ||| n == 0x3000
}

/// The text without its leading white space.
pub open spec fn trim_start(s: Seq<char>) -> Seq<char>
    decreases s.len(),
{
    if s.len() > 0 && is_white_space(s[0]) {
        trim_start(s.drop_first())
    } else {
        s
    }
}

/// The text without its trailing white space.
pub open spec fn trim_end(s: Seq<char>) -> Seq<char>
    decreases s.len(),
{
    if s.len() > 0 && is_white_space(s.last()) {
        trim_end(s.drop_last())
    } else {
        s
    }
}

/// The text without leading and trailing white space, as `str::trim`.
pub open spec fn trim(s: Seq<char>) -> Seq<char> {
    trim_end(trim_start(s))
}

/// Whether a character is Unicode white space.
fn white_space(c: char) -> (ws: bool)
    ensures
        ws == is_white_space(c),
{
    let n = c as u32;
    (0x09 <= n && n <= 0x0d) || n == 0x20 || n == 0x85 || n == 0xa0 || n == 0x1680 || (0x2000
        <= n && n <= 0x200a) || n == 0x2028 || n == 0x2029 || n == 0x202f || n == 0x205f || n
        == 0x3000
}

/// Leading white space up to `start` and none at `start`: trimming the
/// start leaves what follows `start`.
proof fn lemma_trim_start_at(s: Seq<char>, start: int)
    requires
        0 <= start <= s.len(),
        forall|j: int| 0 <= j < start ==> is_white_space(#[trigger] s[j]),
        start < s.len() ==> !is_white_space(s[start]),
    ensures
        trim_start(s) == s.subrange(start, s.len() as int),
    decreases start,
{
    if start == 0 {
        assert(s.subrange(0, s.len() as int) =~= s);
    } else {
        let t = s.drop_first();
        assert forall|j: int| 0 <= j < start - 1 implies is_white_space(#[trigger] t[j]) by {
            assert(t[j] == s[j + 1]);
        }
        lemma_trim_start_at(t, start - 1);
        assert(t.subrange(start - 1, t.len() as int) =~= s.subrange(start, s.len() as int));
    }
}

/// Trailing white space from `end` on and none just before `end`: trimming
/// the end leaves what comes before `end`.
proof fn lemma_trim_end_at(s: Seq<char>, end: int)
    requires
        0 <= end <= s.len(),
        forall|j: int| end <= j < s.len() ==> is_white_space(#[trigger] s[j]),
        end > 0 ==> !is_white_space(s[end - 1]),
    ensures
        trim_end(s) == s.subrange(0, end),
    decreases s.len() - end,
{
    if end == s.len() {
        assert(s.subrange(0, end) =~= s);
    } else {
        let t = s.drop_last();
        assert forall|j: int| end <= j < t.len() implies is_white_space(#[trigger] t[j]) by {
            assert(t[j] == s[j]);
        }
        lemma_trim_end_at(t, end);
        assert(t.subrange(0, end) =~= s.subrange(0, end));
    }
}

/// The characters of `text` without leading and trailing white space.
fn trimmed_chars(text: &str) -> (trimmed: Vec<char>)
    ensures
        trimmed@ == trim(text@),
{
    let chars = chars_of(text);
    let n = chars.len();
    let mut start: usize = 0;
    while start < n && white_space(chars[start])
        invariant
            n == chars.len(),
            start <= n,
            forall|j: int| 0 <= j < start ==> is_white_space(#[trigger] chars@[j]),
        decreases n - start,
    {
        start = start + 1;
    }
    let mut end: usize = n;
    while end > start && white_space(chars[end - 1])
        invariant
            n == chars.len(),
            start <= end <= n,
            forall|j: int| end <= j < n ==> is_white_space(#[trigger] chars@[j]),
        decreases end,
    {
        end = end - 1;
    }
    let mut trimmed: Vec<char> = Vec::new();
    let mut k: usize = start;
    while k < end
        invariant
            n == chars.len(),
            start <= k <= end <= n,
            trimmed@ == chars@.subrange(start as int, k as int),
        decreases end - k,
    {
        trimmed.push(chars[k]);
        k = k + 1;
    }
    proof {
        let s = chars@;
        lemma_trim_start_at(s, start as int);
        let rest = s.subrange(start as int, n as int);
        assert forall|j: int| end - start <= j < rest.len() implies is_white_space(#[trigger] rest[j]) by {
            assert(rest[j] == s[j + start]);
        }
        if end > start {
            assert(rest[end - start - 1] == s[end - 1]);
        }
        lemma_trim_end_at(rest, end - start);
        assert(rest.subrange(0, end - start) =~= s.subrange(start as int, end as int));
    }
    trimmed
}

/// Whether the text, once trimmed, is exactly the one character `c`.
fn trims_to_char(text: &str, c: char) -> (matches: bool)
    ensures
        matches == (trim(text@) == seq![c]),
{
    let trimmed = trimmed_chars(text);
    if trimmed.len() == 1 && trimmed[0] == c {
        assert(trimmed@ =~= seq![c]);
        true
    } else {
        assert(trimmed@ != seq![c]) by {
            if trimmed@ == seq![c] {
                assert(trimmed@.len() == 1);
                assert(trimmed@[0] == c);
            }
        }
        false
    }
}

/// The choice that a typed answer stands for: `1` or `2` once trimmed,
/// and `1` for anything else.
pub open spec fn spec_choice(answer: Seq<char>) -> u8 {
    if trim(answer) == seq!['2'] { 2 } else { 1 }
}

/// Reads a choice from the text typed: `"1"` gives 1 and `"2"` gives 2,
/// surrounding white space ignored; anything else falls back to 1.
pub fn parse_choice_1_or_2(input: &str) -> (choice: u8)
    ensures
        choice == spec_choice(input@),
        trim(input@) == seq!['1'] ==> choice == 1,
        trim(input@) == seq!['2'] ==> choice == 2,
{
    if trims_to_char(input, '1') {
        assert(seq!['1'][0] != seq!['2'][0]);
        1
    } else if trims_to_char(input, '2') {
        2
    } else {
        1
    }
}

/// Whether the typed answer is one of the two choices offered (anything
/// else falls back to choice 1 with a warning).
pub fn is_offered_choice(input: &str) -> (offered: bool)
    ensures
        offered == (trim(input@) == seq!['1'] || trim(input@) == seq!['2']),
{
    trims_to_char(input, '1') || trims_to_char(input, '2')
}

/// Whether the answer to "play again?" is yes: `y` in either case,
/// surrounding white space ignored.
pub fn wants_replay(answer: &str) -> (again: bool)
    ensures
        again == (trim(answer@) == seq!['y'] || trim(answer@) == seq!['Y']),
{
    trims_to_char(answer, 'y') || trims_to_char(answer, 'Y')
}

/// Whether every character of `s` is white space.
pub open spec fn all_white_space(s: Seq<char>) -> bool {
    forall|j: int| 0 <= j < s.len() ==> is_white_space(#[trigger] s[j])
}

/// Leading white space is dropped by `trim_start`.
proof fn lemma_trim_start_skips(w: Seq<char>, x: Seq<char>)
    requires
        all_white_space(w),
    ensures
        trim_start(w + x) == trim_start(x),
    decreases w.len(),
{
    if w.len() > 0 {
        assert((w + x)[0] == w[0]);
        assert((w + x).drop_first() =~= w.drop_first() + x);
        assert forall|j: int| 0 <= j < w.drop_first().len() implies is_white_space(
            #[trigger] w.drop_first()[j],
        ) by {
            assert(w.drop_first()[j] == w[j + 1]);
        }
        lemma_trim_start_skips(w.drop_first(), x);
    } else {
        assert(w + x =~= x);
    }
}

/// Trailing white space is dropped by `trim_end`.
proof fn lemma_trim_end_skips(x: Seq<char>, w: Seq<char>)
    requires
        all_white_space(w),
    ensures
        trim_end(x + w) == trim_end(x),
    decreases w.len(),
{
    if w.len() > 0 {
        assert((x + w).last() == w.last());
        assert((x + w).drop_last() =~= x + w.drop_last());
        assert forall|j: int| 0 <= j < w.drop_last().len() implies is_white_space(
            #[trigger] w.drop_last()[j],
        ) by {
            assert(w.drop_last()[j] == w[j]);
        }
        lemma_trim_end_skips(x, w.drop_last());
    } else {
        assert(x + w =~= x);
    }
}

/// When `s` holds something other than white space, trimming the start of
/// `s + w` keeps `w` whole.
proof fn lemma_trim_start_keeps_tail(s: Seq<char>, w: Seq<char>)
    requires
        !all_white_space(s),
    ensures
        trim_start(s + w) == trim_start(s) + w,
    decreases s.len(),
{
    assert((s + w)[0] == s[0]);
    if is_white_space(s[0]) {
        assert((s + w).drop_first() =~= s.drop_first() + w);
        let j = choose|j: int| 0 <= j < s.len() && !is_white_space(s[j]);
        assert(s.drop_first()[j - 1] == s[j]);
        lemma_trim_start_keeps_tail(s.drop_first(), w);
    }
}

/// White space around an answer changes nothing once it is trimmed.
pub proof fn law_trim_ignores_padding(before: Seq<char>, s: Seq<char>, after: Seq<char>)
    requires
        all_white_space(before),
        all_white_space(after),
    ensures
        trim(before + s + after) == trim(s),
        spec_choice(before + s + after) == spec_choice(s),
{
    assert(before + s + after =~= before + (s + after));
    lemma_trim_start_skips(before, s + after);
    if all_white_space(s) {
        lemma_trim_start_skips(s, after);
        lemma_trim_start_skips(after, Seq::<char>::empty());
        lemma_trim_start_skips(s, Seq::<char>::empty());
        assert(after + Seq::<char>::empty() =~= after);
        assert(s + Seq::<char>::empty() =~= s);
    } else {
        lemma_trim_start_keeps_tail(s, after);
        lemma_trim_end_skips(trim_start(s), after);
    }
}

/// A typed answer always stands for choice 1 or choice 2.
pub proof fn law_choice_is_one_or_two(answer: Seq<char>)
    ensures
        spec_choice(answer) == 1 || spec_choice(answer) == 2,
{
}

/// Trimming keeps exactly the core of the text: the white space around it
/// goes, and a core that begins and ends with something other than white
/// space stays whole (an all-white text trims to nothing).
pub proof fn law_trim_keeps_the_core(before: Seq<char>, core: Seq<char>, after: Seq<char>)
    requires
        all_white_space(before),
        all_white_space(after),
        core.len() > 0 ==> !is_white_space(core[0]) && !is_white_space(core.last()),
    ensures
        trim(before + core + after) == core,
{
    law_trim_ignores_padding(before, core, after);
    if core.len() == 0 {
        assert(trim_start(core) == core);
    }
}

/// The choice read from an answer: a single `2` surrounded by white space
/// gives 2, a single `1` or any other single character gives 1, and so
/// does an answer with more than one character between its white space (or
/// none at all).
pub proof fn law_choice_of_an_answer(before: Seq<char>, core: Seq<char>, after: Seq<char>)
    requires
        all_white_space(before),
        all_white_space(after),
        core.len() > 0 ==> !is_white_space(core[0]) && !is_white_space(core.last()),
    ensures
        core.len() == 1 ==> spec_choice(before + core + after) == (if core[0] == '2' {
            2u8
        } else {
            1u8
        }),
        core.len() != 1 ==> spec_choice(before + core + after) == 1,
{
    law_trim_keeps_the_core(before, core, after);
    if core.len() == 1 {
        if core[0] == '2' {
            assert(core =~= seq!['2']);
        }
    }
}

} // verus!
