//! Character classes, line splitting, digit runs and decimal numbers:
//! the building blocks of the tool-output grammars.
use vstd::prelude::*;
use vstd::string::*;

verus! {

/// The Unicode `White_Space` property: the class `\s` of the grammars and the
/// characters that trimming removes.
pub open spec fn is_space(c: char) -> bool {
    ||| ('\t' <= c && c <= '\r')
    ||| c == ' '
    ||| c == '\u{85}'
    ||| c == '\u{a0}'
    ||| c == '\u{1680}'
    ||| ('\u{2000}' <= c && c <= '\u{200a}')
    ||| c == '\u{2028}'
    ||| c == '\u{2029}'
    ||| c == '\u{202f}'
    ||| c == '\u{205f}'
    ||| c == '\u{3000}'
}

pub fn space_char(c: char) -> (b: bool)
    ensures
        b == is_space(c),
{
    ('\t' <= c && c <= '\r') || c == ' ' || c == '\u{85}' || c == '\u{a0}' || c == '\u{1680}' || (
    '\u{2000}' <= c && c <= '\u{200a}') || c == '\u{2028}' || c == '\u{2029}' || c == '\u{202f}'
        || c == '\u{205f}' || c == '\u{3000}'
}

/// The Unicode general category `Nd` (decimal number), as of Unicode 16.0:
/// the class `\d` of the grammars.
pub open spec fn is_decimal(c: char) -> bool {
    let v = c as u32;
    ||| (0x30 <= v && v <= 0x39)
    ||| (0x660 <= v && v <= 0x669)
    ||| (0x6F0 <= v && v <= 0x6F9)
    ||| (0x7C0 <= v && v <= 0x7C9)
    ||| (0x966 <= v && v <= 0x96F)
    ||| (0x9E6 <= v && v <= 0x9EF)
    ||| (0xA66 <= v && v <= 0xA6F)
    ||| (0xAE6 <= v && v <= 0xAEF)
    ||| (0xB66 <= v && v <= 0xB6F)
    ||| (0xBE6 <= v && v <= 0xBEF)
    ||| (0xC66 <= v && v <= 0xC6F)
    ||| (0xCE6 <= v && v <= 0xCEF)
    ||| (0xD66 <= v && v <= 0xD6F)
    ||| (0xDE6 <= v && v <= 0xDEF)
    ||| (0xE50 <= v && v <= 0xE59)
    ||| (0xED0 <= v && v <= 0xED9)
    ||| (0xF20 <= v && v <= 0xF29)
    ||| (0x1040 <= v && v <= 0x1049)
    ||| (0x1090 <= v && v <= 0x1099)
    ||| (0x17E0 <= v && v <= 0x17E9)
    ||| (0x1810 <= v && v <= 0x1819)
    ||| (0x1946 <= v && v <= 0x194F)
    ||| (0x19D0 <= v && v <= 0x19D9)
    ||| (0x1A80 <= v && v <= 0x1A89)
    ||| (0x1A90 <= v && v <= 0x1A99)
    ||| (0x1B50 <= v && v <= 0x1B59)
    ||| (0x1BB0 <= v && v <= 0x1BB9)
    ||| (0x1C40 <= v && v <= 0x1C49)
    ||| (0x1C50 <= v && v <= 0x1C59)
    ||| (0xA620 <= v && v <= 0xA629)
    ||| (0xA8D0 <= v && v <= 0xA8D9)
    ||| (0xA900 <= v && v <= 0xA909)
    ||| (0xA9D0 <= v && v <= 0xA9D9)
    ||| (0xA9F0 <= v && v <= 0xA9F9)
    ||| (0xAA50 <= v && v <= 0xAA59)
    ||| (0xABF0 <= v && v <= 0xABF9)
    ||| (0xFF10 <= v && v <= 0xFF19)
    ||| (0x104A0 <= v && v <= 0x104A9)
    ||| (0x10D30 <= v && v <= 0x10D39)
    ||| (0x10D40 <= v && v <= 0x10D49)
    ||| (0x11066 <= v && v <= 0x1106F)
    ||| (0x110F0 <= v && v <= 0x110F9)
    ||| (0x11136 <= v && v <= 0x1113F)
    ||| (0x111D0 <= v && v <= 0x111D9)
    ||| (0x112F0 <= v && v <= 0x112F9)
    ||| (0x11450 <= v && v <= 0x11459)
    ||| (0x114D0 <= v && v <= 0x114D9)
    ||| (0x11650 <= v && v <= 0x11659)
    ||| (0x116C0 <= v && v <= 0x116C9)
    ||| (0x116D0 <= v && v <= 0x116E3)
    ||| (0x11730 <= v && v <= 0x11739)
    ||| (0x118E0 <= v && v <= 0x118E9)
    ||| (0x11950 <= v && v <= 0x11959)
    ||| (0x11BF0 <= v && v <= 0x11BF9)
    ||| (0x11C50 <= v && v <= 0x11C59)
    ||| (0x11D50 <= v && v <= 0x11D59)
    ||| (0x11DA0 <= v && v <= 0x11DA9)
    ||| (0x11F50 <= v && v <= 0x11F59)
    ||| (0x16130 <= v && v <= 0x16139)
    ||| (0x16A60 <= v && v <= 0x16A69)
    ||| (0x16AC0 <= v && v <= 0x16AC9)
    ||| (0x16B50 <= v && v <= 0x16B59)
    ||| (0x16D70 <= v && v <= 0x16D79)
    ||| (0x1CCF0 <= v && v <= 0x1CCF9)
    ||| (0x1D7CE <= v && v <= 0x1D7FF)
    ||| (0x1E140 <= v && v <= 0x1E149)
    ||| (0x1E2F0 <= v && v <= 0x1E2F9)
    ||| (0x1E4F0 <= v && v <= 0x1E4F9)
    ||| (0x1E5F1 <= v && v <= 0x1E5FA)
    ||| (0x1E950 <= v && v <= 0x1E959)
    ||| (0x1FBF0 <= v && v <= 0x1FBF9)
}

pub fn decimal_char(c: char) -> (b: bool)
    ensures
        b == is_decimal(c),
{
    let v = c as u32;
    (0x30 <= v && v <= 0x39) ||
        (0x660 <= v && v <= 0x669) ||
        (0x6F0 <= v && v <= 0x6F9) ||
        (0x7C0 <= v && v <= 0x7C9) ||
        (0x966 <= v && v <= 0x96F) ||
        (0x9E6 <= v && v <= 0x9EF) ||
        (0xA66 <= v && v <= 0xA6F) ||
        (0xAE6 <= v && v <= 0xAEF) ||
        (0xB66 <= v && v <= 0xB6F) ||
        (0xBE6 <= v && v <= 0xBEF) ||
        (0xC66 <= v && v <= 0xC6F) ||
        (0xCE6 <= v && v <= 0xCEF) ||
        (0xD66 <= v && v <= 0xD6F) ||
        (0xDE6 <= v && v <= 0xDEF) ||
        (0xE50 <= v && v <= 0xE59) ||
        (0xED0 <= v && v <= 0xED9) ||
        (0xF20 <= v && v <= 0xF29) ||
        (0x1040 <= v && v <= 0x1049) ||
        (0x1090 <= v && v <= 0x1099) ||
        (0x17E0 <= v && v <= 0x17E9) ||
        (0x1810 <= v && v <= 0x1819) ||
        (0x1946 <= v && v <= 0x194F) ||
        (0x19D0 <= v && v <= 0x19D9) ||
        (0x1A80 <= v && v <= 0x1A89) ||
        (0x1A90 <= v && v <= 0x1A99) ||
        (0x1B50 <= v && v <= 0x1B59) ||
        (0x1BB0 <= v && v <= 0x1BB9) ||
        (0x1C40 <= v && v <= 0x1C49) ||
        (0x1C50 <= v && v <= 0x1C59) ||
        (0xA620 <= v && v <= 0xA629) ||
        (0xA8D0 <= v && v <= 0xA8D9) ||
        (0xA900 <= v && v <= 0xA909) ||
        (0xA9D0 <= v && v <= 0xA9D9) ||
        (0xA9F0 <= v && v <= 0xA9F9) ||
        (0xAA50 <= v && v <= 0xAA59) ||
        (0xABF0 <= v && v <= 0xABF9) ||
        (0xFF10 <= v && v <= 0xFF19) ||
        (0x104A0 <= v && v <= 0x104A9) ||
        (0x10D30 <= v && v <= 0x10D39) ||
        (0x10D40 <= v && v <= 0x10D49) ||
        (0x11066 <= v && v <= 0x1106F) ||
        (0x110F0 <= v && v <= 0x110F9) ||
        (0x11136 <= v && v <= 0x1113F) ||
        (0x111D0 <= v && v <= 0x111D9) ||
        (0x112F0 <= v && v <= 0x112F9) ||
        (0x11450 <= v && v <= 0x11459) ||
        (0x114D0 <= v && v <= 0x114D9) ||
        (0x11650 <= v && v <= 0x11659) ||
        (0x116C0 <= v && v <= 0x116C9) ||
        (0x116D0 <= v && v <= 0x116E3) ||
        (0x11730 <= v && v <= 0x11739) ||
        (0x118E0 <= v && v <= 0x118E9) ||
        (0x11950 <= v && v <= 0x11959) ||
        (0x11BF0 <= v && v <= 0x11BF9) ||
        (0x11C50 <= v && v <= 0x11C59) ||
        (0x11D50 <= v && v <= 0x11D59) ||
        (0x11DA0 <= v && v <= 0x11DA9) ||
        (0x11F50 <= v && v <= 0x11F59) ||
        (0x16130 <= v && v <= 0x16139) ||
        (0x16A60 <= v && v <= 0x16A69) ||
        (0x16AC0 <= v && v <= 0x16AC9) ||
        (0x16B50 <= v && v <= 0x16B59) ||
        (0x16D70 <= v && v <= 0x16D79) ||
        (0x1CCF0 <= v && v <= 0x1CCF9) ||
        (0x1D7CE <= v && v <= 0x1D7FF) ||
        (0x1E140 <= v && v <= 0x1E149) ||
        (0x1E2F0 <= v && v <= 0x1E2F9) ||
        (0x1E4F0 <= v && v <= 0x1E4F9) ||
        (0x1E5F1 <= v && v <= 0x1E5FA) ||
        (0x1E950 <= v && v <= 0x1E959) ||
        (0x1FBF0 <= v && v <= 0x1FBF9)
}

/// An ASCII digit `0`..`9`.
pub open spec fn is_ascii_digit(c: char) -> bool {
    '0' <= c && c <= '9'
}


// ---------------------------------------------------------------------------
// Runs of one character class

/// The end of the run of `\d` characters that starts at `i`.
pub open spec fn digit_run_end(s: Seq<char>, i: int) -> int
    decreases s.len() - i,
{
    if i < 0 || i >= s.len() || !is_decimal(s[i]) {
        i
    } else {
        digit_run_end(s, i + 1)
    }
}

/// The end of the run of `\s` characters that starts at `i`.
pub open spec fn space_run_end(s: Seq<char>, i: int) -> int
    decreases s.len() - i,
{
    if i < 0 || i >= s.len() || !is_space(s[i]) {
        i
    } else {
        space_run_end(s, i + 1)
    }
}

/// The end of the run of `\S` characters that starts at `i`.
pub open spec fn nonspace_run_end(s: Seq<char>, i: int) -> int
    decreases s.len() - i,
{
    if i < 0 || i >= s.len() || is_space(s[i]) {
        i
    } else {
        nonspace_run_end(s, i + 1)
    }
}

pub proof fn lemma_digit_run(s: Seq<char>, i: int)
    requires
        0 <= i <= s.len(),
    ensures
        i <= digit_run_end(s, i) <= s.len(),
        forall|k: int| i <= k < digit_run_end(s, i) ==> is_decimal(#[trigger] s[k]),
        digit_run_end(s, i) < s.len() ==> !is_decimal(s[digit_run_end(s, i)]),
    decreases s.len() - i,
{
    if i < s.len() && is_decimal(s[i]) {
        lemma_digit_run(s, i + 1);
    }
}

pub proof fn lemma_space_run(s: Seq<char>, i: int)
    requires
        0 <= i <= s.len(),
    ensures
        i <= space_run_end(s, i) <= s.len(),
        forall|k: int| i <= k < space_run_end(s, i) ==> is_space(#[trigger] s[k]),
        space_run_end(s, i) < s.len() ==> !is_space(s[space_run_end(s, i)]),
    decreases s.len() - i,
{
    if i < s.len() && is_space(s[i]) {
        lemma_space_run(s, i + 1);
    }
}

pub proof fn lemma_nonspace_run(s: Seq<char>, i: int)
    requires
        0 <= i <= s.len(),
    ensures
        i <= nonspace_run_end(s, i) <= s.len(),
        forall|k: int| i <= k < nonspace_run_end(s, i) ==> !is_space(#[trigger] s[k]),
        nonspace_run_end(s, i) < s.len() ==> is_space(s[nonspace_run_end(s, i)]),
    decreases s.len() - i,
{
    if i < s.len() && !is_space(s[i]) {
        lemma_nonspace_run(s, i + 1);
    }
}

pub fn digit_run(s: &Vec<char>, i: usize) -> (e: usize)
    requires
        i <= s.len(),
    ensures
        e == digit_run_end(s@, i as int),
{
    let mut j = i;
    while j < s.len() && decimal_char(s[j])
        invariant
            i <= j <= s.len(),
            digit_run_end(s@, i as int) == digit_run_end(s@, j as int),
        decreases s.len() - j,
    {
        j = j + 1;
    }
    j
}

pub fn space_run(s: &Vec<char>, i: usize) -> (e: usize)
    requires
        i <= s.len(),
    ensures
        e == space_run_end(s@, i as int),
{
    let mut j = i;
    while j < s.len() && space_char(s[j])
        invariant
            i <= j <= s.len(),
            space_run_end(s@, i as int) == space_run_end(s@, j as int),
        decreases s.len() - j,
    {
        j = j + 1;
    }
    j
}

pub fn nonspace_run(s: &Vec<char>, i: usize) -> (e: usize)
    requires
        i <= s.len(),
    ensures
        e == nonspace_run_end(s@, i as int),
{
    let mut j = i;
    while j < s.len() && !space_char(s[j])
        invariant
            i <= j <= s.len(),
            nonspace_run_end(s@, i as int) == nonspace_run_end(s@, j as int),
        decreases s.len() - j,
    {
        j = j + 1;
    }
    j
}

/// Whether `s` holds the characters of `lit` from position `i` on.
pub open spec fn has_at(s: Seq<char>, i: int, lit: Seq<char>) -> bool {
    0 <= i && i + lit.len() <= s.len() && s.subrange(i, i + lit.len()) == lit
}

pub fn literal_at(s: &Vec<char>, i: usize, lit: &Vec<char>) -> (b: bool)
    ensures
        b == has_at(s@, i as int, lit@),
{
    if i > s.len() || lit.len() > s.len() - i {
        return false;
    }
    let mut k: usize = 0;
    while k < lit.len()
        invariant
            i + lit.len() <= s.len(),
            k <= lit.len(),
            forall|m: int| 0 <= m < k ==> s@[i + m] == lit@[m],
        decreases lit.len() - k,
    {
        if s[i + k] != lit[k] {
            assert(s@.subrange(i as int, i + lit.len())[k as int] != lit@[k as int]);
            return false;
        }
        k = k + 1;
    }
    assert(s@.subrange(i as int, i + lit.len()) =~= lit@);
    true
}

/// Whether every character of `s` is `\s`: such a string trims to nothing.
pub open spec fn all_space(s: Seq<char>) -> bool {
    forall|k: int| 0 <= k < s.len() ==> is_space(#[trigger] s[k])
}

pub fn only_space(s: &Vec<char>) -> (b: bool)
    ensures
        b == all_space(s@),
{
    let mut k: usize = 0;
    while k < s.len()
        invariant
            k <= s.len(),
            forall|m: int| 0 <= m < k ==> is_space(#[trigger] s@[m]),
        decreases s.len() - k,
    {
        if !space_char(s[k]) {
            return false;
        }
        k = k + 1;
    }
    true
}

/// The end of `s` once trailing `\s` characters are removed.
pub open spec fn trimmed_end(s: Seq<char>) -> int
    decreases s.len(),
{
    if s.len() > 0 && is_space(s.last()) {
        trimmed_end(s.drop_last())
    } else {
        s.len() as int
    }
}

/// `s` with its leading and trailing `\s` characters removed.
pub open spec fn trim(s: Seq<char>) -> Seq<char> {
    let e = trimmed_end(s);
    let b = space_run_end(s, 0);
    if b >= e {
        Seq::empty()
    } else {
        s.subrange(b, e)
    }
}

pub proof fn lemma_trimmed_end(s: Seq<char>)
    ensures
        0 <= trimmed_end(s) <= s.len(),
        forall|k: int| trimmed_end(s) <= k < s.len() ==> is_space(#[trigger] s[k]),
        trimmed_end(s) > 0 ==> !is_space(s[trimmed_end(s) - 1]),
    decreases s.len(),
{
    if s.len() > 0 && is_space(s.last()) {
        lemma_trimmed_end(s.drop_last());
        assert forall|k: int| trimmed_end(s) <= k < s.len() implies is_space(#[trigger] s[k]) by {
            if k < s.len() - 1 {
                assert(s.drop_last()[k] == s[k]);
            }
        }
    }
}

pub fn trim_end_index(s: &Vec<char>) -> (e: usize)
    ensures
        e == trimmed_end(s@),
{
    let mut e = s.len();
    assert(s@.subrange(0, s.len() as int) =~= s@);
    while e > 0 && space_char(s[e - 1])
        invariant
            e <= s.len(),
            trimmed_end(s@) == trimmed_end(s@.subrange(0, e as int)),
        decreases e,
    {
        assert(s@.subrange(0, e as int).drop_last() =~= s@.subrange(0, e - 1));
        e = e - 1;
    }
    e
}

// ---------------------------------------------------------------------------
// Lines

/// The first `\n` at or after `i`, or the length of `s`.
pub open spec fn newline_from(s: Seq<char>, i: int) -> int
    decreases s.len() - i,
{
    if i < 0 || i >= s.len() {
        s.len() as int
    } else if s[i] == '\n' {
        i
    } else {
        newline_from(s, i + 1)
    }
}

pub proof fn lemma_newline_from(s: Seq<char>, i: int)
    requires
        0 <= i <= s.len(),
    ensures
        i <= newline_from(s, i) <= s.len(),
        forall|k: int| i <= k < newline_from(s, i) ==> #[trigger] s[k] != '\n',
        newline_from(s, i) < s.len() ==> s[newline_from(s, i)] == '\n',
    decreases s.len() - i,
{
    if i < s.len() && s[i] != '\n' {
        lemma_newline_from(s, i + 1);
    }
}

/// A line without its terminator: one `\r` before the `\n` goes too.
pub open spec fn strip_cr(l: Seq<char>) -> Seq<char> {
    if l.len() > 0 && l.last() == '\r' {
        l.drop_last()
    } else {
        l
    }
}

/// The lines of `s` from position `i` on: pieces ended by `\n`, with the
/// `\n` (and a `\r` right before it) removed; a last piece without `\n` is
/// kept as it is, and no empty line follows a final `\n`.
pub open spec fn lines_from(s: Seq<char>, i: int) -> Seq<Seq<char>>
    decreases s.len() - i,
{
    if i < 0 || i >= s.len() {
        Seq::empty()
    } else {
        let e = newline_from(s, i);
        if e >= s.len() {
            seq![s.subrange(i, s.len() as int)]
        } else {
            proof {
                lemma_newline_from(s, i);
            }
            seq![strip_cr(s.subrange(i, e))] + lines_from(s, e + 1)
        }
    }
}

/// The lines of `s`.
pub open spec fn lines(s: Seq<char>) -> Seq<Seq<char>> {
    lines_from(s, 0)
}

/// The spans `[start, end)` of the lines of `s`, in order.
pub fn line_spans(s: &Vec<char>) -> (spans: Vec<(usize, usize)>)
    ensures
        spans.len() == lines(s@).len(),
        forall|k: int|
            0 <= k < spans.len() ==> {
                &&& (#[trigger] spans[k]).0 <= spans[k].1 <= s.len()
                &&& s@.subrange(spans[k].0 as int, spans[k].1 as int) == lines(s@)[k]
            },
{
    let mut spans: Vec<(usize, usize)> = Vec::new();
    let ghost mut done: Seq<Seq<char>> = Seq::empty();
    let mut start: usize = 0;
    let mut i: usize = 0;
    while i < s.len()
        invariant
            start <= i <= s.len(),
            spans.len() == done.len(),
            lines(s@) == done + lines_from(s@, start as int),
            forall|k: int| start <= k < i ==> #[trigger] s@[k] != '\n',
            forall|k: int|
                0 <= k < spans.len() ==> {
                    &&& (#[trigger] spans[k]).0 <= spans[k].1 <= s.len()
                    &&& s@.subrange(spans[k].0 as int, spans[k].1 as int) == done[k]
                },
        decreases s.len() - i,
    {
        if s[i] == '\n' {
            proof {
                lemma_newline_from(s@, start as int);
                lemma_newline_from(s@, i as int);
                lemma_newline_same(s@, start as int, i as int);
            }
            let end = if i > start && s[i - 1] == '\r' {
                i - 1
            } else {
                i
            };
            proof {
                let l = s@.subrange(start as int, i as int);
                assert(strip_cr(l) =~= s@.subrange(start as int, end as int));
                assert(lines_from(s@, start as int) == seq![strip_cr(l)] + lines_from(
                    s@,
                    i + 1,
                ));
                done = done.push(strip_cr(l));
                assert(done + lines_from(s@, i + 1) =~= (done.drop_last() + seq![strip_cr(l)])
                    + lines_from(s@, i + 1));
            }
            spans.push((start, end));
            start = i + 1;
        }
        i = i + 1;
    }
    if start < s.len() {
        proof {
            lemma_newline_same(s@, start as int, s.len() as int);
            assert(lines_from(s@, start as int) == seq![s@.subrange(start as int, s.len() as int)]);
            done = done.push(s@.subrange(start as int, s.len() as int));
        }
        spans.push((start, s.len()));
    } else {
        assert(done + lines_from(s@, start as int) =~= done);
    }
    spans
}

/// With no `\n` in `[i, j)`, the search for the next `\n` from `i` and from
/// `j` ends at the same place.
pub proof fn lemma_newline_same(s: Seq<char>, i: int, j: int)
    requires
        0 <= i <= j <= s.len(),
        forall|k: int| i <= k < j ==> #[trigger] s[k] != '\n',
    ensures
        newline_from(s, i) == newline_from(s, j),
    decreases j - i,
{
    if i < j {
        lemma_newline_same(s, i + 1, j);
    }
}

/// The characters of a string.
pub fn chars_of(s: &str) -> (v: Vec<char>)
    ensures
        v@ == s@,
{
    let mut v: Vec<char> = Vec::new();
    for c in it: s.chars()
        invariant
            v@ == it.seq().take(it.index() as int),
    {
        v.push(c);
        assert(v@ =~= it.seq().take(it.index() + 1));
    }
    v
}

// ---------------------------------------------------------------------------
// Decimal numbers

/// The value of a string of ASCII digits.
pub open spec fn digits_value(s: Seq<char>) -> nat
    decreases s.len(),
{
    if s.len() == 0 {
        0
    } else {
        digits_value(s.drop_last()) * 10 + (s.last() as int - '0' as int) as nat
    }
}

pub open spec fn all_ascii_digits(s: Seq<char>) -> bool {
    forall|k: int| 0 <= k < s.len() ==> is_ascii_digit(#[trigger] s[k])
}

/// What reading a run of `\d` characters as a `u32` gives: the number when
/// every digit is ASCII and the value fits, and nothing otherwise.
pub open spec fn parse_u32(s: Seq<char>) -> Option<u32> {
    if s.len() > 0 && all_ascii_digits(s) && digits_value(s) <= u32::MAX {
        Some(digits_value(s) as u32)
    } else {
        None
    }
}

pub proof fn lemma_digits_value_grows(s: Seq<char>, c: char)
    requires
        all_ascii_digits(s.push(c)),
    ensures
        digits_value(s.push(c)) >= digits_value(s),
        digits_value(s.push(c)) == digits_value(s) * 10 + (c as int - '0' as int),
{
    assert(s.push(c).drop_last() =~= s);
    assert(is_ascii_digit(s.push(c)[s.len() as int]));
}

pub proof fn lemma_digits_value_monotone(s: Seq<char>, t: Seq<char>)
    requires
        all_ascii_digits(s + t),
    ensures
        digits_value(s + t) >= digits_value(s),
    decreases t.len(),
{
    if t.len() > 0 {
        let u = s + t.drop_last();
        assert((s + t) =~= u.push(t.last()));
        assert forall|k: int| 0 <= k < u.len() implies is_ascii_digit(#[trigger] u[k]) by {
            assert(u[k] == (s + t)[k]);
        }
        lemma_digits_value_monotone(s, t.drop_last());
        lemma_digits_value_grows(u, t.last());
    } else {
        assert(s + t =~= s);
    }
}

/// Reads `s[a..b]` as a `u32` (see `parse_u32`).
pub fn parse_u32_span(s: &Vec<char>, a: usize, b: usize) -> (r: Option<u32>)
    requires
        a <= b <= s.len(),
    ensures
        r == parse_u32(s@.subrange(a as int, b as int)),
{
    let ghost whole = s@.subrange(a as int, b as int);
    if a == b {
        return None;
    }
    let mut k = a;
    let mut value: u64 = 0;
    while k < b
        invariant
            a <= k <= b <= s.len(),
            whole == s@.subrange(a as int, b as int),
            all_ascii_digits(s@.subrange(a as int, k as int)),
            value == digits_value(s@.subrange(a as int, k as int)),
            value <= u32::MAX,
        decreases b - k,
    {
        let c = s[k];
        if !('0' <= c && c <= '9') {
            assert(!is_ascii_digit(whole[k - a]));
            return None;
        }
        let ghost pre = s@.subrange(a as int, k as int);
        assert(s@.subrange(a as int, k + 1) =~= pre.push(c));
        proof {
            lemma_digits_value_grows(pre, c);
        }
        let d = (c as u32 - '0' as u32) as u64;
        value = value * 10 + d;
        k = k + 1;
        if value > u32::MAX as u64 {
            proof {
                if all_ascii_digits(whole) {
                    assert(whole =~= s@.subrange(a as int, k as int) + s@.subrange(
                        k as int,
                        b as int,
                    ));
                    lemma_digits_value_monotone(
                        s@.subrange(a as int, k as int),
                        s@.subrange(k as int, b as int),
                    );
                }
            }
            return None;
        }
    }
    Some(value as u32)
}

/// The ASCII digit for `d < 10`.
pub open spec fn digit_char(d: nat) -> char {
    seq!['0', '1', '2', '3', '4', '5', '6', '7', '8', '9'][d as int]
}

/// The decimal notation of `n`, without leading zeros.
pub open spec fn decimal(n: nat) -> Seq<char>
    decreases n,
{
    if n < 10 {
        seq![digit_char(n)]
    } else {
        decimal(n / 10).push(digit_char(n % 10))
    }
}

pub fn decimal_string(n: u64) -> (r: String)
    ensures
        r@ == decimal(n as nat),
    decreases n,
{
    let digits = "0123456789";
    proof {
        reveal_strlit("0123456789");
    }
    let d = (n % 10) as usize;
    let last = digits.substring_char(d, d + 1);
    assert(last@ =~= seq![digit_char(d as nat)]);
    if n < 10 {
        String::from_str(last)
    } else {
        let mut r = decimal_string(n / 10);
        r.append(last);
        r
    }
}

/// A copy of `s[a..b]`.
pub fn copy_span(s: &Vec<char>, a: usize, b: usize) -> (v: Vec<char>)
    requires
        a <= b <= s.len(),
    ensures
        v@ == s@.subrange(a as int, b as int),
{
    let mut v: Vec<char> = Vec::new();
    let mut k = a;
    while k < b
        invariant
            a <= k <= b <= s.len(),
            v@ == s@.subrange(a as int, k as int),
        decreases b - k,
    {
        v.push(s[k]);
        assert(v@ =~= s@.subrange(a as int, k + 1));
        k = k + 1;
    }
    v
}

/// An owned copy of the characters `[a, b)` of `s`.
pub fn substring(s: &str, a: usize, b: usize) -> (r: String)
    requires
        a <= b <= s@.len(),
    ensures
        r@ == s@.subrange(a as int, b as int),
{
    String::from_str(s.substring_char(a, b))
}

/// Whether `l` holds a `\n`.
pub open spec fn has_newline(l: Seq<char>) -> bool {
    exists|k: int| 0 <= k < l.len() && l[k] == '\n'
}

pub fn newline_in(l: &Vec<char>) -> (b: bool)
    ensures
        b == has_newline(l@),
{
    let mut k: usize = 0;
    while k < l.len()
        invariant
            k <= l.len(),
            forall|m: int| 0 <= m < k ==> l@[m] != '\n',
        decreases l.len() - k,
    {
        if l[k] == '\n' {
            return true;
        }
        k = k + 1;
    }
    false
}

// ---------------------------------------------------------------------------
// How lines compose

proof fn lemma_newline_from_skip(s: Seq<char>, i: int, k: int)
    requires
        0 <= i <= k <= s.len(),
    ensures
        newline_from(s, k) == i + newline_from(s.skip(i), k - i),
    decreases s.len() - k,
{
    if k < s.len() {
        assert(s.skip(i)[k - i] == s[k]);
        if s[k] != '\n' {
            lemma_newline_from_skip(s, i, k + 1);
        }
    }
}

/// The lines from position `i` on are the lines of what follows `i`.
pub proof fn lemma_lines_from_skip(s: Seq<char>, i: int)
    requires
        0 <= i <= s.len(),
    ensures
        lines_from(s, i) == lines(s.skip(i)),
    decreases s.len() - i,
{
    let t = s.skip(i);
    if i < s.len() {
        lemma_newline_from_skip(s, i, i);
        lemma_newline_from(s, i);
        let e = newline_from(s, i);
        if e < s.len() {
            assert(s.subrange(i, e) =~= t.subrange(0, e - i));
            lemma_lines_from_skip(s, e + 1);
            lemma_lines_from_skip(t, e - i + 1);
            assert(t.skip(e - i + 1) =~= s.skip(e + 1));
        } else {
            assert(s.subrange(i, s.len() as int) =~= t.subrange(0, t.len() as int));
        }
    } else {
        assert(t.len() == 0);
    }
}

proof fn lemma_newline_from_prefix(a: Seq<char>, b: Seq<char>, k: int)
    requires
        0 <= k <= a.len(),
        has_newline(a.skip(k)),
    ensures
        newline_from(a + b, k) == newline_from(a, k),
        newline_from(a, k) < a.len(),
    decreases a.len() - k,
{
    let w = choose|w: int| 0 <= w < a.skip(k).len() && a.skip(k)[w] == '\n';
    assert(a[k + w] == '\n');
    if k < a.len() {
        assert((a + b)[k] == a[k]);
        if a[k] != '\n' {
            assert(a.skip(k + 1)[w - 1] == '\n');
            lemma_newline_from_prefix(a, b, k + 1);
        }
    }
}

/// Lines compose: when `a` ends a line (or is empty), the lines of `a + b`
/// are the lines of `a` followed by those of `b`.
pub proof fn lemma_lines_append(a: Seq<char>, b: Seq<char>)
    requires
        a.len() == 0 || a.last() == '\n',
    ensures
        lines(a + b) == lines(a) + lines(b),
    decreases a.len(),
{
    if a.len() == 0 {
        assert(a + b =~= b);
        assert(lines(a) =~= Seq::<Seq<char>>::empty());
        assert(lines(a) + lines(b) =~= lines(b));
    } else {
        assert(a.skip(0) =~= a);
        assert(a[a.len() - 1] == '\n');
        lemma_newline_from_prefix(a, b, 0);
        lemma_newline_from(a, 0);
        let e = newline_from(a, 0);
        assert((a + b).subrange(0, e) =~= a.subrange(0, e));
        let rest = a.skip(e + 1);
        lemma_lines_from_skip(a + b, e + 1);
        lemma_lines_from_skip(a, e + 1);
        assert((a + b).skip(e + 1) =~= rest + b);
        if rest.len() > 0 {
            assert(rest.last() == a.last());
        }
        lemma_lines_append(rest, b);
        assert(lines(a + b) =~= seq![strip_cr(a.subrange(0, e))] + (lines(rest) + lines(b)));
        assert(lines(a) =~= seq![strip_cr(a.subrange(0, e))] + lines(rest));
    }
}


/// The lines of a piece without a line break.
pub proof fn lemma_lines_unbroken(q: Seq<char>)
    requires
        !has_newline(q),
    ensures
        lines(q) == (if q.len() == 0 {
            Seq::<Seq<char>>::empty()
        } else {
            seq![q]
        }),
        lines(q.push('\n')) == seq![strip_cr(q)],
{
    let n = q.len() as int;
    let qn = q.push('\n');
    if n > 0 {
        lemma_newline_from(q, 0);
        let e = newline_from(q, 0);
        if e < n {
            assert(q[e] == '\n');
        }
        assert(q.subrange(0, n) =~= q);
    }
    lemma_newline_from(qn, 0);
    let f = newline_from(qn, 0);
    if f < n {
        assert(qn[f] == q[f]);
    }
    if f > n {
        assert(qn[n] == '\n');
    }
    assert(f == n);
    assert(qn.subrange(0, n) =~= q);
    assert(lines_from(qn, n + 1) =~= Seq::<Seq<char>>::empty());
}

/// Ending the text `a` with a line break: its lines stay as they are, and an
/// empty line is added when `a` is empty or already ends one.
pub proof fn lemma_lines_push_newline(a: Seq<char>)
    requires
        a.len() == 0 || a.last() != '\r',
    ensures
        lines(a.push('\n')) == lines(a) + (if a.len() == 0 || a.last() == '\n' {
            seq![Seq::<char>::empty()]
        } else {
            Seq::<Seq<char>>::empty()
        }),
    decreases a.len(),
{
    if !has_newline(a) {
        lemma_lines_unbroken(a);
        if a.len() > 0 {
            assert(a[a.len() - 1] != '\n');
            assert(strip_cr(a) == a);
        } else {
            assert(strip_cr(a) =~= a);
        }
        if a.len() > 0 {
            assert(lines(a) + Seq::<Seq<char>>::empty() =~= lines(a));
            assert(lines(a.push('\n')) == lines(a));
        } else {
            assert(Seq::<Seq<char>>::empty() + seq![Seq::<char>::empty()] =~= seq![
                Seq::<char>::empty(),
            ]);
            assert(a =~= Seq::<char>::empty());
            assert(lines(a.push('\n')) == seq![Seq::<char>::empty()]);
        }
    } else {
        lemma_newline_from(a, 0);
        let e = newline_from(a, 0);
        if e >= a.len() {
            let w = choose|w: int| 0 <= w < a.len() && a[w] == '\n';
            assert(a[w] == '\n');
        }
        let p = a.subrange(0, e + 1);
        let r = a.skip(e + 1);
        assert(p.last() == '\n');
        assert(a =~= p + r);
        assert(a.push('\n') =~= p + r.push('\n'));
        lemma_lines_append(p, r);
        lemma_lines_append(p, r.push('\n'));
        if r.len() > 0 {
            assert(r.last() == a.last());
        }
        lemma_lines_push_newline(r);
        if r.len() == 0 {
            assert(a.last() == '\n');
        }
        let extra = if a.len() == 0 || a.last() == '\n' {
            seq![Seq::<char>::empty()]
        } else {
            Seq::<Seq<char>>::empty()
        };
        assert(lines(r.push('\n')) == lines(r) + extra);
        assert(lines(a) == lines(p) + lines(r));
        assert(lines(a.push('\n')) == lines(p) + lines(r.push('\n')));
        assert(lines(p) + (lines(r) + extra) =~= (lines(p) + lines(r)) + extra);
    }
}

} // verus!
