//! The TypeScript compiler's diagnostics: lines of the form
//! `FILE(LINE,COLUMN): error TSCODE: MESSAGE`, that is the pattern
//! `^(.+?)\((\d+),(\d+)\): error (TS\d+): (.+)$` applied to each line.
use vstd::prelude::*;
use vstd::string::*;
use crate::text::{
    chars_of, copy_span, decimal, decimal_string, digit_run, digit_run_end, has_at, has_newline,
    is_decimal, lemma_digit_run, lemma_lines_append, lemma_lines_push_newline, lemma_lines_unbroken,
    line_spans, lines, literal_at, newline_in, parse_u32,
    parse_u32_span, strip_cr, substring,
};
use crate::types::{errors_view, EvalError, EvalErrorView, EvalSignal, EvalSignalView, Severity};

verus! {

/// The fixed text between the column number and the code's digits.
pub open spec fn error_marker() -> Seq<char> {
    "): error TS"@
}

/// The fixed text between the code and the message.
pub open spec fn message_marker() -> Seq<char> {
    ": "@
}

/// Where `l` continues, from the `(` at `p`, as `(LINE,COLUMN): error TSCODE: MESSAGE`
/// up to its end: the position of the comma, of the `)` and of the `:` after the
/// code.
pub open spec fn tsc_tail(l: Seq<char>, p: int) -> Option<(int, int, int)> {
    if !(0 <= p < l.len() && l[p] == '(') {
        None
    } else {
        let b = digit_run_end(l, p + 1);
        if b == p + 1 || b >= l.len() || l[b] != ',' {
            None
        } else {
            let d = digit_run_end(l, b + 1);
            if d == b + 1 || !has_at(l, d, error_marker()) {
                None
            } else {
                let e = d + error_marker().len();
                let f = digit_run_end(l, e);
                if f == e || !has_at(l, f, message_marker()) || f + message_marker().len()
                    >= l.len() {
                    None
                } else {
                    Some((b, d, f))
                }
            }
        }
    }
}

/// The first position from `p` on where the rest of `l` is a diagnostic's
/// tail: the end of the shortest file name.
pub open spec fn tsc_split_from(l: Seq<char>, p: int) -> Option<int>
    decreases l.len() - p,
{
    if p < 0 || p >= l.len() {
        None
    } else if tsc_tail(l, p) is Some {
        Some(p)
    } else {
        tsc_split_from(l, p + 1)
    }
}

/// The diagnostic that the line `l` reports, if it is one.
pub open spec fn tsc_error(l: Seq<char>) -> Option<EvalErrorView> {
    if has_newline(l) {
        None
    } else {
        match tsc_split_from(l, 1) {
            None => None,
            Some(p) => {
                let (b, d, f) = tsc_tail(l, p).unwrap();
                Some(
                    EvalErrorView {
                        file: Some(l.subrange(0, p)),
                        line: parse_u32(l.subrange(p + 1, b)),
                        column: parse_u32(l.subrange(b + 1, d)),
                        code: Some(l.subrange(d + error_marker().len() - 2, f)),
                        message: l.subrange(f + message_marker().len(), l.len() as int),
                        severity: Severity::Error,
                    },
                )
            },
        }
    }
}

/// The diagnostics of a sequence of lines, in order.
pub open spec fn tsc_errors(lines: Seq<Seq<char>>) -> Seq<EvalErrorView>
    decreases lines.len(),
{
    if lines.len() == 0 {
        Seq::empty()
    } else {
        match tsc_error(lines[0]) {
            Some(e) => seq![e] + tsc_errors(lines.drop_first()),
            None => tsc_errors(lines.drop_first()),
        }
    }
}

/// The signal that the type checker's output gives.
pub open spec fn tsc_signal(output: Seq<char>) -> EvalSignalView {
    let errors = tsc_errors(lines(output));
    EvalSignalView {
        evaluator: "tsc"@,
        passed: errors.len() == 0,
        summary: if errors.len() == 0 {
            "no errors"@
        } else {
            decimal(errors.len()) + " errors"@
        },
        errors,
    }
}

fn tail_at(l: &Vec<char>, p: usize, em: &Vec<char>, mm: &Vec<char>) -> (r: Option<
    (usize, usize, usize),
>)
    requires
        em@ == error_marker(),
        mm@ == message_marker(),
    ensures
        match r {
            Some((b, d, f)) => tsc_tail(l@, p as int) == Some((b as int, d as int, f as int)),
            None => tsc_tail(l@, p as int) is None,
        },
{
    if !(p < l.len() && l[p] == '(') {
        return None;
    }
    let b = digit_run(l, p + 1);
    if b == p + 1 || b >= l.len() || l[b] != ',' {
        return None;
    }
    let d = digit_run(l, b + 1);
    proof {
        lemma_digit_run(l@, b + 1);
    }
    if d == b + 1 || !literal_at(l, d, em) {
        return None;
    }
    let e = d + em.len();
    let f = digit_run(l, e);
    proof {
        lemma_digit_run(l@, e as int);
    }
    if f == e || !literal_at(l, f, mm) || f + mm.len() >= l.len() {
        return None;
    }
    Some((b, d, f))
}

proof fn lemma_split_bounds(l: Seq<char>, p: int)
    requires
        tsc_tail(l, p) is Some,
    ensures
        ({
            let (b, d, f) = tsc_tail(l, p).unwrap();
            &&& 0 <= p < b < d
            &&& d + error_marker().len() < f
            &&& f + message_marker().len() < l.len()
        }),
{
    lemma_digit_run(l, p + 1);
    let b = digit_run_end(l, p + 1);
    lemma_digit_run(l, b + 1);
    let d = digit_run_end(l, b + 1);
    lemma_digit_run(l, d + error_marker().len());
}

/// Where the line `l` splits as a diagnostic: the end of the file name, then
/// the positions that `tsc_tail` gives.
fn split_line(l: &Vec<char>, em: &Vec<char>, mm: &Vec<char>) -> (r: Option<
    (usize, usize, usize, usize),
>)
    requires
        em@ == error_marker(),
        mm@ == message_marker(),
    ensures
        match r {
            Some((p, b, d, f)) => {
                &&& !has_newline(l@)
                &&& tsc_split_from(l@, 1) == Some(p as int)
                &&& tsc_tail(l@, p as int) == Some((b as int, d as int, f as int))
            },
            None => has_newline(l@) || tsc_split_from(l@, 1) is None,
        },
{
    if newline_in(l) {
        return None;
    }
    let mut p: usize = 1;
    while p < l.len()
        invariant
            1 <= p,
            em@ == error_marker(),
            mm@ == message_marker(),
            !has_newline(l@),
            tsc_split_from(l@, 1) == tsc_split_from(l@, p as int),
        decreases l.len() - p,
    {
        match tail_at(l, p, em, mm) {
            Some((b, d, f)) => {
                return Some((p, b, d, f));
            },
            None => {},
        }
        p = p + 1;
    }
    None
}

/// Parses the type checker's output: one error for each diagnostic line, in
/// order; the run passed when there is none.
pub fn parse_tsc_output(output: &str) -> (signal: EvalSignal)
    ensures
        signal@ == tsc_signal(output@),
{
    let chars = chars_of(output);
    let spans = line_spans(&chars);
    let em = chars_of("): error TS");
    let mm = chars_of(": ");
    let ghost ls = lines(output@);
    let mut errors: Vec<EvalError> = Vec::new();
    let mut k: usize = 0;
    assert(ls.skip(0) =~= ls);
    while k < spans.len()
        invariant
            chars@ == output@,
            ls == lines(output@),
            spans.len() == ls.len(),
            forall|j: int|
                0 <= j < spans.len() ==> {
                    &&& (#[trigger] spans[j]).0 <= spans[j].1 <= chars.len()
                    &&& chars@.subrange(spans[j].0 as int, spans[j].1 as int) == ls[j]
                },
            em@ == error_marker(),
            mm@ == message_marker(),
            k <= spans.len(),
            errors_view(errors@) + tsc_errors(ls.skip(k as int)) == tsc_errors(ls),
        decreases spans.len() - k,
    {
        let (a, b) = spans[k];
        let line = copy_span(&chars, a, b);
        let ghost rest = ls.skip(k as int);
        assert(rest[0] == line@);
        assert(rest.drop_first() =~= ls.skip(k + 1));
        match split_line(&line, &em, &mm) {
            Some((p, c, d, f)) => {
                let ghost l = line@;
                proof {
                    reveal_strlit("): error TS");
                    reveal_strlit(": ");
                    assert(error_marker().len() == 11);
                    assert(message_marker().len() == 2);
                    lemma_split_bounds(l, p as int);
                }
                assert(output@.subrange(a as int, a + p) =~= l.subrange(0, p as int));
                assert(output@.subrange(a + d + 9, a + f) =~= l.subrange(d + 9, f as int));
                assert(output@.subrange(a + f + 2, b as int) =~= l.subrange(
                    f + 2,
                    l.len() as int,
                ));
                let e = EvalError {
                    file: Some(substring(output, a, a + p)),
                    line: parse_u32_span(&line, p + 1, c),
                    column: parse_u32_span(&line, c + 1, d),
                    code: Some(substring(output, a + d + 9, a + f)),
                    message: substring(output, a + f + 2, b),
                    severity: Severity::Error,
                };
                assert(errors_view(errors@.push(e)) =~= errors_view(errors@).push(e@));
                errors.push(e);
                assert(errors_view(errors@) + tsc_errors(ls.skip(k + 1)) =~= errors_view(
                    errors@,
                ).drop_last() + (seq![e@] + tsc_errors(ls.skip(k + 1))));
            },
            None => {},
        }
        k = k + 1;
    }
    assert(ls.skip(k as int) =~= Seq::<Seq<char>>::empty());
    assert(errors_view(errors@) + Seq::<EvalErrorView>::empty() =~= errors_view(errors@));
    let passed = errors.len() == 0;
    let summary = if passed {
        String::from_str("no errors")
    } else {
        let mut s = decimal_string(errors.len() as u64);
        s.append(" errors");
        s
    };
    EvalSignal { evaluator: String::from_str("tsc"), passed, summary, errors }
}

proof fn lemma_tsc_errors_append(x: Seq<Seq<char>>, y: Seq<Seq<char>>)
    ensures
        tsc_errors(x + y) == tsc_errors(x) + tsc_errors(y),
    decreases x.len(),
{
    if x.len() == 0 {
        assert(x + y =~= y);
        assert(tsc_errors(x) + tsc_errors(y) =~= tsc_errors(y));
    } else {
        assert((x + y)[0] == x[0]);
        assert((x + y).drop_first() =~= x.drop_first() + y);
        lemma_tsc_errors_append(x.drop_first(), y);
        match tsc_error(x[0]) {
            Some(e) => {
                assert(seq![e] + (tsc_errors(x.drop_first()) + tsc_errors(y)) =~= (seq![e]
                    + tsc_errors(x.drop_first())) + tsc_errors(y));
            },
            None => {},
        }
    }
}

/// Diagnostics are read line by line: the output of two runs, the first
/// ending a line, gives the diagnostics of the first followed by those of the
/// second.
pub proof fn lemma_tsc_output_append(a: Seq<char>, b: Seq<char>)
    requires
        a.len() == 0 || a.last() == '\n',
    ensures
        tsc_signal(a + b).errors == tsc_signal(a).errors + tsc_signal(b).errors,
{
    lemma_lines_append(a, b);
    lemma_tsc_errors_append(lines(a), lines(b));
}

/// Diagnostics are read line by line: joining two outputs with a line break
/// gives the diagnostics of the first followed by those of the second, when
/// the first does not end in a carriage return (which would join the break).
pub proof fn lemma_tsc_output_join(a: Seq<char>, b: Seq<char>)
    requires
        a.len() == 0 || a.last() != '\r',
    ensures
        tsc_signal(a + seq!['\n'] + b).errors == tsc_signal(a).errors + tsc_signal(b).errors,
{
    let an = a.push('\n');
    assert(a + seq!['\n'] + b =~= an + b);
    lemma_lines_append(an, b);
    lemma_tsc_errors_append(lines(an), lines(b));
    lemma_lines_push_newline(a);
    let blank = Seq::<char>::empty();
    if a.len() == 0 || a.last() == '\n' {
        lemma_tsc_errors_append(lines(a), seq![blank]);
        assert(tsc_error(blank) is None);
        assert(seq![blank].drop_first() =~= Seq::<Seq<char>>::empty());
        assert(seq![blank][0] == blank);
        assert(tsc_errors(Seq::<Seq<char>>::empty()) =~= Seq::<EvalErrorView>::empty());
        assert(tsc_errors(seq![blank]) =~= Seq::<EvalErrorView>::empty());
        assert(tsc_errors(lines(a)) + Seq::<EvalErrorView>::empty() =~= tsc_errors(lines(a)));
    } else {
        assert(lines(a) + Seq::<Seq<char>>::empty() =~= lines(a));
    }
}

proof fn lemma_digit_run_end_push(m: Seq<char>, c: char, i: int)
    requires
        0 <= i <= m.len(),
        !is_decimal(c),
    ensures
        digit_run_end(m.push(c), i) == digit_run_end(m, i),
    decreases m.len() - i,
{
    if i < m.len() {
        assert(m.push(c)[i] == m[i]);
        if is_decimal(m[i]) {
            lemma_digit_run_end_push(m, c, i + 1);
        }
    } else {
        assert(m.push(c)[i] == c);
    }
}

proof fn lemma_has_at_push(m: Seq<char>, c: char, i: int, lit: Seq<char>)
    requires
        has_at(m, i, lit),
    ensures
        has_at(m.push(c), i, lit),
{
    assert(m.push(c).subrange(i, i + lit.len()) =~= m.subrange(i, i + lit.len()));
}

proof fn lemma_tsc_tail_push(m: Seq<char>, c: char, p: int)
    requires
        tsc_tail(m, p) is Some,
        !is_decimal(c),
    ensures
        tsc_tail(m.push(c), p) == tsc_tail(m, p),
{
    let n = m.push(c);
    let (b, d, f) = tsc_tail(m, p).unwrap();
    assert(n[p] == m[p]);
    lemma_digit_run_end_push(m, c, p + 1);
    lemma_digit_run(m, p + 1);
    assert(n[b] == m[b]);
    lemma_digit_run_end_push(m, c, b + 1);
    lemma_digit_run(m, b + 1);
    lemma_has_at_push(m, c, d, error_marker());
    let e = d + error_marker().len();
    lemma_digit_run_end_push(m, c, e);
    lemma_has_at_push(m, c, f, message_marker());
}

proof fn lemma_tsc_split_push(m: Seq<char>, c: char, p: int)
    requires
        0 <= p,
        tsc_split_from(m, p) is Some,
        !is_decimal(c),
    ensures
        tsc_split_from(m.push(c), p) is Some,
    decreases m.len() - p,
{
    if tsc_tail(m, p) is Some {
        lemma_tsc_tail_push(m, c, p);
    } else if tsc_tail(m.push(c), p) is None {
        lemma_tsc_split_push(m, c, p + 1);
    }
}

/// A line stays a diagnostic when a carriage return is added to its end:
/// the message takes it in.
proof fn lemma_tsc_error_cr(m: Seq<char>)
    requires
        tsc_error(m) is Some,
    ensures
        tsc_error(m.push('\r')) is Some,
{
    let n = m.push('\r');
    assert(('\r' as u32) == 13);
    assert(!is_decimal('\r'));
    if has_newline(n) {
        let k = choose|k: int| 0 <= k < n.len() && n[k] == '\n';
        assert(m[k] == n[k]);
    }
    lemma_tsc_split_push(m, '\r', 1);
}

/// A line that is not a diagnostic (a summary such as `Found 3 errors.`)
/// adds nothing: dropping it from between two others leaves the diagnostics
/// as they were.
pub proof fn lemma_tsc_other_line_ignored(a: Seq<char>, l: Seq<char>, b: Seq<char>)
    requires
        !has_newline(l),
        tsc_error(l) is None,
    ensures
        tsc_signal(a + seq!['\n'] + l + seq!['\n'] + b).errors == tsc_signal(a + seq!['\n']
            + b).errors,
{
    let an = a.push('\n');
    let ln = l.push('\n');
    assert(a + seq!['\n'] + l + seq!['\n'] + b =~= an + (ln + b));
    assert(a + seq!['\n'] + b =~= an + b);
    assert(an.last() == '\n');
    assert(ln.last() == '\n');
    lemma_lines_append(an, ln + b);
    lemma_lines_append(ln, b);
    lemma_lines_append(an, b);
    lemma_lines_unbroken(l);
    let m = strip_cr(l);
    if l.len() > 0 && l.last() == '\r' {
        assert(m.push('\r') =~= l);
        if tsc_error(m) is Some {
            lemma_tsc_error_cr(m);
        }
    }
    assert(tsc_error(m) is None);
    assert(seq![m].drop_first() =~= Seq::<Seq<char>>::empty());
    assert(seq![m][0] == m);
    assert(tsc_errors(Seq::<Seq<char>>::empty()) =~= Seq::<EvalErrorView>::empty());
    assert(tsc_errors(seq![m]) =~= Seq::<EvalErrorView>::empty());
    lemma_tsc_errors_append(lines(an), lines(ln) + lines(b));
    lemma_tsc_errors_append(lines(ln), lines(b));
    lemma_tsc_errors_append(lines(an), lines(b));
    assert(Seq::<EvalErrorView>::empty() + tsc_errors(lines(b)) =~= tsc_errors(lines(b)));
}

} // verus!
