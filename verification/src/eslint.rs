//! ESLint's "stylish" report: a file name on a line of its own, then one
//! indented line per problem (`LINE:COLUMN  error|warning  MESSAGE  RULE`),
//! and a closing line that starts with `✖` and gives the totals
//! (`N errors, M warnings)`).
use vstd::prelude::*;
use vstd::string::*;
use crate::text::{
    all_space, chars_of, copy_span, decimal, decimal_string, digit_run, digit_run_end, has_at,
    has_newline, is_space, lemma_digit_run, lemma_lines_append, lemma_nonspace_run,
    lemma_space_run, lemma_trimmed_end, line_spans, lines, literal_at, newline_in, nonspace_run,
    nonspace_run_end, only_space, parse_u32, parse_u32_span, space_char, space_run,
    space_run_end, substring, trim, trim_end_index,
};
use crate::types::{
    clone_opt_string, errors_view, EvalError, EvalErrorView, EvalSignal, EvalSignalView, Severity,
};

verus! {

// ---------------------------------------------------------------------------
// The totals: `(\d+) errors?,\s*(\d+) warnings?\)` anywhere in a line

/// Whether the totals pattern matches in `l` from `p` on; if so the ends of
/// the error count, and the start and end of the warning count.
pub open spec fn counts_at(l: Seq<char>, p: int) -> Option<(int, int, int)> {
    if !(0 <= p < l.len()) {
        None
    } else {
        let b = digit_run_end(l, p);
        if b == p || !has_at(l, b, " error"@) {
            None
        } else {
            let c = b + " error"@.len();
            let q = if c < l.len() && l[c] == 's' {
                c + 1
            } else {
                c
            };
            if !(q < l.len() && l[q] == ',') {
                None
            } else {
                let r = space_run_end(l, q + 1);
                let d = digit_run_end(l, r);
                if d == r || !has_at(l, d, " warning"@) {
                    None
                } else {
                    let e = d + " warning"@.len();
                    let q2 = if e < l.len() && l[e] == 's' {
                        e + 1
                    } else {
                        e
                    };
                    if !(q2 < l.len() && l[q2] == ')') {
                        None
                    } else {
                        Some((b, r, d))
                    }
                }
            }
        }
    }
}

/// The leftmost position from `p` on where the totals pattern matches.
pub open spec fn counts_from(l: Seq<char>, p: int) -> Option<int>
    decreases l.len() - p,
{
    if p < 0 || p >= l.len() {
        None
    } else if counts_at(l, p) is Some {
        Some(p)
    } else {
        counts_from(l, p + 1)
    }
}

/// A count as read from the totals: a number that does not read as a `u32`
/// counts as zero.
pub open spec fn count_value(s: Seq<char>) -> u32 {
    match parse_u32(s) {
        Some(v) => v,
        None => 0,
    }
}

/// The totals that the line `l` gives, if it gives any.
pub open spec fn line_counts(l: Seq<char>) -> Option<(u32, u32)> {
    match counts_from(l, 0) {
        None => None,
        Some(p) => {
            let (b, r, d) = counts_at(l, p).unwrap();
            Some((count_value(l.subrange(p, b)), count_value(l.subrange(r, d))))
        },
    }
}

/// The totals of the first line that gives any, or zero errors and zero
/// warnings.
pub open spec fn report_counts(lines: Seq<Seq<char>>) -> (u32, u32)
    decreases lines.len(),
{
    if lines.len() == 0 {
        (0, 0)
    } else {
        match line_counts(lines[0]) {
            Some(c) => c,
            None => report_counts(lines.drop_first()),
        }
    }
}

// ---------------------------------------------------------------------------
// A problem: `^\s+(\d+):(\d+)\s+(error|warning)\s+(.+?)\s{2,}(\S+)\s*$`

/// The start of a problem line: the indentation, `LINE:COLUMN`, blanks and the
/// severity word. Gives the end of the indentation, of the line number and of
/// the column number, the severity, and the end of the severity word.
pub open spec fn diag_head(l: Seq<char>) -> Option<(int, int, int, Severity, int)> {
    let k0 = space_run_end(l, 0);
    if k0 == 0 {
        None
    } else {
        let b = digit_run_end(l, k0);
        if b == k0 || b >= l.len() || l[b] != ':' {
            None
        } else {
            let d = digit_run_end(l, b + 1);
            if d == b + 1 {
                None
            } else {
                let e = space_run_end(l, d);
                if e == d {
                    None
                } else if has_at(l, e, "error"@) {
                    Some((k0, b, d, Severity::Error, e + "error"@.len()))
                } else if has_at(l, e, "warning"@) {
                    Some((k0, b, d, Severity::Warning, e + "warning"@.len()))
                } else {
                    None
                }
            }
        }
    }
}

/// Whether `l` ends, from `x` on, as two or more blanks, one word and
/// optional blanks; if so the span of that word (the rule's name).
pub open spec fn rule_tail(l: Seq<char>, x: int) -> Option<(int, int)> {
    let y = space_run_end(l, x);
    if y - x < 2 {
        None
    } else {
        let z = nonspace_run_end(l, y);
        if z == y || space_run_end(l, z) != l.len() {
            None
        } else {
            Some((y, z))
        }
    }
}

/// The shortest message that ends at `x` or later: the first end from `x` on
/// after which the rule's tail follows, as long as no `\n` is taken in.
pub open spec fn message_end_from(l: Seq<char>, x: int) -> Option<int>
    decreases l.len() + 1 - x,
{
    if x < 1 || x > l.len() {
        None
    } else if l[x - 1] == '\n' {
        None
    } else if rule_tail(l, x) is Some {
        Some(x)
    } else {
        message_end_from(l, x + 1)
    }
}

/// The message's span when the blanks after the severity word (from `w`) take
/// `k` characters or fewer: more blanks are tried first.
pub open spec fn message_split(l: Seq<char>, w: int, k: int) -> Option<(int, int)>
    decreases k,
{
    if k <= 0 {
        None
    } else {
        match message_end_from(l, w + k + 1) {
            Some(x) => Some((w + k, x)),
            None => message_split(l, w, k - 1),
        }
    }
}

/// The problem that the line `l` reports, if it is one, in the file `file`.
pub open spec fn diag_error(l: Seq<char>, file: Option<Seq<char>>) -> Option<EvalErrorView> {
    match diag_head(l) {
        None => None,
        Some((k0, b, d, severity, w)) => match message_split(l, w, space_run_end(l, w) - w) {
            None => None,
            Some((st, x)) => {
                let (y, z) = rule_tail(l, x).unwrap();
                Some(
                    EvalErrorView {
                        file,
                        line: parse_u32(l.subrange(k0, b)),
                        column: parse_u32(l.subrange(b + 1, d)),
                        code: Some(l.subrange(y, z)),
                        message: l.subrange(st, x),
                        severity,
                    },
                )
            },
        },
    }
}

/// A line that names a file: `^(\S.+)$`.
pub open spec fn file_line(l: Seq<char>) -> bool {
    &&& l.len() >= 2
    &&& !is_space(l[0])
    &&& !has_newline(l)
}

/// The problems reported by `lines`, where `file` is the file named last:
/// blank lines are passed over, the line that starts with `✖` ends the
/// report, a problem line is read as a problem in the current file, and any
/// other line that names a file makes it current.
pub open spec fn report_errors(lines: Seq<Seq<char>>, file: Option<Seq<char>>) -> Seq<
    EvalErrorView,
>
    decreases lines.len(),
{
    if lines.len() == 0 {
        Seq::empty()
    } else {
        let l = lines[0];
        let rest = lines.drop_first();
        if all_space(l) {
            report_errors(rest, file)
        } else if l[0] == '\u{2716}' {
            Seq::empty()
        } else {
            match diag_error(l, file) {
                Some(e) => seq![e] + report_errors(rest, file),
                None => if file_line(l) {
                    report_errors(rest, Some(trim(l)))
                } else {
                    report_errors(rest, file)
                },
            }
        }
    }
}

/// The signal that a linter report gives.
pub open spec fn eslint_signal(output: Seq<char>) -> EvalSignalView {
    let (errors, warnings) = report_counts(lines(output));
    EvalSignalView {
        evaluator: "eslint"@,
        passed: errors == 0 && warnings == 0,
        summary: decimal(errors as nat) + " errors, "@ + decimal(warnings as nat) + " warnings"@,
        errors: report_errors(lines(output), None),
    }
}

/// A closing line: not blank, and starting with `✖`.
pub open spec fn closing_line(l: Seq<char>) -> bool {
    !all_space(l) && l[0] == '\u{2716}'
}

proof fn lemma_report_errors_stop(x: Seq<Seq<char>>, y: Seq<Seq<char>>, file: Option<Seq<char>>)
    requires
        exists|k: int| 0 <= k < x.len() && closing_line(#[trigger] x[k]),
    ensures
        report_errors(x + y, file) == report_errors(x, file),
    decreases x.len(),
{
    let k = choose|k: int| 0 <= k < x.len() && closing_line(#[trigger] x[k]);
    assert((x + y)[0] == x[0]);
    assert((x + y).drop_first() =~= x.drop_first() + y);
    if k > 0 {
        assert(closing_line(x.drop_first()[k - 1]));
        let l = x[0];
        if !all_space(l) && l[0] != '\u{2716}' {
            match diag_error(l, file) {
                Some(_) => lemma_report_errors_stop(x.drop_first(), y, file),
                None => if file_line(l) {
                    lemma_report_errors_stop(x.drop_first(), y, Some(trim(l)));
                } else {
                    lemma_report_errors_stop(x.drop_first(), y, file);
                },
            }
        } else if all_space(l) {
            lemma_report_errors_stop(x.drop_first(), y, file);
        }
    }
}

/// Nothing after the closing line counts: once a report has closed (on a
/// line ended by `\n`), what follows adds no problems.
pub proof fn lemma_report_ends_at_closing_line(a: Seq<char>, b: Seq<char>)
    requires
        a.len() == 0 || a.last() == '\n',
        exists|k: int| 0 <= k < lines(a).len() && closing_line(#[trigger] lines(a)[k]),
    ensures
        eslint_signal(a + b).errors == eslint_signal(a).errors,
{
    lemma_lines_append(a, b);
    lemma_report_errors_stop(lines(a), lines(b), None);
}

/// A line that reports a problem: not blank, and of the problem form.
pub open spec fn problem_line(l: Seq<char>) -> bool {
    !all_space(l) && diag_error(l, None) is Some
}

/// A line that names a file: not blank, not a problem, and of the file form.
pub open spec fn naming_line(l: Seq<char>) -> bool {
    !all_space(l) && diag_error(l, None) is None && file_line(l)
}

/// The index of the first closing line of `ls` from `i` on, or the number
/// of lines when none follows.
pub open spec fn closing_from(ls: Seq<Seq<char>>, i: int) -> int
    decreases ls.len() - i,
{
    if i < 0 || i >= ls.len() {
        ls.len() as int
    } else if closing_line(ls[i]) {
        i
    } else {
        closing_from(ls, i + 1)
    }
}

/// The file current at line `j`: the last line before it that names a file,
/// trimmed; none if no earlier line does.
pub open spec fn current_file(ls: Seq<Seq<char>>, j: int) -> Option<Seq<char>>
    decreases j,
{
    if j <= 0 {
        None
    } else if naming_line(ls[j - 1]) {
        Some(trim(ls[j - 1]))
    } else {
        current_file(ls, j - 1)
    }
}

/// The problems of the lines `i..n` of `ls`, one per problem line, each in
/// the file current at its line.
pub open spec fn problems_between(ls: Seq<Seq<char>>, i: int, n: int) -> Seq<EvalErrorView>
    decreases n - i,
{
    if i >= n {
        Seq::empty()
    } else if problem_line(ls[i]) {
        seq![diag_error(ls[i], current_file(ls, i)).unwrap()] + problems_between(ls, i + 1, n)
    } else {
        problems_between(ls, i + 1, n)
    }
}

proof fn lemma_closing_from_bounds(ls: Seq<Seq<char>>, i: int)
    requires
        0 <= i <= ls.len(),
    ensures
        i <= closing_from(ls, i) <= ls.len(),
    decreases ls.len() - i,
{
    if i < ls.len() && !closing_line(ls[i]) {
        lemma_closing_from_bounds(ls, i + 1);
    }
}

proof fn lemma_diag_error_any_file(l: Seq<char>, f: Option<Seq<char>>)
    ensures
        diag_error(l, f) is Some <==> diag_error(l, None) is Some,
{
}

proof fn lemma_report_problems_from(ls: Seq<Seq<char>>, i: int)
    requires
        0 <= i <= ls.len(),
    ensures
        report_errors(ls.subrange(i, ls.len() as int), current_file(ls, i)) == problems_between(
            ls,
            i,
            closing_from(ls, i),
        ),
    decreases ls.len() - i,
{
    let rest = ls.subrange(i, ls.len() as int);
    if i == ls.len() {
        assert(rest =~= Seq::<Seq<char>>::empty());
    } else {
        let l = ls[i];
        assert(rest[0] == l);
        assert(rest.drop_first() =~= ls.subrange(i + 1, ls.len() as int));
        let file = current_file(ls, i);
        lemma_diag_error_any_file(l, file);
        let next = ls.subrange(i + 1, ls.len() as int);
        if closing_line(l) {
            assert(closing_from(ls, i) == i);
            assert(report_errors(rest, file) =~= Seq::<EvalErrorView>::empty());
        } else {
            lemma_report_problems_from(ls, i + 1);
            let n = closing_from(ls, i);
            assert(n == closing_from(ls, i + 1));
            lemma_closing_from_bounds(ls, i + 1);
            assert(i < n);
            if all_space(l) {
                assert(current_file(ls, i + 1) == file);
                assert(report_errors(rest, file) == report_errors(next, file));
                assert(problems_between(ls, i, n) == problems_between(ls, i + 1, n));
            } else if diag_error(l, file) is Some {
                assert(problem_line(l));
                assert(current_file(ls, i + 1) == file);
                assert(report_errors(rest, file) == seq![diag_error(l, file).unwrap()]
                    + report_errors(next, file));
                assert(problems_between(ls, i, n) == seq![diag_error(l, file).unwrap()]
                    + problems_between(ls, i + 1, n));
            } else if file_line(l) {
                assert(naming_line(l));
                assert(current_file(ls, i + 1) == Some(trim(l)));
                assert(report_errors(rest, file) == report_errors(next, Some(trim(l))));
                assert(problems_between(ls, i, n) == problems_between(ls, i + 1, n));
            } else {
                assert(current_file(ls, i + 1) == file);
                assert(report_errors(rest, file) == report_errors(next, file));
                assert(problems_between(ls, i, n) == problems_between(ls, i + 1, n));
            }
        }
    }
}

/// What a report lists, in the terms of its lines: one problem for each
/// problem line before the first closing line, in order, each in the file
/// named last before it (trimmed), or in none when no line has named one.
pub proof fn lemma_report_problems(output: Seq<char>)
    ensures
        eslint_signal(output).errors == problems_between(
            lines(output),
            0,
            closing_from(lines(output), 0),
        ),
{
    let ls = lines(output);
    assert(ls.subrange(0, ls.len() as int) =~= ls);
    lemma_report_problems_from(ls, 0);
}

// ---------------------------------------------------------------------------
// Reading a report

fn counts_at_exec(l: &Vec<char>, p: usize) -> (r: Option<(usize, usize, usize)>)
    ensures
        match r {
            Some((b, q, d)) => counts_at(l@, p as int) == Some((b as int, q as int, d as int)),
            None => counts_at(l@, p as int) is None,
        },
{
    let error_word = chars_of(" error");
    let warning_word = chars_of(" warning");
    if p >= l.len() {
        return None;
    }
    let b = digit_run(l, p);
    if b == p || !literal_at(l, b, &error_word) {
        return None;
    }
    let c = b + error_word.len();
    let q = if c < l.len() && l[c] == 's' {
        c + 1
    } else {
        c
    };
    if !(q < l.len() && l[q] == ',') {
        return None;
    }
    let r = space_run(l, q + 1);
    proof {
        lemma_space_run(l@, q + 1);
    }
    let d = digit_run(l, r);
    if d == r || !literal_at(l, d, &warning_word) {
        return None;
    }
    let e = d + warning_word.len();
    let q2 = if e < l.len() && l[e] == 's' {
        e + 1
    } else {
        e
    };
    if !(q2 < l.len() && l[q2] == ')') {
        return None;
    }
    Some((b, r, d))
}

fn count_of(l: &Vec<char>, a: usize, b: usize) -> (v: u32)
    requires
        a <= b <= l.len(),
    ensures
        v == count_value(l@.subrange(a as int, b as int)),
{
    match parse_u32_span(l, a, b) {
        Some(v) => v,
        None => 0,
    }
}

fn line_counts_exec(l: &Vec<char>) -> (r: Option<(u32, u32)>)
    ensures
        r == line_counts(l@),
{
    let mut p: usize = 0;
    while p < l.len()
        invariant
            counts_from(l@, 0) == counts_from(l@, p as int),
        decreases l.len() - p,
    {
        match counts_at_exec(l, p) {
            Some((b, q, d)) => {
                proof {
                    lemma_counts_at_bounds(l@, p as int);
                }
                return Some((count_of(l, p, b), count_of(l, q, d)));
            },
            None => {},
        }
        p = p + 1;
    }
    None
}

proof fn lemma_counts_at_bounds(l: Seq<char>, p: int)
    requires
        counts_at(l, p) is Some,
    ensures
        ({
            let (b, r, d) = counts_at(l, p).unwrap();
            0 <= p <= b && b <= r <= d <= l.len()
        }),
{
    lemma_digit_run(l, p);
    let b = digit_run_end(l, p);
    let c = b + " error"@.len();
    let q = if c < l.len() && l[c] == 's' {
        c + 1
    } else {
        c
    };
    lemma_space_run(l, q + 1);
    let r = space_run_end(l, q + 1);
    lemma_digit_run(l, r);
}

fn diag_head_exec(l: &Vec<char>) -> (r: Option<(usize, usize, usize, Severity, usize)>)
    ensures
        match r {
            Some((k0, b, d, s, w)) => {
                &&& diag_head(l@) == Some((k0 as int, b as int, d as int, s, w as int))
                &&& k0 <= b < d <= w <= l.len()
            },
            None => diag_head(l@) is None,
        },
{
    let error_word = chars_of("error");
    let warning_word = chars_of("warning");
    let k0 = space_run(l, 0);
    proof {
        lemma_space_run(l@, 0);
    }
    if k0 == 0 {
        return None;
    }
    let b = digit_run(l, k0);
    proof {
        lemma_digit_run(l@, k0 as int);
    }
    if b == k0 || b >= l.len() || l[b] != ':' {
        return None;
    }
    let d = digit_run(l, b + 1);
    proof {
        lemma_digit_run(l@, b + 1);
    }
    if d == b + 1 {
        return None;
    }
    let e = space_run(l, d);
    proof {
        lemma_space_run(l@, d as int);
    }
    if e == d {
        None
    } else if literal_at(l, e, &error_word) {
        Some((k0, b, d, Severity::Error, e + error_word.len()))
    } else if literal_at(l, e, &warning_word) {
        Some((k0, b, d, Severity::Warning, e + warning_word.len()))
    } else {
        None
    }
}

fn rule_tail_exec(l: &Vec<char>, x: usize) -> (r: Option<(usize, usize)>)
    requires
        x <= l.len(),
    ensures
        match r {
            Some((y, z)) => {
                &&& rule_tail(l@, x as int) == Some((y as int, z as int))
                &&& x <= y <= z <= l.len()
            },
            None => rule_tail(l@, x as int) is None,
        },
{
    let y = space_run(l, x);
    proof {
        lemma_space_run(l@, x as int);
    }
    if y - x < 2 {
        return None;
    }
    let z = nonspace_run(l, y);
    proof {
        lemma_nonspace_run(l@, y as int);
    }
    if z == y || space_run(l, z) != l.len() {
        return None;
    }
    Some((y, z))
}

fn message_end_exec(l: &Vec<char>, x0: usize) -> (r: Option<usize>)
    requires
        1 <= x0,
    ensures
        match r {
            Some(x) => message_end_from(l@, x0 as int) == Some(x as int) && x0 <= x <= l.len(),
            None => message_end_from(l@, x0 as int) is None,
        },
{
    if x0 > l.len() {
        return None;
    }
    let mut x = x0;
    loop
        invariant
            1 <= x0 <= x <= l.len(),
            message_end_from(l@, x0 as int) == message_end_from(l@, x as int),
        decreases l.len() - x,
    {
        if l[x - 1] == '\n' {
            return None;
        }
        match rule_tail_exec(l, x) {
            Some(_) => {
                return Some(x);
            },
            None => {},
        }
        if x == l.len() {
            assert(message_end_from(l@, x + 1) is None);
            return None;
        }
        x = x + 1;
    }
}

fn message_split_exec(l: &Vec<char>, w: usize, kmax: usize) -> (r: Option<(usize, usize)>)
    requires
        w + kmax <= l.len(),
    ensures
        match r {
            Some((st, x)) => message_split(l@, w as int, kmax as int) == Some(
                (st as int, x as int),
            ) && w <= st < x <= l.len(),
            None => message_split(l@, w as int, kmax as int) is None,
        },
{
    let mut k = kmax;
    while k > 0
        invariant
            k <= kmax,
            w + kmax <= l.len(),
            message_split(l@, w as int, kmax as int) == message_split(l@, w as int, k as int),
        decreases k,
    {
        if w + k < l.len() {
            match message_end_exec(l, w + k + 1) {
                Some(x) => {
                    return Some((w + k, x));
                },
                None => {},
            }
        }
        k = k - 1;
    }
    None
}

/// The problem on the line `output[base..base + l.len()]`, whose characters are
/// `l`.
fn diag_error_exec(l: &Vec<char>, output: &str, base: usize, file: &Option<String>) -> (r:
    Option<EvalError>)
    requires
        base + l.len() <= output@.len() <= usize::MAX,
        output@.subrange(base as int, base + l.len()) == l@,
    ensures
        match r {
            Some(e) => diag_error(l@, crate::types::opt_chars(*file)) == Some(e@),
            None => diag_error(l@, crate::types::opt_chars(*file)) is None,
        },
{
    match diag_head_exec(l) {
        None => None,
        Some((k0, b, d, severity, w)) => {
            proof {
                lemma_space_run(l@, w as int);
            }
            let kmax = space_run(l, w) - w;
            match message_split_exec(l, w, kmax) {
                None => None,
                Some((st, x)) => {
                    let tail = rule_tail_exec(l, x);
                    match tail {
                        None => {
                            proof {
                                lemma_message_split_tail(l@, w as int, kmax as int);
                            }
                            None
                        },
                        Some((y, z)) => {
                            assert(output@.subrange(base + y, base + z) =~= l@.subrange(
                                y as int,
                                z as int,
                            ));
                            assert(output@.subrange(base + st, base + x) =~= l@.subrange(
                                st as int,
                                x as int,
                            ));
                            Some(
                                EvalError {
                                    file: clone_opt_string(file),
                                    line: parse_u32_span(l, k0, b),
                                    column: parse_u32_span(l, b + 1, d),
                                    code: Some(substring(output, base + y, base + z)),
                                    message: substring(output, base + st, base + x),
                                    severity,
                                },
                            )
                        },
                    }
                },
            }
        },
    }
}

proof fn lemma_message_end_tail(l: Seq<char>, x: int)
    requires
        message_end_from(l, x) is Some,
    ensures
        rule_tail(l, message_end_from(l, x).unwrap()) is Some,
    decreases l.len() + 1 - x,
{
    if !(x < 1 || x > l.len() || l[x - 1] == '\n' || rule_tail(l, x) is Some) {
        lemma_message_end_tail(l, x + 1);
    }
}

proof fn lemma_message_split_tail(l: Seq<char>, w: int, k: int)
    requires
        message_split(l, w, k) is Some,
    ensures
        rule_tail(l, message_split(l, w, k).unwrap().1) is Some,
    decreases k,
{
    if k > 0 {
        if message_end_from(l, w + k + 1) is Some {
            lemma_message_end_tail(l, w + k + 1);
        } else {
            lemma_message_split_tail(l, w, k - 1);
        }
    }
}

fn report_counts_exec(chars: &Vec<char>, spans: &Vec<(usize, usize)>) -> (r: (u32, u32))
    requires
        spans.len() == lines(chars@).len(),
        forall|j: int|
            0 <= j < spans.len() ==> {
                &&& (#[trigger] spans[j]).0 <= spans[j].1 <= chars.len()
                &&& chars@.subrange(spans[j].0 as int, spans[j].1 as int) == lines(chars@)[j]
            },
    ensures
        r == report_counts(lines(chars@)),
{
    let ghost ls = lines(chars@);
    assert(ls.skip(0) =~= ls);
    let mut k: usize = 0;
    while k < spans.len()
        invariant
            ls == lines(chars@),
            spans.len() == ls.len(),
            forall|j: int|
                0 <= j < spans.len() ==> {
                    &&& (#[trigger] spans[j]).0 <= spans[j].1 <= chars.len()
                    &&& chars@.subrange(spans[j].0 as int, spans[j].1 as int) == ls[j]
                },
            k <= spans.len(),
            report_counts(ls) == report_counts(ls.skip(k as int)),
        decreases spans.len() - k,
    {
        let (a, b) = spans[k];
        let line = copy_span(chars, a, b);
        let ghost rest = ls.skip(k as int);
        assert(rest[0] == line@);
        assert(rest.drop_first() =~= ls.skip(k + 1));
        match line_counts_exec(&line) {
            Some(c) => {
                return c;
            },
            None => {},
        }
        k = k + 1;
    }
    assert(ls.skip(k as int) =~= Seq::<Seq<char>>::empty());
    (0, 0)
}

fn report_errors_exec(output: &str, chars: &Vec<char>, spans: &Vec<(usize, usize)>) -> (r: Vec<
    EvalError,
>)
    requires
        chars@ == output@,
        spans.len() == lines(chars@).len(),
        forall|j: int|
            0 <= j < spans.len() ==> {
                &&& (#[trigger] spans[j]).0 <= spans[j].1 <= chars.len()
                &&& chars@.subrange(spans[j].0 as int, spans[j].1 as int) == lines(chars@)[j]
            },
    ensures
        errors_view(r@) == report_errors(lines(output@), None),
{
    let ghost ls = lines(output@);
    assert(ls.skip(0) =~= ls);
    let mut errors: Vec<EvalError> = Vec::new();
    let mut file: Option<String> = None;
    let mut k: usize = 0;
    assert(errors_view(errors@) + report_errors(ls, None) =~= report_errors(ls, None));
    while k < spans.len()
        invariant
            chars@ == output@,
            ls == lines(output@),
            spans.len() == ls.len(),
            forall|j: int|
                0 <= j < spans.len() ==> {
                    &&& (#[trigger] spans[j]).0 <= spans[j].1 <= chars.len()
                    &&& chars@.subrange(spans[j].0 as int, spans[j].1 as int) == ls[j]
                },
            k <= spans.len(),
            errors_view(errors@) + report_errors(ls.skip(k as int), crate::types::opt_chars(file))
                == report_errors(ls, None),
        decreases spans.len() - k,
    {
        let (a, b) = spans[k];
        let line = copy_span(chars, a, b);
        let ghost rest = ls.skip(k as int);
        let ghost cur = crate::types::opt_chars(file);
        assert(rest[0] == line@);
        assert(rest.drop_first() =~= ls.skip(k + 1));
        assert(output@.subrange(a as int, a + line.len()) =~= line@);
        if only_space(&line) {
        } else if line[0] == '\u{2716}' {
            assert(report_errors(rest, cur) =~= Seq::<EvalErrorView>::empty());
            assert(errors_view(errors@) + Seq::<EvalErrorView>::empty() =~= errors_view(errors@));
            return errors;
        } else {
            match diag_error_exec(&line, output, a, &file) {
                Some(e) => {
                    assert(errors_view(errors@.push(e)) =~= errors_view(errors@).push(e@));
                    errors.push(e);
                    assert(errors_view(errors@) + report_errors(ls.skip(k + 1), cur)
                        =~= errors_view(errors@).drop_last() + (seq![e@] + report_errors(
                        ls.skip(k + 1),
                        cur,
                    )));
                },
                None => {
                    if line.len() >= 2 && !space_char(line[0]) && !newline_in(&line) {
                        let e = trim_end_index(&line);
                        proof {
                            lemma_space_run(line@, 0);
                            lemma_trimmed_end(line@);
                            assert(space_run_end(line@, 0) == 0);
                        }
                        assert(output@.subrange(a as int, a + e) =~= trim(line@));
                        file = Some(substring(output, a, a + e));
                    }
                },
            }
        }
        k = k + 1;
    }
    assert(ls.skip(k as int) =~= Seq::<Seq<char>>::empty());
    assert(errors_view(errors@) + Seq::<EvalErrorView>::empty() =~= errors_view(errors@));
    errors
}

/// Parses a linter report: the problems it lists, each in the file named last
/// before it, and the totals that its closing line gives; the run passed when
/// both totals are zero.
pub fn parse_eslint_output(output: &str) -> (signal: EvalSignal)
    ensures
        signal@ == eslint_signal(output@),
{
    let chars = chars_of(output);
    let spans = line_spans(&chars);
    let (error_count, warning_count) = report_counts_exec(&chars, &spans);
    let errors = report_errors_exec(output, &chars, &spans);
    let mut summary = decimal_string(error_count as u64);
    summary.append(" errors, ");
    let counted_warnings = decimal_string(warning_count as u64);
    summary.append(counted_warnings.as_str());
    summary.append(" warnings");
    EvalSignal {
        evaluator: String::from_str("eslint"),
        passed: error_count == 0 && warning_count == 0,
        summary,
        errors,
    }
}

} // verus!
