//! The requests that the service's tools take, and the decisions the tools
//! make on plain values: reading outcomes, converting reported signals,
//! defaults, filters and the bookkeeping of pattern occurrences.
use vstd::prelude::*;
use vstd::string::*;
use crate::types::{clone_opt_string, errors_view, opt_chars, EvalError, EvalErrorView, EvalSignal, Severity};

verus! {

// ---------------------------------------------------------------------------
// Outcomes

/// How an attempt at a task ended.
#[derive(Clone, Copy, Debug, PartialEq, Eq, Structural)]
pub enum Outcome {
    Success,
    Failure,
    Partial,
}

/// The name under which an outcome is written.
pub open spec fn outcome_name(o: Outcome) -> Seq<char> {
    match o {
        Outcome::Success => "success"@,
        Outcome::Failure => "failure"@,
        Outcome::Partial => "partial"@,
    }
}

/// The outcome written as `s`, if any.
pub open spec fn outcome_named(s: Seq<char>) -> Option<Outcome> {
    if s == "success"@ {
        Some(Outcome::Success)
    } else if s == "failure"@ {
        Some(Outcome::Failure)
    } else if s == "partial"@ {
        Some(Outcome::Partial)
    } else {
        None
    }
}

fn same_text(a: &str, b: &str) -> (r: bool)
    ensures
        r == (a@ == b@),
{
    String::from_str(a) == String::from_str(b)
}

impl Outcome {
    pub fn as_str(&self) -> (s: &'static str)
        ensures
            s@ == outcome_name(*self),
    {
        match self {
            Outcome::Success => "success",
            Outcome::Failure => "failure",
            Outcome::Partial => "partial",
        }
    }

    /// Reads an outcome's name; any other text is refused with a message
    /// that quotes it.
    pub fn parse(s: &str) -> (r: Result<Outcome, String>)
        ensures
            match r {
                Ok(o) => outcome_named(s@) == Some(o),
                Err(m) => outcome_named(s@) is None && m@ == "unknown outcome: "@ + s@,
            },
    {
        if same_text(s, "success") {
            Ok(Outcome::Success)
        } else if same_text(s, "failure") {
            Ok(Outcome::Failure)
        } else if same_text(s, "partial") {
            Ok(Outcome::Partial)
        } else {
            let mut m = String::from_str("unknown outcome: ");
            m.append(s);
            Err(m)
        }
    }
}

/// The outcome that a request names; a name that is not an outcome's counts
/// as a failure.
pub fn parse_outcome(s: &str) -> (o: Outcome)
    ensures
        o == match outcome_named(s@) {
            Some(o) => o,
            None => Outcome::Failure,
        },
{
    match Outcome::parse(s) {
        Ok(o) => o,
        Err(_) => Outcome::Failure,
    }
}

/// An outcome's name reads back as that outcome.
pub proof fn lemma_outcome_name_round_trip(o: Outcome)
    ensures
        outcome_named(outcome_name(o)) == Some(o),
{
    reveal_strlit("success");
    reveal_strlit("failure");
    reveal_strlit("partial");
    assert("success"@[0] != "failure"@[0]);
    assert("success"@[0] != "partial"@[0]);
    assert("failure"@[0] != "partial"@[0]);
}

// ---------------------------------------------------------------------------
// Requests

/// Run evaluators in a project directory.
#[derive(Debug, Clone)]
pub struct EvaluateOutputInput {
    pub code: Option<String>,
    pub language: String,
    pub evaluators: Vec<String>,
    pub working_dir: String,
}

/// Reflect on an attempt, with the signals its evaluation gave.
#[derive(Debug, Clone)]
pub struct ReflectOnOutputInput {
    pub task: String,
    pub draft: String,
    pub signals: Option<Vec<EvalSignalInput>>,
    pub critique: String,
    pub lesson: String,
    pub outcome: String,
    pub tags: Option<Vec<String>>,
}

/// A signal as a request reports it.
#[derive(Debug, Clone)]
pub struct EvalSignalInput {
    pub evaluator: String,
    pub passed: bool,
    pub summary: String,
    pub errors: Option<Vec<EvalErrorInput>>,
}

/// An error as a request reports it.
#[derive(Debug, Clone)]
pub struct EvalErrorInput {
    pub file: Option<String>,
    pub line: Option<u32>,
    pub column: Option<u32>,
    pub code: Option<String>,
    pub message: String,
    pub severity: Option<String>,
}

/// Store a lesson without evaluation signals.
#[derive(Debug, Clone)]
pub struct StoreReflectionInput {
    pub task: String,
    pub critique: String,
    pub lesson: String,
    pub outcome: String,
    pub tags: Option<Vec<String>>,
}

/// Look up past lessons for a task.
#[derive(Debug, Clone)]
pub struct RecallReflectionsInput {
    pub task: String,
    pub tags: Option<Vec<String>>,
    pub limit: Option<usize>,
}

/// List recurring error patterns.
#[derive(Debug, Clone)]
pub struct GetErrorPatternsInput {
    pub min_occurrences: Option<u32>,
    pub category: Option<String>,
    pub limit: Option<usize>,
}

/// Delete a reflection.
#[derive(Debug, Clone)]
pub struct ForgetReflectionInput {
    pub reflection_id: String,
}

/// Ask for the statistics of all reflections.
#[derive(Debug, Clone)]
pub struct GetReflectionStatsInput {}

// ---------------------------------------------------------------------------
// Converting reported signals

/// The severity that a request names: a warning when it says `warning`, an
/// error otherwise.
pub open spec fn severity_named(s: Option<Seq<char>>) -> Severity {
    if s == Some("warning"@) {
        Severity::Warning
    } else {
        Severity::Error
    }
}

pub open spec fn error_input_view(e: EvalErrorInput) -> EvalErrorView {
    EvalErrorView {
        file: opt_chars(e.file),
        line: e.line,
        column: e.column,
        code: opt_chars(e.code),
        message: e.message@,
        severity: severity_named(opt_chars(e.severity)),
    }
}

/// A reported error converts field by field: the same place, code and
/// message, and a warning exactly when the request names one.
pub proof fn lemma_error_input_view(e: EvalErrorInput)
    ensures
        error_input_view(e).message == e.message@,
        error_input_view(e).file == opt_chars(e.file),
        error_input_view(e).line == e.line,
        error_input_view(e).column == e.column,
        error_input_view(e).code == opt_chars(e.code),
        (error_input_view(e).severity == Severity::Warning) <==> (e.severity matches Some(w)
            && w@ == "warning"@),
{
}

fn convert_error_input(e: &EvalErrorInput) -> (r: EvalError)
    ensures
        r@ == error_input_view(*e),
        r.message@ == e.message@,
{
    let severity = match &e.severity {
        Some(s) => if same_text(s.as_str(), "warning") {
            Severity::Warning
        } else {
            Severity::Error
        },
        None => Severity::Error,
    };
    EvalError {
        file: clone_opt_string(&e.file),
        line: e.line,
        column: e.column,
        code: clone_opt_string(&e.code),
        message: e.message.clone(),
        severity,
    }
}

/// The signal that a request reports: the same evaluator, outcome and
/// summary, and its errors in order (none when it lists none), each with the
/// severity that it names.
pub fn convert_signal_input(input: &EvalSignalInput) -> (s: EvalSignal)
    ensures
        s.evaluator@ == input.evaluator@,
        s.passed == input.passed,
        s.summary@ == input.summary@,
        errors_view(s.errors@) == match input.errors {
            Some(es) => es@.map_values(|e: EvalErrorInput| error_input_view(e)),
            None => Seq::empty(),
        },
        s.errors.len() == match input.errors {
            Some(es) => es.len(),
            None => 0,
        },
        forall|k: int|
            #![trigger s.errors@[k]]
            0 <= k < s.errors.len() ==> (input.errors matches Some(es) && {
                let c = s.errors@[k];
                let r = es@[k];
                &&& c.message@ == r.message@
                &&& opt_chars(c.file) == opt_chars(r.file)
                &&& c.line == r.line
                &&& c.column == r.column
                &&& opt_chars(c.code) == opt_chars(r.code)
                &&& (c.severity == Severity::Warning) <==> (r.severity matches Some(w) && w@
                    == "warning"@)
            }),
{
    let mut errors: Vec<EvalError> = Vec::new();
    match &input.errors {
        Some(es) => {
            let mut k: usize = 0;
            while k < es.len()
                invariant
                    k <= es.len(),
                    errors_view(errors@) =~= es@.take(k as int).map_values(
                        |e: EvalErrorInput| error_input_view(e),
                    ),
                decreases es.len() - k,
            {
                let e = convert_error_input(&es[k]);
                assert(errors_view(errors@.push(e)) =~= errors_view(errors@).push(e@));
                errors.push(e);
                assert(es@.take(k + 1) =~= es@.take(k as int).push(es@[k as int]));
                k = k + 1;
            }
            assert(es@.take(es.len() as int) =~= es@);
        },
        None => {},
    }
    proof {
        let ev = errors_view(errors@);
        assert(ev.len() == errors.len());
        if let Some(es) = &input.errors {
            assert forall|k: int| #![trigger errors@[k]] 0 <= k < errors.len() implies {
                let c = errors@[k];
                let r = es@[k];
                &&& c.message@ == r.message@
                &&& opt_chars(c.file) == opt_chars(r.file)
                &&& c.line == r.line
                &&& c.column == r.column
                &&& opt_chars(c.code) == opt_chars(r.code)
                &&& (c.severity == Severity::Warning) <==> (r.severity matches Some(w) && w@
                    == "warning"@)
            } by {
                assert(ev[k] == errors@[k]@);
                assert(ev[k] == error_input_view(es@[k]));
                lemma_error_input_view(es@[k]);
            }
        }
    }
    EvalSignal {
        evaluator: input.evaluator.clone(),
        passed: input.passed,
        summary: input.summary.clone(),
        errors,
    }
}

// ---------------------------------------------------------------------------
// Decisions of the tools

/// How many results a recall gives: the number asked for, else the
/// configured default.
pub fn recall_limit(asked: Option<usize>, default_limit: usize) -> (n: usize)
    ensures
        n == match asked {
            Some(k) => k,
            None => default_limit,
        },
{
    match asked {
        Some(k) => k,
        None => default_limit,
    }
}

/// The least number of occurrences and the most patterns that a listing
/// gives: one and twenty unless the request says otherwise.
pub fn error_pattern_query(input: &GetErrorPatternsInput) -> (q: (u32, usize))
    ensures
        q.0 == match input.min_occurrences {
            Some(m) => m,
            None => 1u32,
        },
        q.1 == match input.limit {
            Some(l) => l,
            None => 20usize,
        },
{
    let min_occurrences = match input.min_occurrences {
        Some(m) => m,
        None => 1,
    };
    let limit = match input.limit {
        Some(l) => l,
        None => 20,
    };
    (min_occurrences, limit)
}

/// The positions, in order, of the categories equal to `wanted`; all
/// positions when no category is wanted.
pub open spec fn category_selection(categories: Seq<Seq<char>>, wanted: Option<Seq<char>>) -> Seq<
    int,
>
    decreases categories.len(),
{
    if categories.len() == 0 {
        Seq::empty()
    } else {
        let front = category_selection(categories.drop_last(), wanted);
        let i = categories.len() - 1;
        if wanted is None || wanted == Some(categories.last()) {
            front.push(i)
        } else {
            front
        }
    }
}

pub open spec fn strings_view(v: Seq<String>) -> Seq<Seq<char>> {
    v.map_values(|s: String| s@)
}

/// A position is selected exactly when its category is the one wanted (or
/// none is wanted), and the positions come in increasing order.
pub proof fn lemma_category_selection(cs: Seq<Seq<char>>, wanted: Option<Seq<char>>)
    ensures
        ({
            let r = category_selection(cs, wanted);
            &&& forall|i: int|
                0 <= i < cs.len() ==> (r.contains(i) <==> (wanted is None || wanted == Some(
                    cs[i],
                )))
            &&& forall|k: int| 0 <= k < r.len() ==> 0 <= #[trigger] r[k] < cs.len()
            &&& forall|a: int, b: int| 0 <= a < b < r.len() ==> r[a] < r[b]
        }),
    decreases cs.len(),
{
    if cs.len() > 0 {
        let front = cs.drop_last();
        let f = category_selection(front, wanted);
        let r = category_selection(cs, wanted);
        let n = cs.len() - 1;
        lemma_category_selection(front, wanted);
        assert forall|i: int| 0 <= i < cs.len() implies (r.contains(i) <==> (wanted is None
            || wanted == Some(cs[i]))) by {
            if i < n {
                assert(front[i] == cs[i]);
                if f.contains(i) {
                    let w = choose|w: int| 0 <= w < f.len() && f[w] == i;
                    assert(r[w] == f[w]);
                }
                if r.contains(i) {
                    let w = choose|w: int| 0 <= w < r.len() && r[w] == i;
                    if w < f.len() {
                        assert(r[w] == f[w]);
                    }
                }
            } else {
                if wanted is None || wanted == Some(cs.last()) {
                    assert(r[f.len() as int] == n);
                } else {
                    if r.contains(i) {
                        let w = choose|w: int| 0 <= w < r.len() && r[w] == i;
                        assert(f[w] < n);
                    }
                }
            }
        }
    }
}

/// Selects the patterns of one category (see `category_selection`): every
/// position whose category is the wanted one (every position when none is
/// wanted), in increasing order.
pub fn select_by_category(categories: &Vec<String>, wanted: &Option<String>) -> (r: Vec<usize>)
    ensures
        r@.map_values(|i: usize| i as int) == category_selection(
            strings_view(categories@),
            opt_chars(*wanted),
        ),
        forall|i: usize|
            i < categories.len() ==> (#[trigger] r@.contains(i) <==> (wanted is None
                || categories@[i as int]@ == wanted.unwrap()@)),
        forall|a: int, b: int| 0 <= a < b < r.len() ==> r@[a] < r@[b],
        forall|k: int| 0 <= k < r.len() ==> r@[k] < categories.len(),
{
    let ghost cs = strings_view(categories@);
    let mut r: Vec<usize> = Vec::new();
    let mut k: usize = 0;
    assert(cs.take(0) =~= Seq::<Seq<char>>::empty());
    while k < categories.len()
        invariant
            cs == strings_view(categories@),
            k <= categories.len(),
            r@.map_values(|i: usize| i as int) == category_selection(
                cs.take(k as int),
                opt_chars(*wanted),
            ),
        decreases categories.len() - k,
    {
        assert(cs.take(k + 1).drop_last() =~= cs.take(k as int));
        assert(cs.take(k + 1).last() == categories@[k as int]@);
        let keep = match wanted {
            None => true,
            Some(w) => categories[k] == *w,
        };
        if keep {
            let ghost before = r@.map_values(|i: usize| i as int);
            r.push(k);
            assert(r@.map_values(|i: usize| i as int) =~= before.push(k as int));
        }
        k = k + 1;
    }
    assert(cs.take(categories.len() as int) =~= cs);
    proof {
        let ghost m = r@.map_values(|i: usize| i as int);
        lemma_category_selection(cs, opt_chars(*wanted));
        assert forall|i: usize| i < categories.len() implies (#[trigger] r@.contains(i) <==> (
        wanted is None || categories@[i as int]@ == wanted.unwrap()@)) by {
            assert(cs[i as int] == categories@[i as int]@);
            if r@.contains(i) {
                let w = choose|w: int| 0 <= w < r.len() && r@[w] == i;
                assert(m[w] == i);
            }
            if m.contains(i as int) {
                let w = choose|w: int| 0 <= w < m.len() && m[w] == i;
                assert(r@[w] == i);
            }
        }
        assert forall|a: int, b: int| 0 <= a < b < r.len() implies r@[a] < r@[b] by {
            assert(m[a] < m[b]);
        }
        assert forall|k: int| 0 <= k < r.len() implies r@[k] < categories.len() by {
            assert(m[k] < cs.len());
        }
    }
    r
}

/// Whether every wanted tag is among `have`.
pub fn has_all_tags(have: &Vec<String>, wanted: &Vec<String>) -> (b: bool)
    ensures
        b == (forall|j: int|
            0 <= j < wanted.len() ==> strings_view(have@).contains(#[trigger] wanted@[j]@)),
{
    let mut j: usize = 0;
    while j < wanted.len()
        invariant
            j <= wanted.len(),
            forall|m: int| 0 <= m < j ==> strings_view(have@).contains(#[trigger] wanted@[m]@),
        decreases wanted.len() - j,
    {
        if !contains_string(have, &wanted[j]) {
            return false;
        }
        j = j + 1;
    }
    true
}

fn contains_string(have: &Vec<String>, s: &String) -> (b: bool)
    ensures
        b == strings_view(have@).contains(s@),
{
    let ghost hv = strings_view(have@);
    let mut k: usize = 0;
    while k < have.len()
        invariant
            hv == strings_view(have@),
            k <= have.len(),
            forall|m: int| 0 <= m < k ==> hv[m] != s@,
        decreases have.len() - k,
    {
        if have[k] == *s {
            assert(hv[k as int] == s@);
            return true;
        }
        k = k + 1;
    }
    false
}

/// How often a pattern has been seen once it is seen again: one more than
/// before, or one for a pattern not seen before.
pub fn next_occurrences(existing: Option<u32>) -> (n: u32)
    requires
        existing matches Some(k) ==> k < u32::MAX,
    ensures
        n == match existing {
            Some(k) => k + 1,
            None => 1,
        },
{
    match existing {
        Some(k) => k + 1,
        None => 1,
    }
}

/// The signal of an evaluator that could not be run: failed, with the reason
/// in its summary and no errors.
pub fn failed_run_signal(evaluator: &String, reason: &str) -> (s: EvalSignal)
    ensures
        s.evaluator@ == evaluator@,
        !s.passed,
        s.summary@ == "evaluator error: "@ + reason@,
        s.errors@.len() == 0,
{
    let mut summary = String::from_str("evaluator error: ");
    summary.append(reason);
    EvalSignal { evaluator: evaluator.clone(), passed: false, summary, errors: Vec::new() }
}

} // verus!
