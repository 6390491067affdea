//! Evaluation signals: what one evaluator (a test runner, a linter, a type
//! checker) reported about a piece of code.
use vstd::prelude::*;

verus! {

/// How serious a reported problem is.
#[derive(Clone, Copy, Debug, PartialEq, Eq, Structural)]
pub enum Severity {
    Error,
    Warning,
}

/// One problem reported by an evaluator.
#[derive(Clone, Debug)]
pub struct EvalError {
    pub file: Option<String>,
    pub line: Option<u32>,
    pub column: Option<u32>,
    pub code: Option<String>,
    pub message: String,
    pub severity: Severity,
}

/// The outcome of running one evaluator.
#[derive(Clone, Debug)]
pub struct EvalSignal {
    pub evaluator: String,
    pub passed: bool,
    pub summary: String,
    pub errors: Vec<EvalError>,
}

/// An `EvalError` as plain values.
pub struct EvalErrorView {
    pub file: Option<Seq<char>>,
    pub line: Option<u32>,
    pub column: Option<u32>,
    pub code: Option<Seq<char>>,
    pub message: Seq<char>,
    pub severity: Severity,
}

/// An `EvalSignal` as plain values.
pub struct EvalSignalView {
    pub evaluator: Seq<char>,
    pub passed: bool,
    pub summary: Seq<char>,
    pub errors: Seq<EvalErrorView>,
}

/// The characters of an optional string.
pub open spec fn opt_chars(o: Option<String>) -> Option<Seq<char>> {
    match o {
        Some(s) => Some(s@),
        None => None,
    }
}

impl View for EvalError {
    type V = EvalErrorView;

    open spec fn view(&self) -> EvalErrorView {
        EvalErrorView {
            file: opt_chars(self.file),
            line: self.line,
            column: self.column,
            code: opt_chars(self.code),
            message: self.message@,
            severity: self.severity,
        }
    }
}

/// The views of a sequence of errors.
pub open spec fn errors_view(errors: Seq<EvalError>) -> Seq<EvalErrorView> {
    errors.map_values(|e: EvalError| e@)
}

impl View for EvalSignal {
    type V = EvalSignalView;

    open spec fn view(&self) -> EvalSignalView {
        EvalSignalView {
            evaluator: self.evaluator@,
            passed: self.passed,
            summary: self.summary@,
            errors: errors_view(self.errors@),
        }
    }
}

/// The views of a sequence of signals.
pub open spec fn signals_view(signals: Seq<EvalSignal>) -> Seq<EvalSignalView> {
    signals.map_values(|s: EvalSignal| s@)
}

/// A copy of an optional string.
pub fn clone_opt_string(o: &Option<String>) -> (r: Option<String>)
    ensures
        opt_chars(r) == opt_chars(*o),
{
    match o {
        Some(s) => Some(s.clone()),
        None => None,
    }
}

} // verus!
