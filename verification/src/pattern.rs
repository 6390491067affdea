//! Recognising known error patterns in evaluation signals: each rule names an
//! evaluator and a regular expression; a rule fires on an error of a failed
//! signal of that evaluator whose message the expression finds a match in.
use vstd::prelude::*;
use vstd::string::*;
use crate::config::PatternConfig;
use crate::types::{errors_view, signals_view, EvalErrorView, EvalSignal, EvalSignalView};

verus! {

// ---------------------------------------------------------------------------
// Regular expressions

/// The regex crate's compiled expression, carried through opaquely.
#[verifier::external_type_specification]
#[verifier::external_body]
pub struct ExCompiledRegex(regex::Regex);

/// The regex crate's reason for refusing a pattern, carried through opaquely.
#[verifier::external_type_specification]
#[verifier::external_body]
pub struct ExRegexBuildError(regex::Error);

/// Whether the regex crate accepts `pattern` (its syntax, within its default
/// size limit).
pub uninterp spec fn regex_compiles(pattern: Seq<char>) -> bool;

/// Whether the regex crate's expression `pattern` matches somewhere in `text`.
pub uninterp spec fn regex_finds(pattern: Seq<char>, text: Seq<char>) -> bool;

/// Calls `regex::Regex::new`, which fails exactly on the patterns that the
/// crate does not accept.
#[verifier::external_body]
fn compile_regex(pattern: &str) -> (r: Result<regex::Regex, regex::Error>)
    ensures
        r is Ok <==> regex_compiles(pattern@),
{
    regex::Regex::new(pattern)
}

/// The reason a pattern was refused.
#[derive(Debug, Clone, Copy, PartialEq, Eq, Structural)]
pub struct RegexError;

/// A regular expression together with its source text.
pub struct RegexPattern {
    source: String,
    compiled: regex::Regex,
}

impl RegexPattern {
    /// The source text of the expression.
    pub closed spec fn pattern(&self) -> Seq<char> {
        self.source@
    }

    #[verifier::type_invariant]
    closed spec fn well_formed(&self) -> bool {
        regex_compiles(self.source@)
    }

    /// Compiles `pattern`; fails exactly when the regex crate refuses it.
    pub fn new(pattern: &str) -> (r: Result<RegexPattern, RegexError>)
        ensures
            r is Ok <==> regex_compiles(pattern@),
            r matches Ok(re) ==> re.pattern() == pattern@,
    {
        match compile_regex(pattern) {
            Ok(compiled) => Ok(RegexPattern { source: String::from_str(pattern), compiled }),
            Err(_) => Err(RegexError),
        }
    }

    /// The source text.
    pub fn as_str(&self) -> (s: &str)
        ensures
            s@ == self.pattern(),
    {
        self.source.as_str()
    }

    /// Whether the expression matches somewhere in `text`.
    pub fn is_match(&self, text: &str) -> (b: bool)
        ensures
            b == regex_finds(self.pattern(), text@),
            regex_compiles(self.pattern()),
    {
        proof {
            use_type_invariant(self);
        }
        regex_is_match(self, text)
    }
}

/// Calls `regex::Regex::is_match` on the compiled form that `RegexPattern::new` made
/// from `re`'s source text (no other code builds a `RegexPattern`).
#[verifier::external_body]
fn regex_is_match(re: &RegexPattern, text: &str) -> (b: bool)
    ensures
        b == regex_finds(re.pattern(), text@),
{
    re.compiled.is_match(text)
}

// ---------------------------------------------------------------------------
// Rules and matches

/// A known pattern that a rule recognised.
#[derive(Debug, Clone)]
pub struct PatternMatch {
    pub id: String,
    pub category: String,
    pub description: String,
}

/// A rule: the evaluator it applies to, the expression it looks for in error
/// messages, and the pattern it stands for.
pub struct PatternRule {
    pub evaluator: String,
    pub regex: RegexPattern,
    pub id: String,
    pub category: String,
    pub description: String,
}

pub struct PatternMatchView {
    pub id: Seq<char>,
    pub category: Seq<char>,
    pub description: Seq<char>,
}

pub struct PatternRuleView {
    pub evaluator: Seq<char>,
    pub pattern: Seq<char>,
    pub id: Seq<char>,
    pub category: Seq<char>,
    pub description: Seq<char>,
}

impl View for PatternMatch {
    type V = PatternMatchView;

    open spec fn view(&self) -> PatternMatchView {
        PatternMatchView { id: self.id@, category: self.category@, description: self.description@ }
    }
}

impl View for PatternRule {
    type V = PatternRuleView;

    open spec fn view(&self) -> PatternRuleView {
        PatternRuleView {
            evaluator: self.evaluator@,
            pattern: self.regex.pattern(),
            id: self.id@,
            category: self.category@,
            description: self.description@,
        }
    }
}

pub open spec fn matches_view(ms: Seq<PatternMatch>) -> Seq<PatternMatchView> {
    ms.map_values(|m: PatternMatch| m@)
}

pub open spec fn rules_view(rs: Seq<PatternRule>) -> Seq<PatternRuleView> {
    rs.map_values(|r: PatternRule| r@)
}

/// The match that a rule gives.
pub open spec fn match_of(r: PatternRuleView) -> PatternMatchView {
    PatternMatchView { id: r.id, category: r.category, description: r.description }
}

/// Whether rule `r` fires on error `e` of signal `s`.
pub open spec fn fires(r: PatternRuleView, s: EvalSignalView, e: EvalErrorView) -> bool {
    r.evaluator == s.evaluator && regex_finds(r.pattern, e.message)
}

/// Whether some match in `ms` has the id `id`.
pub open spec fn has_id(ms: Seq<PatternMatchView>, id: Seq<char>) -> bool {
    exists|i: int| 0 <= i < ms.len() && (#[trigger] ms[i]).id == id
}

/// One rule tried on one error: a firing rule adds its match unless a match
/// with its id is there already.
pub open spec fn step(
    acc: Seq<PatternMatchView>,
    r: PatternRuleView,
    s: EvalSignalView,
    e: EvalErrorView,
) -> Seq<PatternMatchView> {
    if fires(r, s, e) && !has_id(acc, r.id) {
        acc.push(match_of(r))
    } else {
        acc
    }
}

/// The rules, in order, tried on one error.
pub open spec fn scan_rules(
    acc: Seq<PatternMatchView>,
    rules: Seq<PatternRuleView>,
    s: EvalSignalView,
    e: EvalErrorView,
) -> Seq<PatternMatchView>
    decreases rules.len(),
{
    if rules.len() == 0 {
        acc
    } else {
        step(scan_rules(acc, rules.drop_last(), s, e), rules.last(), s, e)
    }
}

/// The errors of one signal, in order, each tried with all rules.
pub open spec fn scan_errors(
    acc: Seq<PatternMatchView>,
    rules: Seq<PatternRuleView>,
    s: EvalSignalView,
    errors: Seq<EvalErrorView>,
) -> Seq<PatternMatchView>
    decreases errors.len(),
{
    if errors.len() == 0 {
        acc
    } else {
        scan_rules(scan_errors(acc, rules, s, errors.drop_last()), rules, s, errors.last())
    }
}

/// The signals, in order; a signal that passed is skipped.
pub open spec fn scan_signals(
    acc: Seq<PatternMatchView>,
    rules: Seq<PatternRuleView>,
    signals: Seq<EvalSignalView>,
) -> Seq<PatternMatchView>
    decreases signals.len(),
{
    if signals.len() == 0 {
        acc
    } else {
        let a = scan_signals(acc, rules, signals.drop_last());
        let s = signals.last();
        if s.passed {
            a
        } else {
            scan_errors(a, rules, s, s.errors)
        }
    }
}

/// The patterns that `rules` recognise in `signals`: for each error of each
/// failed signal, in order, the match of each firing rule whose id has not
/// been matched before.
pub open spec fn extracted(
    rules: Seq<PatternRuleView>,
    signals: Seq<EvalSignalView>,
) -> Seq<PatternMatchView> {
    scan_signals(Seq::empty(), rules, signals)
}

/// A set of rules applied to evaluation signals.
pub struct PatternEngine {
    rules: Vec<PatternRule>,
}

impl PatternEngine {
    /// The rules, in order.
    pub closed spec fn rule_views(&self) -> Seq<PatternRuleView> {
        rules_view(self.rules@)
    }

    pub fn new(rules: Vec<PatternRule>) -> (e: PatternEngine)
        ensures
            e.rule_views() == rules_view(rules@),
    {
        PatternEngine { rules }
    }

    /// Adds a rule after the others.
    pub fn add_rule(&mut self, rule: PatternRule)
        ensures
            final(self).rule_views() == old(self).rule_views().push(rule@),
    {
        self.rules.push(rule);
        assert(rules_view(self.rules@) =~= rules_view(old(self).rules@).push(rule@));
    }

    /// The patterns recognised in `signals` (see `extracted`): signals that
    /// passed are skipped, and each pattern id appears at most once.
    #[verifier::spinoff_prover]
    pub fn extract(&self, signals: &[EvalSignal]) -> (matches: Vec<PatternMatch>)
        ensures
            matches_view(matches@) == extracted(self.rule_views(), signals_view(signals@)),
    {
        let ghost rules = self.rule_views();
        let ghost sigs = signals_view(signals@);
        let mut matches: Vec<PatternMatch> = Vec::new();
        let mut i: usize = 0;
        assert(sigs.take(0) =~= Seq::<EvalSignalView>::empty());
        assert(matches_view(matches@) =~= Seq::<PatternMatchView>::empty());
        while i < signals.len()
            invariant
                rules == self.rule_views(),
                sigs == signals_view(signals@),
                i <= signals.len(),
                matches_view(matches@) == scan_signals(Seq::empty(), rules, sigs.take(i as int)),
            decreases signals.len() - i,
        {
            let signal = &signals[i];
            let ghost before = matches_view(matches@);
            let ghost s = sigs[i as int];
            assert(sigs.take(i + 1).drop_last() =~= sigs.take(i as int));
            assert(sigs.take(i + 1).last() == s);
            if !signal.passed {
                let ghost errs = s.errors;
                let mut j: usize = 0;
                assert(errs.take(0) =~= Seq::<EvalErrorView>::empty());
                while j < signal.errors.len()
                    invariant
                        rules == self.rule_views(),
                        s == signal@,
                        errs == s.errors,
                        j <= signal.errors.len(),
                        matches_view(matches@) == scan_errors(before, rules, s, errs.take(j as int)),
                    decreases signal.errors.len() - j,
                {
                    let error = &signal.errors[j];
                    let ghost e = errs[j as int];
                    let ghost start = matches_view(matches@);
                    assert(e == error@);
                    assert(errs.take(j + 1).drop_last() =~= errs.take(j as int));
                    let mut k: usize = 0;
                    assert(rules.take(0) =~= Seq::<PatternRuleView>::empty());
                    while k < self.rules.len()
                        invariant
                            rules == self.rule_views(),
                            s == signal@,
                            e == error@,
                            k <= self.rules.len(),
                            matches_view(matches@) == scan_rules(start, rules.take(k as int), s, e),
                        decreases self.rules.len() - k,
                    {
                        let rule = &self.rules[k];
                        let ghost acc = matches_view(matches@);
                        assert(rules.take(k + 1).drop_last() =~= rules.take(k as int));
                        assert(rules.take(k + 1).last() == rule@);
                        if rule.evaluator == signal.evaluator && rule.regex.is_match(
                            error.message.as_str(),
                        ) && !contains_id(&matches, &rule.id) {
                            let m = PatternMatch {
                                id: rule.id.clone(),
                                category: rule.category.clone(),
                                description: rule.description.clone(),
                            };
                            matches.push(m);
                            assert(matches_view(matches@) =~= acc.push(match_of(rule@)));
                        }
                        k = k + 1;
                    }
                    assert(rules.take(self.rules.len() as int) =~= rules);
                    j = j + 1;
                }
                assert(errs.take(signal.errors.len() as int) =~= errs);
            }
            i = i + 1;
        }
        assert(sigs.take(signals.len() as int) =~= sigs);
        matches
    }
}

fn contains_id(matches: &Vec<PatternMatch>, id: &String) -> (b: bool)
    ensures
        b == has_id(matches_view(matches@), id@),
{
    let ghost mv = matches_view(matches@);
    let mut k: usize = 0;
    while k < matches.len()
        invariant
            mv == matches_view(matches@),
            k <= matches.len(),
            forall|m: int| 0 <= m < k ==> mv[m].id != id@,
        decreases matches.len() - k,
    {
        if matches[k].id == *id {
            assert(mv[k as int].id == id@);
            return true;
        }
        k = k + 1;
    }
    false
}

// ---------------------------------------------------------------------------
// What extraction guarantees

/// `res` keeps `acc` as its beginning.
pub open spec fn extends(res: Seq<PatternMatchView>, acc: Seq<PatternMatchView>) -> bool {
    acc.len() <= res.len() && forall|k: int| 0 <= k < acc.len() ==> #[trigger] res[k] == acc[k]
}

/// No two matches in `ms` share an id.
pub open spec fn ids_distinct(ms: Seq<PatternMatchView>) -> bool {
    forall|i: int, j: int| 0 <= i < j < ms.len() ==> (#[trigger] ms[i]).id != (#[trigger] ms[j]).id
}

proof fn lemma_extends_has_id(res: Seq<PatternMatchView>, acc: Seq<PatternMatchView>, id: Seq<char>)
    requires
        extends(res, acc),
        has_id(acc, id),
    ensures
        has_id(res, id),
{
    let i = choose|i: int| 0 <= i < acc.len() && (#[trigger] acc[i]).id == id;
    assert(res[i] == acc[i]);
}

#[verifier::spinoff_prover]
proof fn lemma_step(
    acc: Seq<PatternMatchView>,
    r: PatternRuleView,
    s: EvalSignalView,
    e: EvalErrorView,
)
    ensures
        extends(step(acc, r, s, e), acc),
        ids_distinct(acc) ==> ids_distinct(step(acc, r, s, e)),
        fires(r, s, e) ==> has_id(step(acc, r, s, e), r.id),
        forall|k: int|
            acc.len() <= k < step(acc, r, s, e).len() ==> #[trigger] step(acc, r, s, e)[k]
                == match_of(r) && fires(r, s, e),
{
    let res = step(acc, r, s, e);
    if fires(r, s, e) && !has_id(acc, r.id) {
        assert(res[acc.len() as int].id == r.id);
        if ids_distinct(acc) {
            assert forall|i: int, j: int| 0 <= i < j < res.len() implies (#[trigger] res[i]).id
                != (#[trigger] res[j]).id by {
                if j == acc.len() {
                    assert(acc[i].id != r.id);
                } else {
                    assert(acc[i].id != acc[j].id);
                }
            }
        }
    } else if fires(r, s, e) {
        assert(has_id(res, r.id));
    }
}

#[verifier::spinoff_prover]
#[verifier::rlimit(40)]
proof fn lemma_scan_rules(
    acc: Seq<PatternMatchView>,
    rules: Seq<PatternRuleView>,
    s: EvalSignalView,
    e: EvalErrorView,
)
    ensures
        extends(scan_rules(acc, rules, s, e), acc),
        ids_distinct(acc) ==> ids_distinct(scan_rules(acc, rules, s, e)),
        forall|ri: int|
            0 <= ri < rules.len() && fires(#[trigger] rules[ri], s, e) ==> has_id(
                scan_rules(acc, rules, s, e),
                rules[ri].id,
            ),
        forall|k: int|
            acc.len() <= k < scan_rules(acc, rules, s, e).len() ==> exists|ri: int|
                0 <= ri < rules.len() && #[trigger] scan_rules(acc, rules, s, e)[k] == match_of(
                    #[trigger] rules[ri],
                ) && fires(rules[ri], s, e),
    decreases rules.len(),
{
    if rules.len() > 0 {
        let front = rules.drop_last();
        let mid = scan_rules(acc, front, s, e);
        let res = scan_rules(acc, rules, s, e);
        let r = rules.last();
        lemma_scan_rules(acc, front, s, e);
        lemma_step(mid, r, s, e);
        assert forall|ri: int| 0 <= ri < rules.len() && fires(#[trigger] rules[ri], s, e) implies has_id(
            res,
            rules[ri].id,
        ) by {
            if ri < rules.len() - 1 {
                assert(front[ri] == rules[ri]);
                lemma_extends_has_id(res, mid, rules[ri].id);
            }
        }
        assert forall|k: int| acc.len() <= k < res.len() implies exists|ri: int|
            0 <= ri < rules.len() && #[trigger] res[k] == match_of(#[trigger] rules[ri]) && fires(
                rules[ri],
                s,
                e,
            ) by {
            if k < mid.len() {
                let ri = choose|ri: int|
                    0 <= ri < front.len() && #[trigger] mid[k] == match_of(#[trigger] front[ri])
                        && fires(front[ri], s, e);
                assert(res[k] == mid[k]);
                assert(rules[ri] == front[ri]);
            } else {
                assert(res[k] == match_of(rules[rules.len() - 1]));
            }
        }
    }
}

#[verifier::spinoff_prover]
#[verifier::rlimit(40)]
proof fn lemma_scan_errors(
    acc: Seq<PatternMatchView>,
    rules: Seq<PatternRuleView>,
    s: EvalSignalView,
    errors: Seq<EvalErrorView>,
)
    ensures
        extends(scan_errors(acc, rules, s, errors), acc),
        ids_distinct(acc) ==> ids_distinct(scan_errors(acc, rules, s, errors)),
        forall|ri: int, ei: int|
            0 <= ri < rules.len() && 0 <= ei < errors.len() && fires(
                #[trigger] rules[ri],
                s,
                #[trigger] errors[ei],
            ) ==> has_id(scan_errors(acc, rules, s, errors), rules[ri].id),
        forall|k: int|
            acc.len() <= k < scan_errors(acc, rules, s, errors).len() ==> exists|ri: int, ei: int|
                0 <= ri < rules.len() && 0 <= ei < errors.len() && #[trigger] scan_errors(
                    acc,
                    rules,
                    s,
                    errors,
                )[k] == match_of(#[trigger] rules[ri]) && fires(rules[ri], s, #[trigger] errors[ei]),
    decreases errors.len(),
{
    if errors.len() > 0 {
        let front = errors.drop_last();
        let mid = scan_errors(acc, rules, s, front);
        let e = errors.last();
        let res = scan_errors(acc, rules, s, errors);
        lemma_scan_errors(acc, rules, s, front);
        lemma_scan_rules(mid, rules, s, e);
        assert forall|ri: int, ei: int|
            0 <= ri < rules.len() && 0 <= ei < errors.len() && fires(
                #[trigger] rules[ri],
                s,
                #[trigger] errors[ei],
            ) implies has_id(res, rules[ri].id) by {
            if ei < errors.len() - 1 {
                assert(front[ei] == errors[ei]);
                lemma_extends_has_id(res, mid, rules[ri].id);
            }
        }
        assert forall|k: int|
            acc.len() <= k < scan_errors(acc, rules, s, errors).len() implies exists|ri: int, ei: int|
                0 <= ri < rules.len() && 0 <= ei < errors.len() && #[trigger] scan_errors(
                    acc,
                    rules,
                    s,
                    errors,
                )[k] == match_of(#[trigger] rules[ri]) && fires(rules[ri], s, #[trigger] errors[ei]) by {
            if k < mid.len() {
                let (ri, ei) = choose|ri: int, ei: int|
                    0 <= ri < rules.len() && 0 <= ei < front.len() && #[trigger] mid[k] == match_of(
                        #[trigger] rules[ri],
                    ) && fires(rules[ri], s, #[trigger] front[ei]);
                assert(res[k] == mid[k]);
                assert(errors[ei] == front[ei]);
                assert(0 <= ri < rules.len() && 0 <= ei < errors.len() && res[k] == match_of(
                    rules[ri],
                ) && fires(rules[ri], s, errors[ei]));
            } else {
                assert(res == scan_rules(mid, rules, s, e));
                let ri = choose|ri: int|
                    0 <= ri < rules.len() && #[trigger] scan_rules(mid, rules, s, e)[k] == match_of(
                        #[trigger] rules[ri],
                    ) && fires(rules[ri], s, e);
                let ei = errors.len() - 1;
                assert(errors[ei] == e);
                assert(0 <= ri < rules.len() && 0 <= ei < errors.len() && res[k] == match_of(
                    rules[ri],
                ) && fires(rules[ri], s, errors[ei]));
            }
        }
    }
}

#[verifier::spinoff_prover]
#[verifier::rlimit(60)]
proof fn lemma_scan_signals(
    acc: Seq<PatternMatchView>,
    rules: Seq<PatternRuleView>,
    sigs: Seq<EvalSignalView>,
)
    ensures
        extends(scan_signals(acc, rules, sigs), acc),
        ids_distinct(acc) ==> ids_distinct(scan_signals(acc, rules, sigs)),
        forall|ri: int, si: int, ei: int|
            0 <= ri < rules.len() && 0 <= si < sigs.len() && !sigs[si].passed && 0 <= ei
                < sigs[si].errors.len() && fires(
                #[trigger] rules[ri],
                #[trigger] sigs[si],
                #[trigger] sigs[si].errors[ei],
            ) ==> has_id(scan_signals(acc, rules, sigs), rules[ri].id),
        forall|k: int|
            acc.len() <= k < scan_signals(acc, rules, sigs).len() ==> exists|
                ri: int,
                si: int,
                ei: int,
            |
                0 <= ri < rules.len() && 0 <= si < sigs.len() && !sigs[si].passed && 0 <= ei
                    < sigs[si].errors.len() && #[trigger] scan_signals(acc, rules, sigs)[k]
                    == match_of(#[trigger] rules[ri]) && fires(
                    rules[ri],
                    #[trigger] sigs[si],
                    #[trigger] sigs[si].errors[ei],
                ),
    decreases sigs.len(),
{
    if sigs.len() > 0 {
        let front = sigs.drop_last();
        let mid = scan_signals(acc, rules, front);
        let s = sigs.last();
        let res = scan_signals(acc, rules, sigs);
        lemma_scan_signals(acc, rules, front);
        lemma_scan_errors(mid, rules, s, s.errors);
        assert forall|ri: int, si: int, ei: int|
            0 <= ri < rules.len() && 0 <= si < sigs.len() && !sigs[si].passed && 0 <= ei
                < sigs[si].errors.len() && fires(
                #[trigger] rules[ri],
                #[trigger] sigs[si],
                #[trigger] sigs[si].errors[ei],
            ) implies has_id(res, rules[ri].id) by {
            if si < sigs.len() - 1 {
                assert(front[si] == sigs[si]);
                assert(front[si].errors[ei] == sigs[si].errors[ei]);
                lemma_extends_has_id(res, mid, rules[ri].id);
            } else {
                assert(sigs[si] == s);
            }
        }
        assert forall|k: int|
            acc.len() <= k < scan_signals(acc, rules, sigs).len() implies exists|
                ri: int,
                si: int,
                ei: int,
            |
                0 <= ri < rules.len() && 0 <= si < sigs.len() && !sigs[si].passed && 0 <= ei
                    < sigs[si].errors.len() && #[trigger] scan_signals(acc, rules, sigs)[k]
                    == match_of(#[trigger] rules[ri]) && fires(
                    rules[ri],
                    #[trigger] sigs[si],
                    #[trigger] sigs[si].errors[ei],
                ) by {
            if k < mid.len() {
                let (ri, si, ei) = choose|ri: int, si: int, ei: int|
                    0 <= ri < rules.len() && 0 <= si < front.len() && !front[si].passed && 0 <= ei
                        < front[si].errors.len() && #[trigger] mid[k] == match_of(
                        #[trigger] rules[ri],
                    ) && fires(rules[ri], #[trigger] front[si], #[trigger] front[si].errors[ei]);
                assert(res[k] == mid[k]);
                assert(sigs[si] == front[si]);
                assert(0 <= ri < rules.len() && 0 <= si < sigs.len() && !sigs[si].passed && 0 <= ei
                    < sigs[si].errors.len() && res[k] == match_of(rules[ri]) && fires(
                    rules[ri],
                    sigs[si],
                    sigs[si].errors[ei],
                ));
            } else {
                assert(!s.passed);
                assert(res == scan_errors(mid, rules, s, s.errors));
                let (ri, ei) = choose|ri: int, ei: int|
                    0 <= ri < rules.len() && 0 <= ei < s.errors.len() && #[trigger] scan_errors(
                        mid,
                        rules,
                        s,
                        s.errors,
                    )[k] == match_of(#[trigger] rules[ri]) && fires(
                        rules[ri],
                        s,
                        #[trigger] s.errors[ei],
                    );
                let si = sigs.len() - 1;
                assert(sigs[si] == s);
                assert(0 <= ri < rules.len() && 0 <= si < sigs.len() && !sigs[si].passed && 0 <= ei
                    < sigs[si].errors.len() && res[k] == match_of(rules[ri]) && fires(
                    rules[ri],
                    sigs[si],
                    sigs[si].errors[ei],
                ));
            }
        }
    }
}

/// No pattern id is reported twice.
#[verifier::spinoff_prover]
pub proof fn lemma_extract_ids_distinct(rules: Seq<PatternRuleView>, signals: Seq<EvalSignalView>)
    ensures
        ids_distinct(extracted(rules, signals)),
{
    lemma_scan_signals(Seq::empty(), rules, signals);
}

/// Every reported match is that of a rule firing on an error of a signal that
/// did not pass.
#[verifier::spinoff_prover]
pub proof fn lemma_extract_sound(rules: Seq<PatternRuleView>, signals: Seq<EvalSignalView>)
    ensures
        forall|k: int|
            0 <= k < extracted(rules, signals).len() ==> exists|ri: int, si: int, ei: int|
                0 <= ri < rules.len() && 0 <= si < signals.len() && !signals[si].passed && 0 <= ei
                    < signals[si].errors.len() && #[trigger] extracted(rules, signals)[k]
                    == match_of(#[trigger] rules[ri]) && fires(
                    rules[ri],
                    #[trigger] signals[si],
                    #[trigger] signals[si].errors[ei],
                ),
{
    lemma_scan_signals(Seq::empty(), rules, signals);
}

/// Whenever a rule fires on an error of a signal that did not pass, its id is
/// among the reported matches.
#[verifier::spinoff_prover]
pub proof fn lemma_extract_complete(rules: Seq<PatternRuleView>, signals: Seq<EvalSignalView>)
    ensures
        forall|ri: int, si: int, ei: int|
            0 <= ri < rules.len() && 0 <= si < signals.len() && !signals[si].passed && 0 <= ei
                < signals[si].errors.len() && fires(
                #[trigger] rules[ri],
                #[trigger] signals[si],
                #[trigger] signals[si].errors[ei],
            ) ==> has_id(extracted(rules, signals), rules[ri].id),
{
    lemma_scan_signals(Seq::empty(), rules, signals);
}

/// A signal that passed changes nothing, wherever it stands.
#[verifier::spinoff_prover]
pub proof fn lemma_passed_signal_ignored(
    rules: Seq<PatternRuleView>,
    before: Seq<EvalSignalView>,
    s: EvalSignalView,
    after: Seq<EvalSignalView>,
)
    requires
        s.passed,
    ensures
        extracted(rules, before + seq![s] + after) == extracted(rules, before + after),
    decreases after.len(),
{
    if after.len() == 0 {
        assert(before + seq![s] + after =~= before.push(s));
        assert((before + seq![s] + after).drop_last() =~= before);
        assert(before + after =~= before);
    } else {
        lemma_passed_signal_ignored(rules, before, s, after.drop_last());
        assert((before + seq![s] + after).drop_last() =~= before + seq![s] + after.drop_last());
        assert((before + after).drop_last() =~= before + after.drop_last());
        assert((before + seq![s] + after).last() == after.last());
        assert((before + after).last() == after.last());
    }
}

/// A rule added to an engine is found by it: whenever the new rule fires on an
/// error of a signal that did not pass, its id is among the matches.
#[verifier::spinoff_prover]
pub proof fn lemma_added_rule_found(
    rules: Seq<PatternRuleView>,
    rule: PatternRuleView,
    signals: Seq<EvalSignalView>,
    si: int,
    ei: int,
)
    requires
        0 <= si < signals.len(),
        !signals[si].passed,
        0 <= ei < signals[si].errors.len(),
        fires(rule, signals[si], signals[si].errors[ei]),
    ensures
        has_id(extracted(rules.push(rule), signals), rule.id),
{
    lemma_extract_complete(rules.push(rule), signals);
    assert(rules.push(rule)[rules.len() as int] == rule);
}

// ---------------------------------------------------------------------------
// Extraction as the first firing of each id

/// The rules that fire on error `e` of signal `s`, in rule order.
pub open spec fn firing_rules(rules: Seq<PatternRuleView>, s: EvalSignalView, e: EvalErrorView) -> Seq<
    PatternRuleView,
>
    decreases rules.len(),
{
    if rules.len() == 0 {
        Seq::empty()
    } else {
        let front = firing_rules(rules.drop_last(), s, e);
        if fires(rules.last(), s, e) {
            front.push(rules.last())
        } else {
            front
        }
    }
}

/// The rules that fire on the errors of `s`, error by error.
pub open spec fn firing_on_errors(
    rules: Seq<PatternRuleView>,
    s: EvalSignalView,
    errors: Seq<EvalErrorView>,
) -> Seq<PatternRuleView>
    decreases errors.len(),
{
    if errors.len() == 0 {
        Seq::empty()
    } else {
        firing_on_errors(rules, s, errors.drop_last()) + firing_rules(rules, s, errors.last())
    }
}

/// Every firing of a rule on an error of a failed signal, ordered by signal,
/// then error, then rule.
pub open spec fn firings(rules: Seq<PatternRuleView>, signals: Seq<EvalSignalView>) -> Seq<
    PatternRuleView,
>
    decreases signals.len(),
{
    if signals.len() == 0 {
        Seq::empty()
    } else {
        let front = firings(rules, signals.drop_last());
        let s = signals.last();
        if s.passed {
            front
        } else {
            front + firing_on_errors(rules, s, s.errors)
        }
    }
}

/// After `acc`, the match of each rule in `rs` whose id is not there yet, in
/// order.
pub open spec fn first_by_id_from(acc: Seq<PatternMatchView>, rs: Seq<PatternRuleView>) -> Seq<
    PatternMatchView,
>
    decreases rs.len(),
{
    if rs.len() == 0 {
        acc
    } else {
        let d = first_by_id_from(acc, rs.drop_last());
        if has_id(d, rs.last().id) {
            d
        } else {
            d.push(match_of(rs.last()))
        }
    }
}

/// The match of the first rule of each id in `rs`, in the order of those
/// first rules.
pub open spec fn first_by_id(rs: Seq<PatternRuleView>) -> Seq<PatternMatchView> {
    first_by_id_from(Seq::empty(), rs)
}

#[verifier::spinoff_prover]
proof fn lemma_first_by_id_append(
    acc: Seq<PatternMatchView>,
    xs: Seq<PatternRuleView>,
    ys: Seq<PatternRuleView>,
)
    ensures
        first_by_id_from(acc, xs + ys) == first_by_id_from(first_by_id_from(acc, xs), ys),
    decreases ys.len(),
{
    if ys.len() == 0 {
        assert(xs + ys =~= xs);
    } else {
        assert((xs + ys).drop_last() =~= xs + ys.drop_last());
        assert((xs + ys).last() == ys.last());
        lemma_first_by_id_append(acc, xs, ys.drop_last());
    }
}

#[verifier::spinoff_prover]
proof fn lemma_scan_rules_first(
    acc: Seq<PatternMatchView>,
    rules: Seq<PatternRuleView>,
    s: EvalSignalView,
    e: EvalErrorView,
)
    ensures
        scan_rules(acc, rules, s, e) == first_by_id_from(acc, firing_rules(rules, s, e)),
    decreases rules.len(),
{
    if rules.len() > 0 {
        lemma_scan_rules_first(acc, rules.drop_last(), s, e);
        let front = firing_rules(rules.drop_last(), s, e);
        if fires(rules.last(), s, e) {
            assert(front.push(rules.last()).drop_last() =~= front);
        }
    }
}

#[verifier::spinoff_prover]
proof fn lemma_scan_errors_first(
    acc: Seq<PatternMatchView>,
    rules: Seq<PatternRuleView>,
    s: EvalSignalView,
    errors: Seq<EvalErrorView>,
)
    ensures
        scan_errors(acc, rules, s, errors) == first_by_id_from(acc, firing_on_errors(rules, s, errors)),
    decreases errors.len(),
{
    if errors.len() > 0 {
        let front = errors.drop_last();
        lemma_scan_errors_first(acc, rules, s, front);
        let mid = scan_errors(acc, rules, s, front);
        lemma_scan_rules_first(mid, rules, s, errors.last());
        lemma_first_by_id_append(
            acc,
            firing_on_errors(rules, s, front),
            firing_rules(rules, s, errors.last()),
        );
    }
}

#[verifier::spinoff_prover]
proof fn lemma_scan_signals_first(
    acc: Seq<PatternMatchView>,
    rules: Seq<PatternRuleView>,
    signals: Seq<EvalSignalView>,
)
    ensures
        scan_signals(acc, rules, signals) == first_by_id_from(acc, firings(rules, signals)),
    decreases signals.len(),
{
    if signals.len() > 0 {
        let front = signals.drop_last();
        let s = signals.last();
        lemma_scan_signals_first(acc, rules, front);
        if !s.passed {
            let mid = scan_signals(acc, rules, front);
            lemma_scan_errors_first(mid, rules, s, s.errors);
            lemma_first_by_id_append(acc, firings(rules, front), firing_on_errors(rules, s, s.errors));
        }
    }
}

/// Extraction lists, for each id, the match of its first firing rule, in the
/// order of those first firings (by signal, then error, then rule).
#[verifier::spinoff_prover]
pub proof fn lemma_extract_first_firings(rules: Seq<PatternRuleView>, signals: Seq<EvalSignalView>)
    ensures
        extracted(rules, signals) == first_by_id(firings(rules, signals)),
{
    lemma_scan_signals_first(Seq::empty(), rules, signals);
}

/// The matches `ms` added after `acc`, each unless its id is there already.
pub open spec fn absorb(acc: Seq<PatternMatchView>, ms: Seq<PatternMatchView>) -> Seq<
    PatternMatchView,
>
    decreases ms.len(),
{
    if ms.len() == 0 {
        acc
    } else {
        let a = absorb(acc, ms.drop_last());
        if has_id(a, ms.last().id) {
            a
        } else {
            a.push(ms.last())
        }
    }
}

proof fn lemma_absorb_ids(acc: Seq<PatternMatchView>, ms: Seq<PatternMatchView>, id: Seq<char>)
    ensures
        has_id(absorb(acc, ms), id) <==> (has_id(acc, id) || has_id(ms, id)),
    decreases ms.len(),
{
    if ms.len() > 0 {
        let front = ms.drop_last();
        let m = ms.last();
        let a = absorb(acc, front);
        lemma_absorb_ids(acc, front, id);
        if has_id(front, id) {
            let i = choose|i: int| 0 <= i < front.len() && (#[trigger] front[i]).id == id;
            assert(ms[i] == front[i]);
        }
        if has_id(ms, id) && !has_id(front, id) {
            let i = choose|i: int| 0 <= i < ms.len() && (#[trigger] ms[i]).id == id;
            if i < front.len() {
                assert(front[i] == ms[i]);
            }
            assert(m.id == id);
        }
        if m.id == id {
            assert(ms[ms.len() - 1] == m);
        }
        if !has_id(a, m.id) {
            let b = a.push(m);
            if has_id(a, id) {
                let i = choose|i: int| 0 <= i < a.len() && (#[trigger] a[i]).id == id;
                assert(b[i] == a[i]);
            }
            if m.id == id {
                assert(b[a.len() as int] == m);
            }
            if has_id(b, id) && m.id != id {
                let i = choose|i: int| 0 <= i < b.len() && (#[trigger] b[i]).id == id;
                assert(i < a.len());
                assert(a[i] == b[i]);
            }
        }
    }
}

proof fn lemma_first_by_id_absorb(acc: Seq<PatternMatchView>, xs: Seq<PatternRuleView>)
    ensures
        first_by_id_from(acc, xs) == absorb(acc, first_by_id(xs)),
    decreases xs.len(),
{
    if xs.len() > 0 {
        let front = xs.drop_last();
        let x = xs.last();
        let f = first_by_id(front);
        lemma_first_by_id_absorb(acc, front);
        let d = first_by_id_from(acc, front);
        if has_id(f, x.id) {
            lemma_absorb_ids(acc, f, x.id);
        } else {
            assert(f.push(match_of(x)).drop_last() =~= f);
            assert(f.push(match_of(x)).last() == match_of(x));
        }
    }
}

proof fn lemma_firing_rules_evaluator(
    rules: Seq<PatternRuleView>,
    s: EvalSignalView,
    t: EvalSignalView,
    e: EvalErrorView,
)
    requires
        s.evaluator == t.evaluator,
    ensures
        firing_rules(rules, s, e) == firing_rules(rules, t, e),
    decreases rules.len(),
{
    if rules.len() > 0 {
        lemma_firing_rules_evaluator(rules.drop_last(), s, t, e);
    }
}

/// Rule lists that extract alike on every input try every error alike, from
/// any matches found before it.
proof fn lemma_alike_rules_scan_alike(
    r1: Seq<PatternRuleView>,
    r2: Seq<PatternRuleView>,
    acc: Seq<PatternMatchView>,
    s: EvalSignalView,
    e: EvalErrorView,
)
    requires
        forall|x: Seq<EvalSignalView>| #[trigger] extracted(r1, x) == extracted(r2, x),
    ensures
        scan_rules(acc, r1, s, e) == scan_rules(acc, r2, s, e),
{
    let t = EvalSignalView {
        evaluator: s.evaluator,
        passed: false,
        summary: s.summary,
        errors: seq![e],
    };
    let x = seq![t];
    assert(extracted(r1, x) == extracted(r2, x));
    assert(x.drop_last() =~= Seq::<EvalSignalView>::empty());
    assert(x.last() == t);
    assert(t.errors.drop_last() =~= Seq::<EvalErrorView>::empty());
    assert(t.errors.last() == e);
    assert forall|r: Seq<PatternRuleView>| #[trigger] firings(r, x) == firing_rules(r, t, e) by {
        let none = Seq::<PatternRuleView>::empty();
        assert(firing_on_errors(r, t, Seq::<EvalErrorView>::empty()) == none);
        assert(firing_on_errors(r, t, t.errors) == firing_on_errors(r, t, t.errors.drop_last())
            + firing_rules(r, t, e));
        assert(none + firing_rules(r, t, e) =~= firing_rules(r, t, e));
        assert(firings(r, Seq::<EvalSignalView>::empty()) == none);
        assert(firings(r, x) == firings(r, x.drop_last()) + firing_on_errors(r, t, t.errors));
        assert(none + firing_on_errors(r, t, t.errors) =~= firing_on_errors(r, t, t.errors));
    }
    lemma_extract_first_firings(r1, x);
    lemma_extract_first_firings(r2, x);
    lemma_firing_rules_evaluator(r1, s, t, e);
    lemma_firing_rules_evaluator(r2, s, t, e);
    lemma_scan_rules_first(acc, r1, s, e);
    lemma_scan_rules_first(acc, r2, s, e);
    lemma_first_by_id_absorb(acc, firing_rules(r1, s, e));
    lemma_first_by_id_absorb(acc, firing_rules(r2, s, e));
}

/// Whether `q1` and `q2` try every error alike, from any matches found
/// before it.
pub open spec fn scan_alike(q1: Seq<PatternRuleView>, q2: Seq<PatternRuleView>) -> bool {
    forall|acc: Seq<PatternMatchView>, s: EvalSignalView, e: EvalErrorView|
        #[trigger] scan_rules(acc, q1, s, e) == scan_rules(acc, q2, s, e)
}

proof fn lemma_scan_alike_errors(
    q1: Seq<PatternRuleView>,
    q2: Seq<PatternRuleView>,
    acc: Seq<PatternMatchView>,
    s: EvalSignalView,
    errors: Seq<EvalErrorView>,
)
    requires
        scan_alike(q1, q2),
    ensures
        scan_errors(acc, q1, s, errors) == scan_errors(acc, q2, s, errors),
    decreases errors.len(),
{
    if errors.len() > 0 {
        lemma_scan_alike_errors(q1, q2, acc, s, errors.drop_last());
        let mid = scan_errors(acc, q1, s, errors.drop_last());
        assert(scan_rules(mid, q1, s, errors.last()) == scan_rules(mid, q2, s, errors.last()));
    }
}

proof fn lemma_scan_alike_signals(
    q1: Seq<PatternRuleView>,
    q2: Seq<PatternRuleView>,
    acc: Seq<PatternMatchView>,
    signals: Seq<EvalSignalView>,
)
    requires
        scan_alike(q1, q2),
    ensures
        scan_signals(acc, q1, signals) == scan_signals(acc, q2, signals),
    decreases signals.len(),
{
    if signals.len() > 0 {
        lemma_scan_alike_signals(q1, q2, acc, signals.drop_last());
        let mid = scan_signals(acc, q1, signals.drop_last());
        let s = signals.last();
        lemma_scan_alike_errors(q1, q2, mid, s, s.errors);
    }
}

/// Adding a rule to an engine that extracts like one built with the rules
/// `rs` gives an engine that extracts like one built with `rs` followed by
/// the rule: the new rule is tried after every earlier one, and none is
/// dropped or moved.
#[verifier::spinoff_prover]
pub proof fn lemma_add_rule_like_new(
    rs: Seq<PatternRule>,
    rule: PatternRule,
    engine: PatternEngine,
    added: PatternEngine,
    built: PatternEngine,
)
    requires
        forall|signals: Seq<EvalSignalView>|
            #[trigger] extracted(engine.rule_views(), signals) == extracted(rules_view(rs), signals),
        added.rule_views() == engine.rule_views().push(rule@),
        built.rule_views() == rules_view(rs.push(rule)),
    ensures
        forall|signals: Seq<EvalSignalView>|
            #![trigger extracted(added.rule_views(), signals)]
            extracted(added.rule_views(), signals) == extracted(built.rule_views(), signals),
{
    let r1 = engine.rule_views();
    let r2 = rules_view(rs);
    let r = rule@;
    assert(rules_view(rs.push(rule)) =~= r2.push(r));
    assert(r1.push(r).drop_last() =~= r1);
    assert(r2.push(r).drop_last() =~= r2);
    assert forall|acc: Seq<PatternMatchView>, s: EvalSignalView, e: EvalErrorView|
        #[trigger] scan_rules(acc, r1.push(r), s, e) == scan_rules(acc, r2.push(r), s, e) by {
        lemma_alike_rules_scan_alike(r1, r2, acc, s, e);
    }
    assert forall|signals: Seq<EvalSignalView>|
        #![trigger extracted(added.rule_views(), signals)]
        extracted(added.rule_views(), signals) == extracted(built.rule_views(), signals) by {
        lemma_scan_alike_signals(r1.push(r), r2.push(r), Seq::empty(), signals);
    }
}

// ---------------------------------------------------------------------------
// The built-in rules

/// The rules that every engine starts with.
pub open spec fn builtin_rules() -> Seq<PatternRuleView> {
    seq![
        PatternRuleView {
            evaluator: "cargo_test"@,
            pattern: "unwrap\\(\\).*Err|called `Result::unwrap\\(\\)` on an `Err`"@,
            id: "rust-unwrap-on-parse"@,
            category: "error_handling"@,
            description: "Calling unwrap() on a Result that contains Err"@,
        },
        PatternRuleView {
            evaluator: "cargo_test"@,
            pattern: "index out of bounds"@,
            id: "rust-index-oob"@,
            category: "bounds_check"@,
            description: "Array/slice index out of bounds"@,
        },
        PatternRuleView {
            evaluator: "cargo_test"@,
            pattern: "expected .* found"@,
            id: "rust-type-mismatch"@,
            category: "type_error"@,
            description: "Type mismatch: expected one type, found another"@,
        },
        PatternRuleView {
            evaluator: "cargo_test"@,
            pattern: "borrow.*moved"@,
            id: "rust-use-after-move"@,
            category: "ownership"@,
            description: "Use of moved value (ownership violation)"@,
        },
    ]
}

/// The rules of `rs` whose expression the regex crate accepts.
pub open spec fn compiling(rs: Seq<PatternRuleView>) -> Seq<PatternRuleView>
    decreases rs.len(),
{
    if rs.len() == 0 {
        rs
    } else {
        let front = compiling(rs.drop_last());
        if regex_compiles(rs.last().pattern) {
            front.push(rs.last())
        } else {
            front
        }
    }
}

fn push_rule(
    rules: &mut Vec<PatternRule>,
    evaluator: &str,
    pattern: &str,
    id: &str,
    category: &str,
    description: &str,
)
    ensures
        rules_view(final(rules)@) == if regex_compiles(pattern@) {
            rules_view(old(rules)@).push(
                PatternRuleView {
                    evaluator: evaluator@,
                    pattern: pattern@,
                    id: id@,
                    category: category@,
                    description: description@,
                },
            )
        } else {
            rules_view(old(rules)@)
        },
{
    match RegexPattern::new(pattern) {
        Ok(regex) => {
            let rule = PatternRule {
                evaluator: String::from_str(evaluator),
                regex,
                id: String::from_str(id),
                category: String::from_str(category),
                description: String::from_str(description),
            };
            rules.push(rule);
            assert(rules_view(rules@) =~= rules_view(old(rules)@).push(rule@));
        },
        Err(_) => {},
    }
}

impl Default for PatternEngine {
    /// The built-in rules (those whose expression compiles: all of them).
    fn default() -> (e: PatternEngine)
        ensures
            e.rule_views() == compiling(builtin_rules()),
    {
        let ghost b = builtin_rules();
        let mut rules: Vec<PatternRule> = Vec::new();
        assert(b.take(0) =~= Seq::<PatternRuleView>::empty());
        assert(rules_view(rules@) =~= compiling(b.take(0)));
        push_rule(
            &mut rules,
            "cargo_test",
            "unwrap\\(\\).*Err|called `Result::unwrap\\(\\)` on an `Err`",
            "rust-unwrap-on-parse",
            "error_handling",
            "Calling unwrap() on a Result that contains Err",
        );
        assert(b.take(1).drop_last() =~= b.take(0));
        assert(b.take(1).last() == b[0]);
        assert(rules_view(rules@) == compiling(b.take(1)));
        push_rule(
            &mut rules,
            "cargo_test",
            "index out of bounds",
            "rust-index-oob",
            "bounds_check",
            "Array/slice index out of bounds",
        );
        assert(b.take(2).drop_last() =~= b.take(1));
        assert(b.take(2).last() == b[1]);
        assert(rules_view(rules@) == compiling(b.take(2)));
        push_rule(
            &mut rules,
            "cargo_test",
            "expected .* found",
            "rust-type-mismatch",
            "type_error",
            "Type mismatch: expected one type, found another",
        );
        assert(b.take(3).drop_last() =~= b.take(2));
        assert(b.take(3).last() == b[2]);
        assert(rules_view(rules@) == compiling(b.take(3)));
        push_rule(
            &mut rules,
            "cargo_test",
            "borrow.*moved",
            "rust-use-after-move",
            "ownership",
            "Use of moved value (ownership violation)",
        );
        assert(b.take(4).drop_last() =~= b.take(3));
        assert(b.take(4).last() == b[3]);
        assert(rules_view(rules@) == compiling(b.take(4)));
        assert(b.take(4) =~= b);
        PatternEngine { rules }
    }
}

// ---------------------------------------------------------------------------
// Rules from the settings

/// The rules that settings add: one for each configured rule whose
/// expression compiles, described as `Custom: ` followed by its id; those that
/// do not compile are left out.
pub open spec fn custom_rules(rs: Seq<PatternConfig>) -> Seq<PatternRuleView>
    decreases rs.len(),
{
    if rs.len() == 0 {
        Seq::empty()
    } else {
        let front = custom_rules(rs.drop_last());
        let c = rs.last();
        if regex_compiles(c.regex@) {
            front.push(
                PatternRuleView {
                    evaluator: c.evaluator@,
                    pattern: c.regex@,
                    id: c.id@,
                    category: c.category@,
                    description: "Custom: "@ + c.id@,
                },
            )
        } else {
            front
        }
    }
}

/// The configured rules that are added are those whose expression the regex
/// crate accepts, in order, each with its evaluator, expression text, id and
/// category unchanged and described as `Custom: ` followed by its id.
pub proof fn lemma_custom_rules(rs: Seq<PatternConfig>)
    ensures
        custom_rules(rs) == rs.filter(|c: PatternConfig| regex_compiles(c.regex@)).map_values(
            |c: PatternConfig|
                (PatternRuleView {
                    evaluator: c.evaluator@,
                    pattern: c.regex.view(),
                    id: c.id@,
                    category: c.category@,
                    description: "Custom: "@ + c.id@,
                }),
        ),
    decreases rs.len(),
{
    reveal(Seq::filter);
    if rs.len() > 0 {
        lemma_custom_rules(rs.drop_last());
        let f = rs.drop_last().filter(|c: PatternConfig| regex_compiles(c.regex@));
        let g = |c: PatternConfig|
            (PatternRuleView {
                evaluator: c.evaluator@,
                pattern: c.regex.view(),
                id: c.id@,
                category: c.category@,
                description: "Custom: "@ + c.id@,
            });
        assert(f.push(rs.last()).map_values(g) =~= f.map_values(g).push(g(rs.last())));
    }
}

/// Adds the configured rules (see `custom_rules`) after the engine's own:
/// exactly those whose expression compiles, in order, each keeping its
/// evaluator, expression text, id and category, described as `Custom: `
/// followed by its id.
pub fn add_custom_rules(engine: &mut PatternEngine, rules: &Vec<PatternConfig>)
    ensures
        final(engine).rule_views() == old(engine).rule_views() + custom_rules(rules@),
        final(engine).rule_views() == old(engine).rule_views() + rules@.filter(
            |c: PatternConfig| regex_compiles(c.regex@),
        ).map_values(
            |c: PatternConfig|
                (PatternRuleView {
                    evaluator: c.evaluator@,
                    pattern: c.regex.view(),
                    id: c.id@,
                    category: c.category@,
                    description: "Custom: "@ + c.id@,
                }),
        ),
{
    proof {
        lemma_custom_rules(rules@);
    }
    let ghost start = engine.rule_views();
    let mut k: usize = 0;
    assert(rules@.take(0) =~= Seq::<PatternConfig>::empty());
    assert(start + custom_rules(rules@.take(0)) =~= start);
    while k < rules.len()
        invariant
            k <= rules.len(),
            engine.rule_views() == start + custom_rules(rules@.take(k as int)),
        decreases rules.len() - k,
    {
        let c = &rules[k];
        assert(rules@.take(k + 1).drop_last() =~= rules@.take(k as int));
        assert(rules@.take(k + 1).last() == *c);
        match RegexPattern::new(c.regex.as_str()) {
            Ok(regex) => {
                let mut description = String::from_str("Custom: ");
                description.append(c.id.as_str());
                let rule = PatternRule {
                    evaluator: c.evaluator.clone(),
                    regex,
                    id: c.id.clone(),
                    category: c.category.clone(),
                    description,
                };
                engine.add_rule(rule);
                assert(engine.rule_views() =~= start + custom_rules(rules@.take(k + 1)));
            },
            Err(_) => {},
        }
        k = k + 1;
    }
    assert(rules@.take(rules.len() as int) =~= rules@);
}

} // verus!
