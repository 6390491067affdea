use reflect::pattern::{PatternEngine, PatternRule, RegexPattern};
use reflect::types::{EvalError, EvalSignal, Severity};

fn signal(evaluator: &str, msg: &str) -> EvalSignal {
    EvalSignal {
        evaluator: evaluator.into(),
        passed: false,
        summary: "1 failed".into(),
        errors: vec![EvalError {
            file: None,
            line: None,
            column: None,
            code: None,
            message: msg.into(),
            severity: Severity::Error,
        }],
    }
}

fn rule(evaluator: &str, regex: &str, id: &str) -> PatternRule {
    PatternRule {
        evaluator: evaluator.into(),
        regex: RegexPattern::new(regex).unwrap(),
        id: id.into(),
        category: "test".into(),
        description: format!("rule {}", id),
    }
}

#[test]
fn matches_unwrap_on_parse() {
    let engine = PatternEngine::default();
    let s = signal(
        "cargo_test",
        "panicked at 'called `Result::unwrap()` on an `Err` value'",
    );
    let matches = engine.extract(&[s]);
    assert_eq!(matches.len(), 1);
    assert_eq!(matches[0].id, "rust-unwrap-on-parse");
}

#[test]
fn matches_index_oob() {
    let engine = PatternEngine::default();
    let s = signal("cargo_test", "index out of bounds: len is 3 but index is 5");
    let matches = engine.extract(&[s]);
    assert_eq!(matches.len(), 1);
    assert_eq!(matches[0].id, "rust-index-oob");
}

#[test]
fn matches_type_mismatch() {
    let engine = PatternEngine::default();
    let s = signal("cargo_test", "expected `String` found `&str`");
    let matches = engine.extract(&[s]);
    assert_eq!(matches.len(), 1);
    assert_eq!(matches[0].id, "rust-type-mismatch");
}

#[test]
fn matches_use_after_move() {
    let engine = PatternEngine::default();
    let s = signal("cargo_test", "borrow of moved value: `x`");
    let matches = engine.extract(&[s]);
    assert_eq!(matches.len(), 1);
    assert_eq!(matches[0].id, "rust-use-after-move");
}

#[test]
fn no_match_on_passing() {
    let engine = PatternEngine::default();
    let s = EvalSignal {
        evaluator: "cargo_test".into(),
        passed: true,
        summary: "3 passed".into(),
        errors: vec![],
    };
    assert!(engine.extract(&[s]).is_empty());
}

#[test]
fn custom_rule() {
    let mut engine = PatternEngine::default();
    engine.add_rule(PatternRule {
        evaluator: "cargo_test".into(),
        regex: RegexPattern::new("connection refused").unwrap(),
        id: "db-connection-refused".into(),
        category: "infrastructure".into(),
        description: "Database connection refused".into(),
    });
    let s = signal("cargo_test", "connection refused (os error 111)");
    assert!(engine
        .extract(&[s])
        .iter()
        .any(|m| m.id == "db-connection-refused"));
}

#[test]
fn builtin_rules_all_compile() {
    let engine = PatternEngine::default();
    // Each built-in rule fires on its own example, so all four are present.
    let signals = vec![
        signal("cargo_test", "called `Result::unwrap()` on an `Err` value"),
        signal("cargo_test", "index out of bounds"),
        signal("cargo_test", "expected u8 found i32"),
        signal("cargo_test", "borrow of moved value"),
    ];
    let ids: Vec<String> = engine.extract(&signals).into_iter().map(|m| m.id).collect();
    assert_eq!(
        ids,
        vec![
            "rust-unwrap-on-parse",
            "rust-index-oob",
            "rust-type-mismatch",
            "rust-use-after-move"
        ]
    );
}

#[test]
fn each_id_reported_once() {
    let engine = PatternEngine::default();
    let signals = vec![
        signal("cargo_test", "index out of bounds: len is 1"),
        signal("cargo_test", "index out of bounds: len is 2"),
        signal("cargo_test", "index out of bounds: len is 3"),
    ];
    let matches = engine.extract(&signals);
    assert_eq!(matches.len(), 1);
    assert_eq!(matches[0].id, "rust-index-oob");
    assert_eq!(matches[0].category, "bounds_check");
    assert_eq!(matches[0].description, "Array/slice index out of bounds");
}

#[test]
fn other_evaluator_does_not_fire() {
    let engine = PatternEngine::default();
    let s = signal("pytest", "index out of bounds");
    assert!(engine.extract(&[s]).is_empty());
}

#[test]
fn passed_signal_with_errors_is_skipped() {
    let engine = PatternEngine::default();
    let mut s = signal("cargo_test", "index out of bounds");
    s.passed = true;
    let t = signal("cargo_test", "borrow of moved value");
    let matches = engine.extract(&[s, t]);
    assert_eq!(matches.len(), 1);
    assert_eq!(matches[0].id, "rust-use-after-move");
}

#[test]
fn order_follows_signals_errors_then_rules() {
    let engine = PatternEngine::new(vec![
        rule("lint", "b", "rule-b"),
        rule("lint", "a", "rule-a"),
    ]);
    let mut s = signal("lint", "a only");
    s.errors.push(EvalError {
        file: None,
        line: None,
        column: None,
        code: None,
        message: "a and b".into(),
        severity: Severity::Warning,
    });
    let ids: Vec<String> = engine.extract(&[s]).into_iter().map(|m| m.id).collect();
    assert_eq!(ids, vec!["rule-a", "rule-b"]);
}

#[test]
fn first_rule_with_an_id_wins() {
    let mut first = rule("lint", "x", "same");
    first.description = "first".into();
    let mut second = rule("lint", "x", "same");
    second.description = "second".into();
    let engine = PatternEngine::new(vec![first, second]);
    let matches = engine.extract(&[signal("lint", "x")]);
    assert_eq!(matches.len(), 1);
    assert_eq!(matches[0].description, "first");
}

#[test]
fn invalid_pattern_is_refused() {
    assert!(RegexPattern::new("(unclosed").is_err());
    let re = RegexPattern::new("a+b").unwrap();
    assert_eq!(re.as_str(), "a+b");
    assert!(re.is_match("xxaab"));
    assert!(!re.is_match("b"));
}

#[test]
fn added_rule_extracts_like_a_new_engine() {
    let signals = vec![signal("cargo_test", "alpha beta"), signal("cargo_test", "beta")];
    let mut grown = PatternEngine::new(vec![rule("cargo_test", "beta", "b")]);
    grown.add_rule(rule("cargo_test", "alpha", "a"));
    let built = PatternEngine::new(vec![rule("cargo_test", "beta", "b"), rule("cargo_test", "alpha", "a")]);
    let ids = |e: &PatternEngine| -> Vec<String> { e.extract(&signals).into_iter().map(|m| m.id).collect() };
    assert_eq!(ids(&grown), ids(&built));
    assert_eq!(ids(&grown), vec!["b".to_string(), "a".to_string()]);
}

#[test]
fn added_rule_extends_an_engine_that_only_behaves_alike() {
    // Two rules with one id, the second never reached: the engine extracts as
    // one holding the first rule alone, and keeps doing so after a rule is added.
    let signals = vec![signal("cargo_test", "gamma beta"), signal("cargo_test", "beta")];
    let mut grown = PatternEngine::new(vec![rule("cargo_test", "beta", "b"), rule("cargo_test", "beta", "b")]);
    grown.add_rule(rule("cargo_test", "gamma", "g"));
    let built = PatternEngine::new(vec![rule("cargo_test", "beta", "b"), rule("cargo_test", "gamma", "g")]);
    let ids = |e: &PatternEngine| -> Vec<String> { e.extract(&signals).into_iter().map(|m| m.id).collect() };
    assert_eq!(ids(&grown), ids(&built));
    assert_eq!(ids(&grown), vec!["b".to_string(), "g".to_string()]);
}
