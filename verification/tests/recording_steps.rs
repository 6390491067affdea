use reflect::config::PatternConfig;
use reflect::pattern::{add_custom_rules, PatternEngine, PatternMatch};
use reflect::recording::{
    forget_request, pattern_save_failed, pattern_step, recorded_occurrences, recorded_pattern,
    recorded_pattern_id, store_failed, PatternAction,
};
use reflect::types::{EvalError, EvalSignal, Severity};

fn found(id: &str) -> PatternMatch {
    PatternMatch { id: id.into(), category: format!("{}-cat", id), description: format!("{}-desc", id) }
}

fn failing(evaluator: &str, msg: &str) -> EvalSignal {
    EvalSignal {
        evaluator: evaluator.into(),
        passed: false,
        summary: "failed".into(),
        errors: vec![EvalError {
            file: None,
            line: None,
            column: None,
            code: None,
            message: msg.into(),
            severity: Severity::Error,
        }],
    }
}

#[test]
fn first_match_is_recorded() {
    assert!(recorded_pattern(&vec![]).is_none());
    let r = recorded_pattern(&vec![found("a"), found("b")]).unwrap();
    assert_eq!(r.id, "a");
    assert_eq!(r.category, "a-cat");
    assert_eq!(r.description, "a-desc");
}

#[test]
fn no_match_records_nothing() {
    let a = pattern_step(&vec![], None);
    assert!(matches!(a, PatternAction::NoPattern));
    assert_eq!(recorded_pattern_id(&a), None);
    assert_eq!(recorded_occurrences(&a), 0);
}

#[test]
fn known_pattern_counts_up() {
    let a = pattern_step(&vec![found("a"), found("b")], Some(Ok(Some(4))));
    match &a {
        PatternAction::Update { id, occurrences } => {
            assert_eq!(id, "a");
            assert_eq!(*occurrences, 5);
        }
        other => panic!("unexpected {:?}", other),
    }
    assert_eq!(recorded_pattern_id(&a), Some("a".to_string()));
    assert_eq!(recorded_occurrences(&a), 5);
    assert_eq!(pattern_save_failed(&a, "disk full"), "failed to update pattern: disk full");
}

#[test]
fn new_pattern_is_created_once() {
    let a = pattern_step(&vec![found("b"), found("a")], Some(Ok(None)));
    match &a {
        PatternAction::Create { id, category, description, occurrences } => {
            assert_eq!(id, "b");
            assert_eq!(category, "b-cat");
            assert_eq!(description, "b-desc");
            assert_eq!(*occurrences, 1);
        }
        other => panic!("unexpected {:?}", other),
    }
    assert_eq!(recorded_pattern_id(&a), Some("b".to_string()));
    assert_eq!(recorded_occurrences(&a), 1);
    assert_eq!(pattern_save_failed(&a, "locked"), "failed to create pattern: locked");
}

#[test]
fn failed_lookup_is_answered() {
    let a = pattern_step(&vec![found("a")], Some(Err("no table".into())));
    match &a {
        PatternAction::Reply { message } => assert_eq!(message, "failed to get pattern: no table"),
        other => panic!("unexpected {:?}", other),
    }
    assert_eq!(recorded_pattern_id(&a), None);
    assert_eq!(recorded_occurrences(&a), 0);
}

#[test]
fn store_failure_reply() {
    assert_eq!(store_failed("busy"), "failed to store reflection: busy");
}

#[test]
fn forget_reads_a_uuid() {
    assert_eq!(
        forget_request("550e8400-e29b-41d4-a716-446655440000"),
        Ok(0x550e8400e29b41d4a716446655440000u128)
    );
}

#[test]
fn forget_refuses_other_text() {
    let r = forget_request("not-a-uuid");
    let m = r.unwrap_err();
    assert!(m.starts_with("invalid UUID: "));
    assert!(m.len() > "invalid UUID: ".len());
}

#[test]
fn custom_rules_follow_builtin_ones() {
    let mut engine = PatternEngine::new(vec![]);
    let rules = vec![
        PatternConfig {
            evaluator: "pytest".into(),
            regex: "KeyError".into(),
            id: "key_error".into(),
            category: "lookup".into(),
        },
        PatternConfig {
            evaluator: "pytest".into(),
            regex: "(unclosed".into(),
            id: "broken".into(),
            category: "never".into(),
        },
        PatternConfig {
            evaluator: "pytest".into(),
            regex: "Key".into(),
            id: "key_any".into(),
            category: "lookup".into(),
        },
    ];
    add_custom_rules(&mut engine, &rules);
    let found = engine.extract(&[failing("pytest", "KeyError: 'x'")]);
    assert_eq!(found.len(), 2);
    assert_eq!(found[0].id, "key_error");
    assert_eq!(found[0].category, "lookup");
    assert_eq!(found[0].description, "Custom: key_error");
    assert_eq!(found[1].id, "key_any");
    assert_eq!(found[1].description, "Custom: key_any");
    assert!(engine.extract(&[failing("cargo_test", "KeyError")]).is_empty());
}
