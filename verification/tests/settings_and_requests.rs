use reflect::config::{
    choose_db_path, config_search_paths, default_evaluators, default_recall_limit, default_timeout,
    run_settings,
    EvalConfig, StorageConfig,
};
use reflect::tools::{
    convert_signal_input, failed_run_signal, parse_outcome, EvalErrorInput, EvalSignalInput,
    Outcome,
};
use reflect::types::Severity;

#[test]
fn default_storage() {
    let s = StorageConfig::default();
    assert_eq!(s.path, ".reflect/reflect.db");
    assert_eq!(s.backend, "sqlite");
}

#[test]
fn default_has_all_evaluators() {
    let evals = default_evaluators();
    let names: Vec<&str> = evals.iter().map(|(n, _)| n.as_str()).collect();
    assert!(names.contains(&"cargo_test"));
    assert!(names.contains(&"pytest"));
    assert!(names.contains(&"eslint"));
    assert!(names.contains(&"tsc"));
    let pytest = evals.iter().find(|(n, _)| n == "pytest").unwrap();
    assert_eq!(pytest.1.command, "pytest --tb=short -q");
    assert_eq!(pytest.1.timeout_secs, 120);
    assert_eq!(default_timeout(), 60);
}

#[test]
fn db_path_prefers_environment() {
    let configured = "/tmp/test.db".to_string();
    assert_eq!(choose_db_path(Some("/x.db".into()), &configured), "/x.db");
    assert_eq!(choose_db_path(None, &configured), "/tmp/test.db");
}

#[test]
fn settings_search_paths() {
    assert_eq!(config_search_paths(Some("/etc/r.toml".into()), Some("/home/u".into())), vec!["/etc/r.toml"]);
    assert_eq!(
        config_search_paths(None, Some("/home/u".into())),
        vec!["reflect.toml", "/home/u/.config/reflect/reflect.toml"]
    );
    assert_eq!(
        config_search_paths(None, Some("/home/u/".into())),
        vec!["reflect.toml", "/home/u/.config/reflect/reflect.toml"]
    );
    assert_eq!(
        config_search_paths(None, None),
        vec!["reflect.toml", "./.config/reflect/reflect.toml"]
    );
    assert_eq!(
        config_search_paths(None, Some(String::new())),
        vec!["reflect.toml", ".config/reflect/reflect.toml"]
    );
}

#[test]
fn outcomes_read_and_write() {
    assert_eq!(parse_outcome("success"), Outcome::Success);
    assert_eq!(parse_outcome("partial"), Outcome::Partial);
    assert_eq!(parse_outcome("failure"), Outcome::Failure);
    assert_eq!(parse_outcome("Success"), Outcome::Failure);
    assert_eq!(parse_outcome(""), Outcome::Failure);
    for o in [Outcome::Success, Outcome::Failure, Outcome::Partial] {
        assert_eq!(Outcome::parse(o.as_str()), Ok(o));
    }
    assert_eq!(Outcome::parse("done"), Err("unknown outcome: done".to_string()));
}

#[test]
fn converts_reported_signals() {
    let input = EvalSignalInput {
        evaluator: "eslint".into(),
        passed: false,
        summary: "2 problems".into(),
        errors: Some(vec![
            EvalErrorInput {
                file: Some("a.js".into()),
                line: Some(3),
                column: None,
                code: Some("no-undef".into()),
                message: "x is not defined".into(),
                severity: Some("warning".into()),
            },
            EvalErrorInput {
                file: None,
                line: None,
                column: Some(7),
                code: None,
                message: "m".into(),
                severity: Some("WARNING".into()),
            },
            EvalErrorInput {
                file: None,
                line: None,
                column: None,
                code: None,
                message: "n".into(),
                severity: None,
            },
        ]),
    };
    let s = convert_signal_input(&input);
    assert_eq!(s.evaluator, "eslint");
    assert!(!s.passed);
    assert_eq!(s.summary, "2 problems");
    assert_eq!(s.errors.len(), 3);
    assert_eq!(s.errors[0].severity, Severity::Warning);
    assert_eq!(s.errors[0].file.as_deref(), Some("a.js"));
    assert_eq!(s.errors[0].line, Some(3));
    assert_eq!(s.errors[0].code.as_deref(), Some("no-undef"));
    assert_eq!(s.errors[1].severity, Severity::Error);
    assert_eq!(s.errors[1].column, Some(7));
    assert_eq!(s.errors[2].severity, Severity::Error);

    let none = EvalSignalInput {
        evaluator: "tsc".into(),
        passed: true,
        summary: "ok".into(),
        errors: None,
    };
    assert!(convert_signal_input(&none).errors.is_empty());
}

#[test]
fn run_settings_fall_back_to_the_name() {
    let name = "cargo_test".to_string();
    let cfg = EvalConfig { command: "cargo test -- --nocapture".into(), timeout_secs: 120 };
    assert_eq!(run_settings(Some(&cfg), &name), ("cargo test -- --nocapture".to_string(), 120));
    assert_eq!(run_settings(None, &name), ("cargo_test".to_string(), 60));
}

#[test]
fn failed_runs_give_a_failed_signal() {
    let s = failed_run_signal(&"pytest".to_string(), "timed out");
    assert_eq!(s.evaluator, "pytest");
    assert!(!s.passed);
    assert_eq!(s.summary, "evaluator error: timed out");
    assert!(s.errors.is_empty());
}

#[test]
fn recall_returns_five_by_default() {
    assert_eq!(default_recall_limit(), 5);
    assert_eq!(reflect::tools::recall_limit(None, default_recall_limit()), 5);
}
