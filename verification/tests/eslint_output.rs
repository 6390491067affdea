use reflect::eslint::parse_eslint_output;
use reflect::types::Severity;

const FIXTURE: &str = "
/home/user/project/src/components/Auth.tsx
  12:5   error    'user' is assigned a value but never used  no-unused-vars
  23:10  error    Unexpected any. Specify a different type    @typescript-eslint/no-explicit-any
  45:3   warning  Unexpected console statement                no-console

/home/user/project/src/utils/format.ts
   8:1   error    'moment' is not defined                     no-undef
  15:7   warning  'unused' is defined but never used          no-unused-vars

\u{2716} 5 problems (3 errors, 2 warnings)
  0 errors and 1 warning potentially fixable with the `--fix` option.
";

#[test]
fn parses_errors_and_warnings() {
    let signal = parse_eslint_output(FIXTURE);
    assert!(!signal.passed);
    assert_eq!(signal.evaluator, "eslint");
    assert_eq!(signal.errors.len(), 5);

    // First file, first error
    assert_eq!(
        signal.errors[0].file,
        Some("/home/user/project/src/components/Auth.tsx".into())
    );
    assert_eq!(signal.errors[0].line, Some(12));
    assert_eq!(signal.errors[0].column, Some(5));
    assert_eq!(signal.errors[0].code, Some("no-unused-vars".into()));
    assert_eq!(signal.errors[0].severity, Severity::Error);

    // First file, warning
    assert_eq!(
        signal.errors[2].file,
        Some("/home/user/project/src/components/Auth.tsx".into())
    );
    assert_eq!(signal.errors[2].line, Some(45));
    assert_eq!(signal.errors[2].column, Some(3));
    assert_eq!(signal.errors[2].code, Some("no-console".into()));
    assert_eq!(signal.errors[2].severity, Severity::Warning);

    // Second file
    assert_eq!(
        signal.errors[3].file,
        Some("/home/user/project/src/utils/format.ts".into())
    );
    assert_eq!(signal.errors[3].line, Some(8));
    assert_eq!(signal.errors[3].column, Some(1));
    assert_eq!(signal.errors[3].code, Some("no-undef".into()));
    assert_eq!(signal.errors[3].severity, Severity::Error);

    // Second file, warning
    assert_eq!(signal.errors[4].severity, Severity::Warning);
    assert_eq!(signal.errors[4].code, Some("no-unused-vars".into()));
}

#[test]
fn eslint_parses_clean_output() {
    let output = "";
    let signal = parse_eslint_output(output);
    assert!(signal.passed);
    assert_eq!(signal.evaluator, "eslint");
    assert!(signal.errors.is_empty());
}

#[test]
fn eslint_fixture_details() {
    let signal = parse_eslint_output(FIXTURE);
    assert_eq!(signal.summary, "3 errors, 2 warnings");
    assert_eq!(
        signal.errors[0].message,
        "'user' is assigned a value but never used"
    );
    assert_eq!(
        signal.errors[1].code.as_deref(),
        Some("@typescript-eslint/no-explicit-any")
    );
    assert_eq!(signal.errors[1].message, "Unexpected any. Specify a different type");
}

#[test]
fn eslint_clean_summary() {
    let signal = parse_eslint_output("");
    assert_eq!(signal.summary, "0 errors, 0 warnings");
}

#[test]
fn eslint_passes_on_zero_totals_even_with_problem_lines() {
    let out = "f.js\n  1:1  error  bad thing  rule-x\n\u{2716} 0 problems (0 errors, 0 warnings)\n";
    let signal = parse_eslint_output(out);
    assert!(signal.passed);
    assert_eq!(signal.errors.len(), 1);
    assert_eq!(signal.errors[0].file.as_deref(), Some("f.js"));
}

#[test]
fn eslint_singular_totals_and_stop_at_summary() {
    let out = "f.js\n  1:1  warning  w  rule-w\n\u{2716} 2 problems (1 error, 1 warning)\n  2:2  error  after  rule-a\n";
    let signal = parse_eslint_output(out);
    assert_eq!(signal.summary, "1 errors, 1 warnings");
    assert!(!signal.passed);
    assert_eq!(signal.errors.len(), 1);
}

#[test]
fn eslint_problem_before_any_file_has_none() {
    let signal = parse_eslint_output("  3:4  error  msg here  r\n");
    assert_eq!(signal.errors.len(), 1);
    assert_eq!(signal.errors[0].file, None);
    assert_eq!(signal.errors[0].message, "msg here");
}

#[test]
fn eslint_file_name_is_trimmed() {
    let signal = parse_eslint_output("src/a.js   \t\n  3:4  error  m  r\n");
    assert_eq!(signal.errors[0].file.as_deref(), Some("src/a.js"));
}

#[test]
fn eslint_message_may_be_a_blank_when_blanks_run_long() {
    // Five blanks before a single word: the shortest message that leaves
    // two or more blanks before the last word is one blank.
    let signal = parse_eslint_output("  1:2  error     only-rule\n");
    assert_eq!(signal.errors.len(), 1);
    assert_eq!(signal.errors[0].message, " ");
    assert_eq!(signal.errors[0].code.as_deref(), Some("only-rule"));
}

#[test]
fn eslint_count_overflow_reads_as_zero() {
    let signal = parse_eslint_output("(99999999999 errors, 0 warnings)\n");
    assert!(signal.passed);
    assert_eq!(signal.summary, "0 errors, 0 warnings");
}

#[test]
fn eslint_each_problem_takes_the_file_named_last() {
    let out = "a.js\n  1:1  error  one  r1\n\nb.js\n  2:2  warning  two  r2\n  3:3  error  three  r3\n\u{2716} 3 problems (2 errors, 1 warning)\nc.js\n  4:4  error  four  r4\n";
    let signal = parse_eslint_output(out);
    let got: Vec<(Option<String>, String)> =
        signal.errors.iter().map(|e| (e.file.clone(), e.message.clone())).collect();
    assert_eq!(
        got,
        vec![
            (Some("a.js".to_string()), "one".to_string()),
            (Some("b.js".to_string()), "two".to_string()),
            (Some("b.js".to_string()), "three".to_string()),
        ]
    );
    assert_eq!(signal.errors[1].severity, Severity::Warning);
}
