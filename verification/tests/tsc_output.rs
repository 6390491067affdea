use reflect::tsc::parse_tsc_output;
use reflect::types::Severity;

const FIXTURE: &str = "src/components/Auth.tsx(12,5): error TS2322: Type 'string' is not assignable to type 'number'.
src/components/Auth.tsx(24,10): error TS7006: Parameter 'e' implicitly has an 'any' type.
src/utils/format.ts(8,1): error TS2304: Cannot find name 'moment'.

Found 3 errors in 2 files.

Errors  Files
     2  src/components/Auth.tsx:12
     1  src/utils/format.ts:8
";

#[test]
fn parses_type_errors() {
    let signal = parse_tsc_output(FIXTURE);
    assert!(!signal.passed);
    assert_eq!(signal.evaluator, "tsc");
    assert_eq!(signal.summary, "3 errors");
    assert_eq!(signal.errors.len(), 3);

    // First error
    assert_eq!(signal.errors[0].file, Some("src/components/Auth.tsx".into()));
    assert_eq!(signal.errors[0].line, Some(12));
    assert_eq!(signal.errors[0].column, Some(5));
    assert_eq!(signal.errors[0].code, Some("TS2322".into()));
    assert_eq!(
        signal.errors[0].message,
        "Type 'string' is not assignable to type 'number'."
    );
    assert_eq!(signal.errors[0].severity, Severity::Error);

    // Second error
    assert_eq!(signal.errors[1].file, Some("src/components/Auth.tsx".into()));
    assert_eq!(signal.errors[1].line, Some(24));
    assert_eq!(signal.errors[1].column, Some(10));
    assert_eq!(signal.errors[1].code, Some("TS7006".into()));
    assert_eq!(
        signal.errors[1].message,
        "Parameter 'e' implicitly has an 'any' type."
    );

    // Third error
    assert_eq!(signal.errors[2].file, Some("src/utils/format.ts".into()));
    assert_eq!(signal.errors[2].line, Some(8));
    assert_eq!(signal.errors[2].column, Some(1));
    assert_eq!(signal.errors[2].code, Some("TS2304".into()));
    assert_eq!(signal.errors[2].message, "Cannot find name 'moment'.");
}

#[test]
fn tsc_parses_clean_output() {
    let signal = parse_tsc_output("");
    assert!(signal.passed);
    assert_eq!(signal.evaluator, "tsc");
    assert_eq!(signal.summary, "no errors");
    assert!(signal.errors.is_empty());
}

#[test]
fn tsc_shortest_file_name_is_taken() {
    // The file part is as short as possible: the first "(" that starts a
    // well-formed tail ends it.
    let s = parse_tsc_output("a(1,2): error TS1: x(3,4): error TS5: y");
    assert_eq!(s.errors.len(), 1);
    assert_eq!(s.errors[0].file.as_deref(), Some("a"));
    assert_eq!(s.errors[0].line, Some(1));
    assert_eq!(s.errors[0].column, Some(2));
    assert_eq!(s.errors[0].code.as_deref(), Some("TS1"));
    assert_eq!(s.errors[0].message, "x(3,4): error TS5: y");
}

#[test]
fn tsc_file_skips_malformed_parentheses() {
    let s = parse_tsc_output("f(x).ts(7,8): error TS42: m");
    assert_eq!(s.errors[0].file.as_deref(), Some("f(x).ts"));
    assert_eq!(s.errors[0].line, Some(7));
    assert_eq!(s.errors[0].code.as_deref(), Some("TS42"));
}

#[test]
fn tsc_line_number_too_large_is_none() {
    let s = parse_tsc_output("f.ts(99999999999,3): error TS1: m\r\n");
    assert_eq!(s.errors.len(), 1);
    assert_eq!(s.errors[0].line, None);
    assert_eq!(s.errors[0].column, Some(3));
    // "\r\n" ends the line: the message keeps no "\r".
    assert_eq!(s.errors[0].message, "m");
    assert_eq!(s.summary, "1 errors");
}

#[test]
fn tsc_non_ascii_digits_match_but_do_not_read() {
    // U+0663 is ARABIC-INDIC DIGIT THREE: a decimal digit that does not read as a number.
    let s = parse_tsc_output("f.ts(\u{663},2): error TS9\u{661}: m");
    assert_eq!(s.errors.len(), 1);
    assert_eq!(s.errors[0].line, None);
    assert_eq!(s.errors[0].column, Some(2));
    assert_eq!(s.errors[0].code.as_deref(), Some("TS9\u{661}"));
}

#[test]
fn tsc_rejects_incomplete_lines() {
    let s = parse_tsc_output("(1,2): error TS1: no file\nf.ts(1,2): error TS1: \nf.ts(1,2): warning TS1: m\nf.ts(,2): error TS1: m");
    assert!(s.passed);
    assert_eq!(s.summary, "no errors");
}

#[test]
fn tsc_counts_many_errors() {
    let line = "f.ts(1,1): error TS1: m\n";
    let s = parse_tsc_output(&line.repeat(12));
    assert_eq!(s.errors.len(), 12);
    assert_eq!(s.summary, "12 errors");
}

#[test]
fn tsc_outputs_concatenate() {
    let a = "a.ts(1,2): error TS1: first\nnoise\n";
    let b = "b.ts(3,4): error TS2: second\r\n";
    let joined = parse_tsc_output(&format!("{a}{b}"));
    let first = parse_tsc_output(a);
    let second = parse_tsc_output(b);
    let messages = |s: &reflect::types::EvalSignal| -> Vec<String> {
        s.errors.iter().map(|e| e.message.clone()).collect()
    };
    let mut expected = messages(&first);
    expected.extend(messages(&second));
    assert_eq!(messages(&joined), expected);
    assert_eq!(messages(&joined), vec!["first", "second"]);
}

#[test]
fn tsc_outputs_join_on_a_line_break() {
    let a = "a.ts(1,2): error TS1: first";
    let b = "b.ts(3,4): error TS2: second";
    let joined = parse_tsc_output(&format!("{a}\n{b}"));
    assert_eq!(joined.errors.len(), 2);
    assert_eq!(joined.errors[0].message, "first");
    assert_eq!(joined.errors[1].message, "second");
    assert_eq!(parse_tsc_output(&format!("\n{b}")).errors.len(), 1);
}

#[test]
fn tsc_summary_line_adds_nothing() {
    let a = "a.ts(1,2): error TS1: first";
    let b = "b.ts(3,4): error TS2: second";
    let with = parse_tsc_output(&format!("{a}\nFound 2 errors.\n{b}"));
    let without = parse_tsc_output(&format!("{a}\n{b}"));
    let messages = |s: &reflect::types::EvalSignal| -> Vec<String> {
        s.errors.iter().map(|e| e.message.clone()).collect()
    };
    assert_eq!(messages(&with), messages(&without));
    assert_eq!(with.summary, "2 errors");
}

#[test]
fn tsc_summary_line_with_carriage_return_adds_nothing() {
    let a = "a.ts(1,2): error TS1: first";
    let b = "b.ts(3,4): error TS2: second";
    let with = parse_tsc_output(&format!("{a}\nFound 2 errors.\r\n{b}"));
    let without = parse_tsc_output(&format!("{a}\n{b}"));
    assert_eq!(with.errors.len(), 2);
    assert_eq!(with.errors[0].message, without.errors[0].message);
    assert_eq!(with.errors[1].message, without.errors[1].message);
}
