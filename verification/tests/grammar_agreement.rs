//! The hand-written grammars agree with the regular expressions they stand
//! for, as the regex crate reads them, on many generated inputs.
use reflect::eslint::parse_eslint_output;
use reflect::tsc::parse_tsc_output;
use reflect::types::{EvalError, Severity};
use regex::Regex;

fn tsc_by_regex(output: &str) -> Vec<EvalError> {
    static RE: std::sync::OnceLock<Regex> = std::sync::OnceLock::new();
    let re = RE.get_or_init(|| Regex::new(r"^(.+?)\((\d+),(\d+)\): error (TS\d+): (.+)$").unwrap());
    output
        .lines()
        .filter_map(|line| {
            re.captures(line).map(|cap| EvalError {
                file: Some(cap[1].to_string()),
                line: cap[2].parse().ok(),
                column: cap[3].parse().ok(),
                code: Some(cap[4].to_string()),
                message: cap[5].to_string(),
                severity: Severity::Error,
            })
        })
        .collect()
}

fn eslint_counts_by_regex(output: &str) -> (u32, u32) {
    let re = counts_regex();
    output
        .lines()
        .find_map(|line| {
            re.captures(line).map(|cap| {
                (
                    cap[1].parse::<u32>().unwrap_or(0),
                    cap[2].parse::<u32>().unwrap_or(0),
                )
            })
        })
        .unwrap_or((0, 0))
}

fn counts_regex() -> &'static Regex {
    static RE: std::sync::OnceLock<Regex> = std::sync::OnceLock::new();
    RE.get_or_init(|| Regex::new(r"(\d+) errors?,\s*(\d+) warnings?\)").unwrap())
}

fn eslint_regexes() -> &'static (Regex, Regex, Regex) {
    static RES: std::sync::OnceLock<(Regex, Regex, Regex)> = std::sync::OnceLock::new();
    RES.get_or_init(|| {
        (
            Regex::new(r"^(\S.+)$").unwrap(),
            Regex::new(r"^\s+(\d+):(\d+)\s+(error|warning)\s+(.+?)\s{2,}(\S+)\s*$").unwrap(),
            Regex::new(r"^\u{2716}").unwrap(),
        )
    })
}

fn eslint_by_regex(output: &str) -> Vec<EvalError> {
    let (file_re, diag_re, summary_re) = eslint_regexes();
    let mut errors = Vec::new();
    let mut current_file: Option<String> = None;
    for line in output.lines() {
        if line.trim().is_empty() {
            continue;
        }
        if summary_re.is_match(line) {
            break;
        }
        if let Some(cap) = diag_re.captures(line) {
            let severity = match &cap[3] {
                "error" => Severity::Error,
                _ => Severity::Warning,
            };
            errors.push(EvalError {
                file: current_file.clone(),
                line: cap[1].parse().ok(),
                column: cap[2].parse().ok(),
                code: Some(cap[5].to_string()),
                message: cap[4].to_string(),
                severity,
            });
        } else if file_re.is_match(line) && !line.starts_with(' ') {
            current_file = Some(line.trim().to_string());
        }
    }
    errors
}

fn same(a: &[EvalError], b: &[EvalError]) -> bool {
    a.len() == b.len()
        && a.iter().zip(b.iter()).all(|(x, y)| {
            x.file == y.file
                && x.line == y.line
                && x.column == y.column
                && x.code == y.code
                && x.message == y.message
                && x.severity == y.severity
        })
}

struct Lcg(u64);

impl Lcg {
    fn next(&mut self) -> u64 {
        self.0 = self.0.wrapping_mul(6364136223846793005).wrapping_add(1442695040888963407);
        self.0 >> 33
    }
    fn pick<'a>(&mut self, parts: &[&'a str]) -> &'a str {
        parts[(self.next() % parts.len() as u64) as usize]
    }
}

const PIECES: &[&str] = &[
    " ", "  ", "   ", "\t", "\u{a0}", "\u{3000}", "\r", "\n", "\r\n", "1", "12", "007", "99999999999",
    "\u{663}", "\u{ff11}", ":", ",", "(", ")", "(1,2)", "): error TS", "TS", ": ", "error",
    "warning", " error", " errors,", " warning)", " warnings)", "x", "rule-a", "a.ts", "\u{2716}",
    "msg", "'q'", "é", "s", "e",
];

fn generated(seed: u64, count: usize) -> Vec<String> {
    let mut g = Lcg(seed);
    (0..count)
        .map(|_| {
            let n = 1 + (g.next() % 14) as usize;
            (0..n).map(|_| g.pick(PIECES)).collect::<String>()
        })
        .collect()
}

#[test]
fn tsc_grammar_agrees_with_regex() {
    let mut inputs = generated(1, 1500);
    inputs.push("f.ts(1,2): error TS3: m".into());
    inputs.push("a(b(1,2): error TS3: c(4,5): error TS6: d".into());
    for input in &inputs {
        let mine = parse_tsc_output(input);
        let theirs = tsc_by_regex(input);
        assert!(same(&mine.errors, &theirs), "tsc differs on {:?}", input);
        assert_eq!(mine.passed, theirs.is_empty());
    }
}

#[test]
fn eslint_grammar_agrees_with_regex() {
    let mut inputs = generated(2, 1500);
    inputs.push("f.js\n  1:2  error  a b  c\n  3:4 warning   x   y  \n".into());
    inputs.push("  1:2  error     only-rule".into());
    inputs.push("(3 errors, 2 warnings)".into());
    inputs.push("x 12 errors,\u{3000}\u{3000}7 warnings)".into());
    for input in &inputs {
        let mine = parse_eslint_output(input);
        let theirs = eslint_by_regex(input);
        assert!(same(&mine.errors, &theirs), "eslint differs on {:?}", input);
        let (e, w) = eslint_counts_by_regex(input);
        assert_eq!(mine.passed, e == 0 && w == 0, "counts differ on {:?}", input);
        assert_eq!(mine.summary, format!("{} errors, {} warnings", e, w));
    }
}

#[test]
fn generated_lines_assembled_from_lines() {
    // Whole reports built from generated lines, so that state carries over.
    let lines = generated(3, 1200);
    for chunk in lines.chunks(6) {
        let report = chunk.join("\n");
        assert!(same(&parse_eslint_output(&report).errors, &eslint_by_regex(&report)), "{:?}", report);
        assert!(same(&parse_tsc_output(&report).errors, &tsc_by_regex(&report)), "{:?}", report);
    }
}
