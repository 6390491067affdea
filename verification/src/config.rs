//! Settings: where reflections are stored, how each evaluator is run, and
//! extra pattern rules; with their defaults and where they are looked for.
use vstd::prelude::*;
use vstd::string::*;

verus! {

/// Where and how reflections are stored.
#[derive(Debug, Clone)]
pub struct StorageConfig {
    pub path: String,
    pub backend: String,
}

impl Default for StorageConfig {
    /// A SQLite database under `.reflect/`.
    fn default() -> (c: StorageConfig)
        ensures
            c.path@ == ".reflect/reflect.db"@,
            c.backend@ == "sqlite"@,
    {
        StorageConfig {
            path: String::from_str(".reflect/reflect.db"),
            backend: String::from_str("sqlite"),
        }
    }
}

/// How one evaluator is run.
#[derive(Debug, Clone)]
pub struct EvalConfig {
    pub command: String,
    pub timeout_secs: u64,
}

/// The time limit of an evaluator whose settings give none, in seconds.
pub fn default_timeout() -> (t: u64)
    ensures
        t == 60,
{
    60
}

/// How many reflections a recall returns when the settings and the request
/// give no number.
pub fn default_recall_limit() -> (n: usize)
    ensures
        n == 5,
{
    5
}

/// An extra pattern rule given in the settings.
#[derive(Debug, Clone)]
pub struct PatternConfig {
    pub evaluator: String,
    pub regex: String,
    pub id: String,
    pub category: String,
}

/// The evaluators known without any settings: name, command and time limit.
pub open spec fn default_evaluator_table() -> Seq<(Seq<char>, Seq<char>, u64)> {
    seq![
        ("cargo_test"@, "cargo test"@, 60u64),
        ("pytest"@, "pytest --tb=short -q"@, 120u64),
        ("eslint"@, "npx eslint . --format stylish"@, 60u64),
        ("tsc"@, "npx tsc --noEmit"@, 60u64),
    ]
}

fn evaluator_entry(name: &str, command: &str, timeout_secs: u64) -> (r: (String, EvalConfig))
    ensures
        r.0@ == name@,
        r.1.command@ == command@,
        r.1.timeout_secs == timeout_secs,
{
    (String::from_str(name), EvalConfig { command: String::from_str(command), timeout_secs })
}

/// The default evaluators, in the order of `default_evaluator_table`.
pub fn default_evaluators() -> (r: Vec<(String, EvalConfig)>)
    ensures
        r.len() == default_evaluator_table().len(),
        forall|i: int|
            0 <= i < r.len() ==> {
                &&& (#[trigger] r[i]).0@ == default_evaluator_table()[i].0
                &&& r[i].1.command@ == default_evaluator_table()[i].1
                &&& r[i].1.timeout_secs == default_evaluator_table()[i].2
            },
{
    let mut r: Vec<(String, EvalConfig)> = Vec::new();
    r.push(evaluator_entry("cargo_test", "cargo test", 60));
    r.push(evaluator_entry("pytest", "pytest --tb=short -q", 120));
    r.push(evaluator_entry("eslint", "npx eslint . --format stylish", 60));
    r.push(evaluator_entry("tsc", "npx tsc --noEmit", 60));
    r
}

/// The database path: the one the environment gives, else the configured one.
pub fn choose_db_path(from_environment: Option<String>, configured: &String) -> (r: String)
    ensures
        r@ == match from_environment {
            Some(p) => p@,
            None => configured@,
        },
{
    match from_environment {
        Some(p) => p,
        None => configured.clone(),
    }
}

/// `base` joined with the relative path `rest`, as a Unix path: with a `/`
/// between them unless `base` is empty or already ends with one.
pub open spec fn path_join(base: Seq<char>, rest: Seq<char>) -> Seq<char> {
    if base.len() == 0 {
        rest
    } else if base.last() == '/' {
        base + rest
    } else {
        base + "/"@ + rest
    }
}

fn join_path(base: &str, rest: &str) -> (r: String)
    ensures
        r@ == path_join(base@, rest@),
{
    let chars = crate::text::chars_of(base);
    let mut r = String::from_str(base);
    if chars.len() == 0 {
        return String::from_str(rest);
    }
    if chars[chars.len() - 1] != '/' {
        r.append("/");
    }
    r.append(rest);
    r
}

/// The places where settings are looked for, in order: the file that the
/// environment names if it names one; else `reflect.toml` in the working
/// directory, then `.config/reflect/reflect.toml` under the home directory
/// (the working directory when there is no home).
pub open spec fn config_paths(named: Option<Seq<char>>, home: Option<Seq<char>>) -> Seq<Seq<char>> {
    match named {
        Some(p) => seq![p],
        None => seq![
            "reflect.toml"@,
            path_join(
                match home {
                    Some(h) => h,
                    None => "."@,
                },
                ".config/reflect/reflect.toml"@,
            ),
        ],
    }
}

pub fn config_search_paths(named: Option<String>, home: Option<String>) -> (r: Vec<String>)
    ensures
        r@.map_values(|p: String| p@) == config_paths(
            crate::types::opt_chars(named),
            crate::types::opt_chars(home),
        ),
{
    let mut r: Vec<String> = Vec::new();
    match named {
        Some(p) => {
            r.push(p);
        },
        None => {
            r.push(String::from_str("reflect.toml"));
            let joined = match home {
                Some(h) => join_path(h.as_str(), ".config/reflect/reflect.toml"),
                None => join_path(".", ".config/reflect/reflect.toml"),
            };
            r.push(joined);
        },
    }
    assert(r@.map_values(|p: String| p@) =~= config_paths(
        crate::types::opt_chars(named),
        crate::types::opt_chars(home),
    ));
    r
}

/// The command and time limit for running the evaluator `name`: its
/// settings if it has any, else its name as the command and the default
/// time limit.
pub fn run_settings(configured: Option<&EvalConfig>, name: &String) -> (r: (String, u64))
    ensures
        match configured {
            Some(c) => r.0@ == c.command@ && r.1 == c.timeout_secs,
            None => r.0@ == name@ && r.1 == 60,
        },
{
    match configured {
        Some(c) => (c.command.clone(), c.timeout_secs),
        None => (name.clone(), default_timeout()),
    }
}

} // verus!
