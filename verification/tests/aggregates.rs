use reflect::stats::{
    search_pool_size, select_frequent_patterns, select_search_results, tally_outcomes, top_tags,
    OutcomeTally,
};
use reflect::tools::Outcome;

fn strings(v: &[&str]) -> Vec<String> {
    v.iter().map(|s| s.to_string()).collect()
}

#[test]
fn tallies_outcomes() {
    let t = tally_outcomes(&vec![
        Outcome::Failure,
        Outcome::Success,
        Outcome::Failure,
        Outcome::Partial,
    ]);
    assert_eq!(t, OutcomeTally { success: 1, failure: 2, partial: 1 });
    assert_eq!(tally_outcomes(&vec![]), OutcomeTally { success: 0, failure: 0, partial: 0 });
}

#[test]
fn top_tags_most_used_first() {
    let tags = strings(&["rust", "error-handling", "rust", "python", "rust", "python"]);
    let top = top_tags(&tags, 10);
    let got: Vec<(String, u64)> = top.into_iter().map(|t| (t.tag, t.count)).collect();
    assert_eq!(
        got,
        vec![
            ("rust".to_string(), 3),
            ("python".to_string(), 2),
            ("error-handling".to_string(), 1)
        ]
    );
}

#[test]
fn top_tags_truncates() {
    let tags = strings(&["a", "b", "b", "c", "c", "c"]);
    let top = top_tags(&tags, 2);
    assert_eq!(top.len(), 2);
    assert_eq!(top[0].tag, "c");
    assert_eq!(top[0].count, 3);
    assert_eq!(top[1].tag, "b");
    assert_eq!(top[1].count, 2);
    assert!(top_tags(&tags, 0).is_empty());
    assert!(top_tags(&Vec::new(), 5).is_empty());
}

#[test]
fn search_results_by_any_tag() {
    let entries = vec![
        Some(strings(&["rust"])),
        None,
        Some(strings(&["python"])),
        Some(strings(&["go", "rust"])),
        Some(strings(&["rust"])),
    ];
    let wanted = strings(&["rust", "c"]);
    assert_eq!(select_search_results(&entries, &wanted, 10), vec![0, 3, 4]);
    assert_eq!(select_search_results(&entries, &wanted, 2), vec![0, 3]);
    assert_eq!(select_search_results(&entries, &Vec::new(), 10), vec![0, 2, 3, 4]);
    // A limit of zero still lets the first kept entry through.
    assert_eq!(select_search_results(&entries, &wanted, 0), vec![0]);
}

#[test]
fn frequent_patterns_and_pool() {
    assert_eq!(select_frequent_patterns(&vec![1, 5, 2, 7, 9], 2, 2), vec![1, 2]);
    assert_eq!(select_frequent_patterns(&vec![1, 1], 2, 5), Vec::<usize>::new());
    assert_eq!(search_pool_size(4, false), 4);
    assert_eq!(search_pool_size(4, true), 20);
}
