use reflect::tools::{
    error_pattern_query, has_all_tags, next_occurrences, recall_limit, select_by_category,
    GetErrorPatternsInput,
};

fn strings(v: &[&str]) -> Vec<String> {
    v.iter().map(|s| s.to_string()).collect()
}

#[test]
fn recall_limit_defaults() {
    assert_eq!(recall_limit(Some(3), 5), 3);
    assert_eq!(recall_limit(None, 5), 5);
}

#[test]
fn pattern_query_defaults() {
    let q = error_pattern_query(&GetErrorPatternsInput { min_occurrences: None, category: None, limit: None });
    assert_eq!(q, (1, 20));
    let q = error_pattern_query(&GetErrorPatternsInput {
        min_occurrences: Some(4),
        category: Some("x".into()),
        limit: Some(2),
    });
    assert_eq!(q, (4, 2));
}

#[test]
fn category_filter() {
    let cats = strings(&["ownership", "bounds_check", "ownership"]);
    assert_eq!(select_by_category(&cats, &Some("ownership".into())), vec![0, 2]);
    assert_eq!(select_by_category(&cats, &Some("none".into())), Vec::<usize>::new());
    assert_eq!(select_by_category(&cats, &None), vec![0, 1, 2]);
}

#[test]
fn all_tags_required() {
    let have = strings(&["rust", "error-handling"]);
    assert!(has_all_tags(&have, &strings(&["rust"])));
    assert!(has_all_tags(&have, &strings(&["error-handling", "rust"])));
    assert!(has_all_tags(&have, &Vec::new()));
    assert!(!has_all_tags(&have, &strings(&["rust", "python"])));
}

#[test]
fn occurrences_count_up() {
    assert_eq!(next_occurrences(None), 1);
    assert_eq!(next_occurrences(Some(1)), 2);
    assert_eq!(next_occurrences(Some(41)), 42);
}
