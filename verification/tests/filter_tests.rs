use iforgor::filter::{filter_entries, search_filter, split_search_terms, ListEntry};

fn entry(key: &str, name: &str) -> ListEntry {
    ListEntry { key: key.to_string(), name: name.to_string() }
}

fn abc_items() -> Vec<ListEntry> {
    vec![entry("a", "Alpha"), entry("b", "Beta"), entry("c", "Gamma")]
}

fn names_of(items: &[ListEntry], idxs: &[usize]) -> Vec<String> {
    idxs.iter().map(|&i| items[i].name.clone()).collect()
}

#[test]
fn empty_search_matches_all_sorted() {
    let items = abc_items();
    let r = filter_entries(&items, "");
    assert_eq!(names_of(&items, &r), vec!["Alpha", "Beta", "Gamma"]);
}

#[test]
fn every_result_contains_every_term() {
    let items = vec![
        entry("1", "build the app"),
        entry("2", "Build docs"),
        entry("3", "deploy"),
    ];
    let terms = split_search_terms("bu");
    let r = filter_entries(&items, "bu");
    assert_eq!(r.len(), 2);
    for &i in &r {
        assert!(search_filter(items[i].name.as_str(), &terms));
    }
    assert!(!search_filter("deploy", &terms));
}

#[test]
fn result_sorted_ascending_and_stable() {
    let items = vec![
        entry("x", "Zeta"),
        entry("y", "Alpha"),
        entry("z", "Alpha"),
        entry("w", "Mid"),
    ];
    let r = filter_entries(&items, "");
    assert_eq!(names_of(&items, &r), vec!["Alpha", "Alpha", "Mid", "Zeta"]);
    // equal names keep their original relative order
    assert_eq!(r[0], 1);
    assert_eq!(r[1], 2);
}

#[test]
fn comma_terms_are_anded() {
    // Scenario: "a,m" matches only names containing both "a" and "m"
    let items = abc_items();
    let r = filter_entries(&items, "a,m");
    assert_eq!(names_of(&items, &r), vec!["Gamma"]);
}

#[test]
fn terms_are_trimmed_and_lowercased() {
    let terms = split_search_terms("  AlPhA , B ");
    assert_eq!(terms, vec!["alpha".to_string(), "b".to_string()]);
}

#[test]
fn empty_search_yields_one_empty_term() {
    let terms = split_search_terms("");
    assert_eq!(terms, vec![String::new()]);
}

#[test]
fn matching_is_case_insensitive_both_ways() {
    // the name is lowercased before matching
    let terms = split_search_terms("alpha");
    assert!(search_filter("ALPHA", &terms));
    // the search text is lowercased before splitting
    let terms = split_search_terms("ALPHA");
    assert!(search_filter("alpha", &terms));
}

#[test]
fn empty_term_matches_everything() {
    let terms = split_search_terms(",");
    assert_eq!(terms.len(), 2);
    assert!(search_filter("anything", &terms));
}

#[test]
fn no_match_gives_empty_result() {
    let items = abc_items();
    let r = filter_entries(&items, "zzz");
    assert!(r.is_empty());
}

#[test]
fn recomputing_gives_identical_sequence() {
    let items = abc_items();
    let r1 = filter_entries(&items, "a");
    let r2 = filter_entries(&items, "a");
    assert_eq!(r1, r2);
}
