use iforgor::filter::ListEntry;
use iforgor::session::{
    legend_entries, KeyInput, ListSearch, ListSearchExtra, ListSearchRunner,
};

fn entry(key: &str, name: &str) -> ListEntry {
    ListEntry { key: key.to_string(), name: name.to_string() }
}

fn config(items: Vec<ListEntry>, multi: bool, dflt: Option<Vec<ListEntry>>) -> ListSearch {
    ListSearch {
        extra: ListSearchExtra {
            title: " test ".to_string(),
            text: "help".to_string(),
            multi_select: multi,
            empty_search_list: dflt,
        },
        items,
    }
}

fn abc() -> Vec<ListEntry> {
    vec![entry("a", "Alpha"), entry("b", "Beta"), entry("c", "Gamma")]
}

fn displayed_names(r: &ListSearchRunner) -> Vec<String> {
    let mut v = Vec::new();
    for j in 0..r.displayed_len() {
        v.push(r.row_entry(j).name.clone());
    }
    v
}

fn type_text(r: &mut ListSearchRunner, text: &str) {
    for c in text.chars() {
        r.handle_key_event(KeyInput::Char(c));
    }
}

#[test]
fn scenario_initial_list_sorted_cursor_on_first() {
    let r = ListSearchRunner::new(config(abc(), false, None));
    assert_eq!(displayed_names(&r), vec!["Alpha", "Beta", "Gamma"]);
    assert_eq!(r.cursor, 0);
    assert!(!r.exit);
    assert_eq!(r.selection_len(), 0);
}

#[test]
fn scenario_comma_search_narrows_to_gamma() {
    let mut r = ListSearchRunner::new(config(abc(), false, None));
    type_text(&mut r, "a,m");
    assert_eq!(displayed_names(&r), vec!["Gamma"]);
    assert_eq!(r.cursor, 0);
}

#[test]
fn scenario_toggle_all_twice_restores_empty_selection() {
    let items = vec![entry("a", "Alpha"), entry("b", "Beta")];
    let mut r = ListSearchRunner::new(config(items, true, None));
    r.handle_key_event(KeyInput::ToggleAll);
    assert!(r.selected.contains(&"a".to_string()));
    assert!(r.selected.contains(&"b".to_string()));
    assert_eq!(r.selection_len(), 2);
    r.handle_key_event(KeyInput::ToggleAll);
    assert_eq!(r.selection_len(), 0);
}

#[test]
fn scenario_confirm_selects_highlighted_in_single_select() {
    let mut r = ListSearchRunner::new(config(abc(), false, None));
    r.handle_key_event(KeyInput::Down);
    assert_eq!(r.row_entry(r.cursor).name, "Beta");
    r.handle_key_event(KeyInput::Confirm);
    assert!(r.exit);
    let keys = r.into_selection();
    assert_eq!(keys, vec!["b".to_string()]);
}

#[test]
fn scenario_cancel_clears_selection_and_exits() {
    let mut r = ListSearchRunner::new(config(abc(), true, None));
    r.handle_key_event(KeyInput::ToggleOne);
    assert_eq!(r.selection_len(), 1);
    r.handle_key_event(KeyInput::Cancel);
    assert!(r.exit);
    assert_eq!(r.selection_len(), 0);
}

#[test]
fn selection_survives_filtering_out_and_back() {
    let mut r = ListSearchRunner::new(config(abc(), true, None));
    r.handle_key_event(KeyInput::ToggleOne); // selects Alpha
    assert!(r.selected.contains(&"a".to_string()));
    type_text(&mut r, "gam");
    assert_eq!(displayed_names(&r), vec!["Gamma"]);
    assert!(r.selected.contains(&"a".to_string()));
    r.handle_key_event(KeyInput::Backspace);
    r.handle_key_event(KeyInput::Backspace);
    r.handle_key_event(KeyInput::Backspace);
    assert_eq!(displayed_names(&r), vec!["Alpha", "Beta", "Gamma"]);
    assert!(r.selected.contains(&"a".to_string()));
    assert_eq!(r.row_label(0), "[X] Alpha");
    assert_eq!(r.row_label(1), "[ ] Beta");
}

#[test]
fn cursor_saturates_at_both_ends() {
    let mut r = ListSearchRunner::new(config(abc(), false, None));
    r.handle_key_event(KeyInput::Up);
    assert_eq!(r.cursor, 0);
    r.handle_key_event(KeyInput::Down);
    r.handle_key_event(KeyInput::Down);
    assert_eq!(r.cursor, 2);
    r.handle_key_event(KeyInput::Down);
    assert_eq!(r.cursor, 2);
}

#[test]
fn cursor_noop_on_empty_list() {
    let mut r = ListSearchRunner::new(config(abc(), false, None));
    type_text(&mut r, "zzz");
    assert_eq!(r.displayed_len(), 0);
    r.handle_key_event(KeyInput::Up);
    assert_eq!(r.cursor, 0);
    r.handle_key_event(KeyInput::Down);
    assert_eq!(r.cursor, 0);
}

#[test]
fn confirm_on_empty_list_selects_nothing() {
    let mut r = ListSearchRunner::new(config(abc(), false, None));
    type_text(&mut r, "zzz");
    r.handle_key_event(KeyInput::Confirm);
    assert!(r.exit);
    assert_eq!(r.selection_len(), 0);
}

#[test]
fn confirm_in_multi_select_keeps_prior_toggles() {
    let mut r = ListSearchRunner::new(config(abc(), true, None));
    r.handle_key_event(KeyInput::ToggleOne);
    r.handle_key_event(KeyInput::Down);
    r.handle_key_event(KeyInput::ToggleOne);
    r.handle_key_event(KeyInput::Confirm);
    assert!(r.exit);
    let keys = r.into_selection();
    assert_eq!(keys, vec!["a".to_string(), "b".to_string()]);
}

#[test]
fn toggle_one_removes_when_already_selected() {
    let mut r = ListSearchRunner::new(config(abc(), true, None));
    r.handle_key_event(KeyInput::ToggleOne);
    assert_eq!(r.selection_len(), 1);
    r.handle_key_event(KeyInput::ToggleOne);
    assert_eq!(r.selection_len(), 0);
}

#[test]
fn toggles_are_ignored_in_single_select() {
    let mut r = ListSearchRunner::new(config(abc(), false, None));
    r.handle_key_event(KeyInput::ToggleOne);
    r.handle_key_event(KeyInput::ToggleAll);
    assert_eq!(r.selection_len(), 0);
}

#[test]
fn unrecognised_input_changes_nothing() {
    let mut r = ListSearchRunner::new(config(abc(), true, None));
    r.handle_key_event(KeyInput::ToggleOne);
    r.handle_key_event(KeyInput::Other);
    assert_eq!(r.cursor, 0);
    assert!(!r.exit);
    assert_eq!(r.selection_len(), 1);
    assert_eq!(displayed_names(&r), vec!["Alpha", "Beta", "Gamma"]);
}

#[test]
fn default_list_shown_verbatim_while_search_empty() {
    let dflt = vec![entry("c", "Gamma"), entry("a", "Alpha")];
    let mut r = ListSearchRunner::new(config(abc(), false, Some(dflt)));
    // caller order is kept: no sorting of the default list
    assert_eq!(displayed_names(&r), vec!["Gamma", "Alpha"]);
    type_text(&mut r, "a");
    assert_eq!(displayed_names(&r), vec!["Alpha", "Beta", "Gamma"]);
    r.handle_key_event(KeyInput::Backspace);
    assert_eq!(displayed_names(&r), vec!["Gamma", "Alpha"]);
}

#[test]
fn backspace_on_empty_search_is_a_noop() {
    let mut r = ListSearchRunner::new(config(abc(), false, None));
    r.handle_key_event(KeyInput::Backspace);
    assert_eq!(displayed_names(&r), vec!["Alpha", "Beta", "Gamma"]);
    assert_eq!(r.search_display(), " ");
}

#[test]
fn search_display_shows_placeholder_then_text() {
    let mut r = ListSearchRunner::new(config(abc(), false, None));
    assert_eq!(r.search_display(), " ");
    type_text(&mut r, "Al");
    assert_eq!(r.search_display(), "Al");
}

#[test]
fn recomputing_displayed_list_is_idempotent() {
    let mut r = ListSearchRunner::new(config(abc(), false, None));
    type_text(&mut r, "a");
    let before = displayed_names(&r);
    r.update_displayed_list();
    r.update_displayed_list();
    assert_eq!(displayed_names(&r), before);
}

#[test]
fn legend_lists_toggles_only_in_multi_select() {
    let single = legend_entries(false);
    assert_eq!(single.len(), 3);
    assert_eq!(single[0], ("Change Line".to_string(), "Up/Down".to_string()));
    assert_eq!(single[1], ("Confirm".to_string(), "Enter".to_string()));
    assert_eq!(single[2], ("Quit".to_string(), "Esc".to_string()));
    let multi = legend_entries(true);
    assert_eq!(multi.len(), 5);
    assert_eq!(multi[1], ("Toogle select".to_string(), "Right".to_string()));
    assert_eq!(multi[2], ("Toogle all".to_string(), "Left".to_string()));
}
