use tachylyte::search_bar::{ResultSpan, SearchBar};

#[test]
fn finds_byte_spans_and_wraps_navigation() {
    let mut bar = SearchBar::new("héllo hello");
    bar.set_query("hello");
    assert_eq!(bar.results(), &[ResultSpan { span: 7..12 }]);
    assert_eq!(bar.next_result().unwrap().span, 7..12);
    assert_eq!(bar.next_result().unwrap().span, 7..12);
    assert_eq!(bar.next_result().unwrap().span, 7..12);
}

#[test]
fn plans_do_not_mutate_source_and_support_case() {
    let mut bar = SearchBar::new("One one ONE");
    bar.set_query("one");
    bar.set_replacement("two");
    assert_eq!(bar.results().len(), 1);
    bar.set_case_sensitive(false);
    assert_eq!(bar.results().len(), 3);
    bar.next_result();
    assert_eq!(bar.replace_current_plan().unwrap().replacement, "two");
    assert_eq!(bar.source(), "One one ONE");
    assert_eq!(bar.replace_all_plans().len(), 3);
}

#[test]
fn overlapping_matches_are_all_reported() {
    let mut bar = SearchBar::new("aaaa");
    bar.set_query("aa");
    let spans: Vec<_> = bar.results().iter().map(|r| r.span.clone()).collect();
    assert_eq!(spans, vec![0..2, 1..3, 2..4]);
}

#[test]
fn empty_query_has_no_results_and_navigation_clears() {
    let mut bar = SearchBar::new("abc");
    bar.set_query("");
    assert!(bar.results().is_empty());
    assert_eq!(bar.next_result(), None);
    assert_eq!(bar.previous_result(), None);
    assert_eq!(bar.active_result_index(), None);
}

#[test]
fn previous_wraps_to_last_and_next_returns() {
    let mut bar = SearchBar::new("x.x.x");
    bar.set_query("x");
    assert_eq!(bar.previous_result().unwrap().span, 4..5);
    assert_eq!(bar.active_result_index(), Some(2));
    assert_eq!(bar.next_result().unwrap().span, 0..1);
    assert_eq!(bar.previous_result().unwrap().span, 4..5);
}

#[test]
fn changing_source_or_case_clears_active() {
    let mut bar = SearchBar::new("ab ab");
    bar.set_query("ab");
    bar.next_result();
    assert_eq!(bar.active_result_index(), Some(0));
    bar.set_case_sensitive(true);
    assert_eq!(bar.active_result_index(), Some(0));
    bar.set_source("ab");
    assert_eq!(bar.active_result_index(), None);
    assert_eq!(bar.results().len(), 1);
}

#[test]
fn case_insensitive_matching_uses_unicode_lowercase() {
    let mut bar = SearchBar::new("ÉCOLE école");
    bar.set_case_sensitive(false);
    bar.set_query("école");
    let spans: Vec<_> = bar.results().iter().map(|r| r.span.clone()).collect();
    assert_eq!(spans, vec![0..6, 7..13]);
}
