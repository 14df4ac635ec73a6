//! A reverse search from its beginning to its end.

use ratatui::style::{Color, Modifier, Style};
use ratatui::text::{Line, Span};
use reverse_search::entries::{HistoryEntry, ReverseSearchEntry};
use reverse_search::state::{search_entries, ActiveReverseSearch, ReverseSearchState, SearchMatch};
use reverse_search::thread_id::ThreadId;

fn thread_one() -> ThreadId {
    ThreadId::from_string("00000000-0000-0000-0000-000000000001").expect("thread id")
}

fn entries(thread_id: ThreadId, texts: &[&str]) -> Vec<ReverseSearchEntry> {
    texts
        .iter()
        .map(|text| ReverseSearchEntry {
            thread_id,
            text: text.to_string(),
        })
        .collect()
}

fn begun(request_id: u64, draft: &str) -> ReverseSearchState {
    let mut state = ReverseSearchState::default();
    state.begin(
        thread_one(),
        request_id,
        HistoryEntry::new(draft.to_string()),
    );
    state
}

fn loaded(draft: &str, texts: &[&str]) -> ReverseSearchState {
    let mut state = begun(1, draft);
    assert!(state.install_entries(thread_one(), 1, Ok(entries(thread_one(), texts))));
    state
}

fn shown(state: &ReverseSearchState) -> String {
    state.display_entry().expect("display entry").text
}

fn footer_text(line: &Line<'static>) -> String {
    line.spans
        .iter()
        .map(|span| span.content.as_ref())
        .collect::<String>()
}

#[test]
fn cycles_matches_and_accepts_current_result() {
    let thread_id =
        ThreadId::from_string("00000000-0000-0000-0000-000000000001").expect("thread id");
    let mut state = ReverseSearchState::default();
    state.begin(
        thread_id,
        /*request_id*/ 7,
        HistoryEntry::new("draft".to_string()),
    );
    assert!(state.install_entries(
        thread_id,
        /*request_id*/ 7,
        Ok(vec![
            ReverseSearchEntry {
                thread_id,
                text: "alpha".to_string(),
            },
            ReverseSearchEntry {
                thread_id,
                text: "beta".to_string(),
            },
            ReverseSearchEntry {
                thread_id,
                text: "gamma".to_string(),
            },
        ]),
    ));
    assert_eq!(
        state.display_entry().expect("display entry"),
        HistoryEntry::new("draft".to_string())
    );
    state.append_query_char('a');
    assert_eq!(
        state.display_entry().expect("display entry"),
        HistoryEntry::new("alpha".to_string())
    );
    assert_eq!(state.current_match_range(), Some(0..1));

    state.cycle_backwards();
    assert_eq!(
        state.accept().expect("accepted entry"),
        HistoryEntry::new("beta".to_string())
    );
}

#[test]
fn invalid_regex_is_failing_and_cancel_restores_original_draft() {
    let thread_id =
        ThreadId::from_string("00000000-0000-0000-0000-000000000001").expect("thread id");
    let original = HistoryEntry::new("draft".to_string());
    let mut state = ReverseSearchState::default();
    state.begin(thread_id, /*request_id*/ 2, original.clone());
    state.install_entries(
        thread_id,
        /*request_id*/ 2,
        Ok(vec![ReverseSearchEntry {
            thread_id,
            text: "hello".to_string(),
        }]),
    );

    state.append_query_char('[');

    let footer = state.footer_line().expect("footer");
    let footer_text = footer
        .spans
        .iter()
        .map(|span| span.content.as_ref())
        .collect::<String>();
    assert!(footer_text.contains("failing bck-i-search"));
    assert_eq!(state.cancel(), Some(original));
}

#[test]
fn empty_query_is_not_failing_and_keeps_original_draft_visible() {
    let thread_id =
        ThreadId::from_string("00000000-0000-0000-0000-000000000001").expect("thread id");
    let original = HistoryEntry::new(String::new());
    let mut state = ReverseSearchState::default();
    state.begin(thread_id, /*request_id*/ 3, original.clone());
    assert!(state.install_entries(
        thread_id,
        /*request_id*/ 3,
        Ok(vec![ReverseSearchEntry {
            thread_id,
            text: "latest history entry".to_string(),
        }]),
    ));

    let footer = state.footer_line().expect("footer");
    let footer_text = footer
        .spans
        .iter()
        .map(|span| span.content.as_ref())
        .collect::<String>();
    assert_eq!(footer_text, "bck-i-search: _");
    assert_eq!(state.display_entry(), Some(original));
    assert_eq!(state.current_match_range(), None);
}

#[test]
fn queued_cycle_is_applied_after_entries_finish_loading() {
    let thread_id =
        ThreadId::from_string("00000000-0000-0000-0000-000000000001").expect("thread id");
    let mut state = ReverseSearchState::default();
    state.begin(
        thread_id,
        /*request_id*/ 9,
        HistoryEntry::new("draft".to_string()),
    );
    state.append_query_char('a');
    state.cycle_backwards();

    assert!(state.install_entries(
        thread_id,
        /*request_id*/ 9,
        Ok(vec![
            ReverseSearchEntry {
                thread_id,
                text: "alpha".to_string(),
            },
            ReverseSearchEntry {
                thread_id,
                text: "beta".to_string(),
            },
            ReverseSearchEntry {
                thread_id,
                text: "gamma".to_string(),
            },
        ]),
    ));

    assert_eq!(
        state.display_entry().expect("display entry"),
        HistoryEntry::new("beta".to_string())
    );
}

#[test]
fn without_a_search_there_is_nothing_to_show_or_end() {
    let mut state = ReverseSearchState::default();
    assert!(!state.is_active());
    assert_eq!(state.original_draft(), None);
    assert_eq!(state.display_entry(), None);
    assert_eq!(state.current_match_range(), None);
    assert_eq!(state.footer_line(), None);
    assert!(!state.install_entries(thread_one(), 1, Ok(Vec::new())));
    state.append_query_char('a');
    state.append_query_str("bc");
    state.pop_query_char();
    state.cycle_backwards();
    assert!(!state.is_active());
    assert_eq!(state.accept(), None);
    assert_eq!(state.cancel(), None);
}

#[test]
fn beginning_makes_a_search_active_and_ending_it_does_not() {
    let mut state = begun(1, "draft");
    assert!(state.is_active());
    assert_eq!(
        state.original_draft(),
        Some(&HistoryEntry::new("draft".to_string()))
    );
    assert_eq!(
        state.cancel(),
        Some(HistoryEntry::new("draft".to_string()))
    );
    assert!(!state.is_active());

    let mut state = begun(1, "draft");
    assert_eq!(
        state.accept(),
        Some(HistoryEntry::new("draft".to_string()))
    );
    assert!(!state.is_active());
}

#[test]
fn entries_of_another_request_are_not_installed() {
    let other = ThreadId::from_string("00000000-0000-0000-0000-000000000002").expect("thread id");
    let mut state = begun(5, "draft");
    state.append_query_char('a');
    assert!(!state.install_entries(thread_one(), 4, Ok(entries(thread_one(), &["alpha"]))));
    assert!(!state.install_entries(other, 5, Ok(entries(other, &["alpha"]))));
    assert_eq!(shown(&state), "draft");
    assert_eq!(
        footer_text(&state.footer_line().expect("footer")),
        "bck-i-search: a_ (loading...)"
    );
    assert!(state.install_entries(thread_one(), 5, Ok(entries(thread_one(), &["alpha"]))));
    assert_eq!(shown(&state), "alpha");
}

#[test]
fn failed_load_is_failing_even_without_a_query() {
    let mut state = begun(1, "draft");
    assert!(state.install_entries(thread_one(), 1, Err("no such directory".to_string())));
    assert_eq!(
        footer_text(&state.footer_line().expect("footer")),
        "failing bck-i-search: _"
    );
    assert_eq!(shown(&state), "draft");
    assert!(state.install_entries(thread_one(), 1, Ok(entries(thread_one(), &["alpha"]))));
    assert_eq!(
        footer_text(&state.footer_line().expect("footer")),
        "bck-i-search: _"
    );
}

#[test]
fn query_without_a_match_is_failing_and_shows_the_draft() {
    let mut state = loaded("draft", &["alpha", "beta"]);
    state.append_query_str("delta");
    assert_eq!(
        footer_text(&state.footer_line().expect("footer")),
        "failing bck-i-search: delta_"
    );
    assert_eq!(shown(&state), "draft");
    assert_eq!(state.current_match_range(), None);
    assert_eq!(
        state.accept(),
        Some(HistoryEntry::new("draft".to_string()))
    );
}

#[test]
fn query_is_a_regular_expression() {
    let mut state = loaded("draft", &["first line", "line 42 of 99", "none"]);
    state.append_query_str("[0-9]+");
    assert_eq!(shown(&state), "line 42 of 99");
    assert_eq!(state.current_match_range(), Some(5..7));
}

#[test]
fn ranges_count_bytes() {
    let mut state = loaded("draft", &["\u{e9}t\u{e9} ici"]);
    state.append_query_str("ici");
    assert_eq!(state.current_match_range(), Some(6..9));
}

#[test]
fn full_round_comes_back_to_the_same_match() {
    let mut state = loaded("draft", &["alpha", "zzz", "beta", "gamma"]);
    state.append_query_char('a');
    let mut seen = Vec::new();
    for _ in 0..4 {
        seen.push(shown(&state));
        state.cycle_backwards();
    }
    assert_eq!(seen, vec!["alpha", "beta", "gamma", "alpha"]);
}

#[test]
fn queued_cycles_count_round() {
    let mut state = begun(1, "draft");
    state.append_query_char('a');
    for _ in 0..5 {
        state.cycle_backwards();
    }
    assert!(state.install_entries(
        thread_one(),
        1,
        Ok(entries(thread_one(), &["alpha", "beta", "gamma"]))
    ));
    assert_eq!(shown(&state), "gamma");

    let mut later = loaded("draft", &["alpha", "beta", "gamma"]);
    later.append_query_char('a');
    for _ in 0..5 {
        later.cycle_backwards();
    }
    assert_eq!(shown(&later), "gamma");
}

#[test]
fn queued_cycles_wait_for_a_query() {
    let mut state = begun(1, "draft");
    state.cycle_backwards();
    assert!(state.install_entries(
        thread_one(),
        1,
        Ok(entries(thread_one(), &["alpha", "beta"]))
    ));
    assert_eq!(shown(&state), "draft");
    state.append_query_char('a');
    assert_eq!(shown(&state), "beta");
    state.append_query_char('$');
    assert_eq!(shown(&state), "alpha");
}

#[test]
fn erasing_undoes_typing() {
    let mut state = loaded("draft", &["alpha", "beta", "gamma"]);
    state.append_query_char('m');
    assert_eq!(shown(&state), "gamma");
    assert_eq!(state.current_match_range(), Some(2..3));
    state.append_query_char('x');
    assert_eq!(shown(&state), "draft");
    state.pop_query_char();
    assert_eq!(shown(&state), "gamma");
    assert_eq!(state.current_match_range(), Some(2..3));
    state.pop_query_char();
    assert_eq!(shown(&state), "draft");
    state.pop_query_char();
    assert_eq!(
        footer_text(&state.footer_line().expect("footer")),
        "bck-i-search: _"
    );
}

#[test]
fn string_is_appended_like_its_characters() {
    let texts = ["alpha", "gamma", "beta"];
    let mut at_once = loaded("draft", &texts);
    at_once.append_query_str("mm");
    let mut one_by_one = loaded("draft", &texts);
    one_by_one.append_query_char('m');
    one_by_one.append_query_char('m');
    assert_eq!(at_once.display_entry(), one_by_one.display_entry());
    assert_eq!(at_once.current_match_range(), Some(2..4));
    assert_eq!(one_by_one.current_match_range(), Some(2..4));
}

#[test]
fn erasing_undoes_typing_with_queued_cycles() {
    let mut state = begun(1, "draft");
    state.cycle_backwards();
    assert!(state.install_entries(
        thread_one(),
        1,
        Ok(entries(thread_one(), &["alpha", "beta"]))
    ));
    let footer = state.footer_line();

    state.append_query_char('[');
    assert_eq!(
        footer_text(&state.footer_line().expect("footer")),
        "failing bck-i-search: [_"
    );
    state.pop_query_char();
    assert_eq!(state.footer_line(), footer);
    assert_eq!(shown(&state), "draft");

    state.append_query_char('a');
    assert_eq!(shown(&state), "beta");
    state.pop_query_char();
    assert_eq!(state.footer_line(), footer);
    assert_eq!(shown(&state), "draft");
    state.append_query_char('a');
    assert_eq!(shown(&state), "alpha");
}

#[test]
fn queued_cycles_wait_for_a_query_that_is_a_regular_expression() {
    let mut state = begun(1, "draft");
    state.append_query_char('[');
    state.cycle_backwards();
    assert!(state.install_entries(
        thread_one(),
        1,
        Ok(entries(thread_one(), &["alpha", "beta"]))
    ));
    assert_eq!(shown(&state), "draft");
    state.append_query_str("ab]");
    assert_eq!(shown(&state), "beta");
    assert_eq!(state.current_match_range(), Some(0..1));
}

#[test]
fn string_is_appended_like_its_characters_but_for_queued_cycles() {
    let queued = || {
        let mut state = begun(1, "draft");
        state.cycle_backwards();
        assert!(state.install_entries(
            thread_one(),
            1,
            Ok(entries(thread_one(), &["aa", "ab"]))
        ));
        state
    };
    let mut at_once = queued();
    at_once.append_query_str("a.");
    let mut one_by_one = queued();
    one_by_one.append_query_char('a');
    one_by_one.append_query_char('.');
    assert_eq!(at_once.footer_line(), one_by_one.footer_line());
    assert_eq!(shown(&at_once), "ab");
    assert_eq!(shown(&one_by_one), "aa");
    one_by_one.cycle_backwards();
    assert_eq!(at_once.display_entry(), one_by_one.display_entry());
}

#[test]
fn footer_is_styled() {
    let mut state = begun(1, "draft");
    state.append_query_char('[');
    let dim = Style::default().add_modifier(Modifier::DIM);
    let label = Style::default()
        .fg(Color::Cyan)
        .add_modifier(Modifier::BOLD);
    assert_eq!(
        state.footer_line().expect("footer"),
        Line::from(vec![
            Span::styled("bck-i-search", label),
            Span::raw(": "),
            Span::raw("["),
            Span::styled("_", dim),
            Span::styled(" (loading...)", dim),
        ])
    );
    assert!(state.install_entries(thread_one(), 1, Ok(Vec::new())));
    assert_eq!(
        state.footer_line().expect("footer"),
        Line::from(vec![
            Span::styled("failing ", Style::default().fg(Color::Red)),
            Span::styled("bck-i-search", label),
            Span::raw(": "),
            Span::raw("["),
            Span::styled("_", dim),
        ])
    );
}

#[test]
fn search_gives_the_first_match_of_each_entry() {
    let found = search_entries("a", &entries(thread_one(), &["banana", "xyz", "alpha"]));
    assert_eq!(found, Ok(vec![Some((1, 2)), None, Some((0, 1))]));
}

#[test]
fn search_says_why_a_query_is_no_regular_expression() {
    let expected = regex_lite::Regex::new("[").expect_err("no expression").to_string();
    assert_eq!(
        search_entries("[", &entries(thread_one(), &["alpha"])),
        Err(expected)
    );
}

#[test]
fn search_outcome_is_taken_in() {
    let mut active = ActiveReverseSearch {
        thread_id: thread_one(),
        request_id: 1,
        original_draft: HistoryEntry::new("draft".to_string()),
        query: "a".to_string(),
        entries: Some(entries(thread_one(), &["xyz", "banana", "alpha"])),
        filtered_matches: Vec::new(),
        selected_match: 0,
        pending_cycle_backwards: 3,
        load_error: None,
        regex_error: Some("old".to_string()),
    };
    active.apply_search(Ok(vec![None, Some((1, 2)), Some((0, 1))]));
    assert_eq!(
        active.filtered_matches,
        vec![
            SearchMatch {
                entry_index: 1,
                range: 1..2
            },
            SearchMatch {
                entry_index: 2,
                range: 0..1
            },
        ]
    );
    assert_eq!(active.selected_match, 1);
    assert_eq!(active.pending_cycle_backwards, 0);
    assert_eq!(active.regex_error, None);

    active.apply_search(Err("bad".to_string()));
    assert!(active.filtered_matches.is_empty());
    assert_eq!(active.selected_match, 0);
    assert_eq!(active.regex_error, Some("bad".to_string()));
}
