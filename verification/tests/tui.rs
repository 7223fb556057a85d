use bookmark_launcher::launcher::{App, Entry, SearchMode};
use bookmark_launcher::tui::{
    clamp_selection, handle_key, highlight_runs, url_like_query, window_enter_effect, Effect, Key, KeyPress, UiState,
};

fn bookmark(title: &str) -> Entry {
    Entry::Bookmark { title: title.to_string(), url: "https://example.com".to_string(), access_count: 0 }
}

fn plain(key: Key) -> KeyPress {
    KeyPress { key, control: false }
}

fn ctrl(c: char) -> KeyPress {
    KeyPress { key: Key::Char(c), control: true }
}

#[test]
fn typing_edits_the_query_and_resets_the_selection() {
    let mut app = App::new(vec![bookmark("a")], None);
    let mut ui = UiState { selected: 3, confirm_delete: None };
    assert_eq!(handle_key(&mut app, &mut ui, &vec![], plain(Key::Char('g'))), Effect::Continue);
    assert_eq!(handle_key(&mut app, &mut ui, &vec![], plain(Key::Char('h'))), Effect::Continue);
    assert_eq!(app.query(), "gh");
    assert_eq!(ui.selected, 0);
    ui.selected = 2;
    handle_key(&mut app, &mut ui, &vec![], plain(Key::Backspace));
    assert_eq!(app.query(), "g");
    assert_eq!(ui.selected, 0);
}

#[test]
fn control_keys_switch_modes_and_move() {
    let mut app = App::new(vec![], None);
    let mut ui = UiState { selected: 1, confirm_delete: None };
    let results = vec![(0, 0), (1, 0), (2, 0)];
    handle_key(&mut app, &mut ui, &results, ctrl('f'));
    assert_eq!(app.search_mode(), SearchMode::Fuzzy);
    handle_key(&mut app, &mut ui, &results, ctrl('t'));
    assert_eq!(app.search_mode(), SearchMode::Migemo);
    handle_key(&mut app, &mut ui, &results, ctrl('n'));
    handle_key(&mut app, &mut ui, &results, ctrl('n'));
    handle_key(&mut app, &mut ui, &results, ctrl('n'));
    assert_eq!(ui.selected, 2);
    handle_key(&mut app, &mut ui, &results, ctrl('p'));
    assert_eq!(ui.selected, 1);
    handle_key(&mut app, &mut ui, &results, plain(Key::Up));
    handle_key(&mut app, &mut ui, &results, plain(Key::Up));
    assert_eq!(ui.selected, 0);
    handle_key(&mut app, &mut ui, &results, plain(Key::Down));
    assert_eq!(ui.selected, 1);
    assert_eq!(app.sort_mode_label(), "Score");
    handle_key(&mut app, &mut ui, &results, ctrl('s'));
    assert_eq!(app.sort_mode_label(), "Count");
    assert_eq!(handle_key(&mut app, &mut ui, &results, ctrl('q')), Effect::Quit);
    assert_eq!(handle_key(&mut app, &mut ui, &results, plain(Key::Esc)), Effect::Quit);
}

#[test]
fn deleting_asks_for_confirmation() {
    let mut app = App::new(vec![bookmark("a"), bookmark("b")], None);
    let mut ui = UiState { selected: 1, confirm_delete: None };
    let results = vec![(0, 0), (1, 0)];
    assert_eq!(handle_key(&mut app, &mut ui, &results, ctrl('d')), Effect::Continue);
    assert_eq!(ui.confirm_delete, Some(1));
    assert_eq!(handle_key(&mut app, &mut ui, &results, plain(Key::Char('x'))), Effect::Continue);
    assert_eq!(ui.confirm_delete, Some(1));
    assert_eq!(handle_key(&mut app, &mut ui, &results, plain(Key::Char('n'))), Effect::Continue);
    assert_eq!(ui.confirm_delete, None);
    handle_key(&mut app, &mut ui, &results, ctrl('d'));
    assert_eq!(handle_key(&mut app, &mut ui, &results, plain(Key::Char('y'))), Effect::Delete(0));
}

#[test]
fn enter_launches_the_selection_or_bookmarks_a_url() {
    let mut app = App::new(vec![bookmark("a")], None);
    let mut ui = UiState { selected: 0, confirm_delete: None };
    assert_eq!(handle_key(&mut app, &mut ui, &vec![(0, 5)], plain(Key::Enter)), Effect::Launch(0));
    assert_eq!(handle_key(&mut app, &mut ui, &vec![], plain(Key::Enter)), Effect::Continue);
    for c in " example.org ".chars() {
        handle_key(&mut app, &mut ui, &vec![], plain(Key::Char(c)));
    }
    assert_eq!(
        handle_key(&mut app, &mut ui, &vec![], plain(Key::Enter)),
        Effect::AddUrl("example.org".to_string())
    );
    assert_eq!(handle_key(&mut app, &mut ui, &vec![(0, 1)], plain(Key::Enter)), Effect::Launch(0));
}

#[test]
fn url_like_queries() {
    assert_eq!(url_like_query(" https://x "), Some("https://x".to_string()));
    assert_eq!(url_like_query("http://localhost"), Some("http://localhost".to_string()));
    assert_eq!(url_like_query("a.b"), Some("a.b".to_string()));
    assert_eq!(url_like_query("plain words"), None);
    assert_eq!(url_like_query("   "), None);
}

#[test]
fn selection_is_clamped_to_the_results() {
    let mut ui = UiState { selected: 7, confirm_delete: None };
    clamp_selection(&mut ui, 3);
    assert_eq!(ui.selected, 2);
    clamp_selection(&mut ui, 0);
    assert_eq!(ui.selected, 2);
}

#[test]
fn highlight_runs_split_at_each_change() {
    let runs = highlight_runs("GitHub", &vec![0, 3]);
    let expected: Vec<(bool, String)> = vec![
        (true, "G".to_string()),
        (false, "it".to_string()),
        (true, "H".to_string()),
        (false, "ub".to_string()),
    ];
    assert_eq!(runs, expected);
    assert_eq!(highlight_runs("abc", &vec![]), vec![(false, "abc".to_string())]);
    assert_eq!(highlight_runs("管理", &vec![1, 0]), vec![(true, "管理".to_string())]);
    assert!(highlight_runs("", &vec![0]).is_empty());
}

#[test]
fn window_enter_bookmarks_urls_even_with_results() {
    assert_eq!(window_enter_effect(" rust-lang.org ", &vec![(3, 1)]), Effect::AddUrl("rust-lang.org".to_string()));
    assert_eq!(window_enter_effect("git", &vec![(3, 1), (0, 0)]), Effect::Launch(3));
    assert_eq!(window_enter_effect("git", &vec![]), Effect::Quit);
    assert_eq!(window_enter_effect("  ", &vec![(3, 1)]), Effect::Quit);
}
