use bookmark_launcher::dictionary::SkkDictionary;
use bookmark_launcher::launcher::{
    extract_title_from_url, page_title_from_html, trim, App, AppState, BookmarkFile, Entry, SearchMode, SortMode,
};

fn encode_euc_jp(text: &str) -> Vec<u8> {
    let (bytes, _, had_errors) = encoding_rs::EUC_JP.encode(text);
    assert!(!had_errors);
    bytes.into_owned()
}

fn dictionary() -> SkkDictionary {
    SkkDictionary::from_bytes(&encode_euc_jp(
        ";; okuri-nasi entries.\nげん /言/\nじん /人/\nじんじ /人事/\nかんり /管理/\n",
    ))
}

fn bookmark(title: &str) -> Entry {
    Entry::Bookmark {
        title: title.to_string(),
        url: "https://example.com".to_string(),
        access_count: 0,
    }
}

fn app_entry(title: &str, command: &str, args: &[&str], count: u32) -> Entry {
    Entry::App {
        title: title.to_string(),
        command: command.to_string(),
        args: args.iter().map(|a| a.to_string()).collect(),
        access_count: count,
    }
}

/// The combined search as the front end runs it: the library's candidates
/// and ranking, with the normalized 1:1:1 blend of the three signals.
fn combined_search(app: &App, query: &str) -> Vec<(usize, i64)> {
    if query.is_empty() {
        return app.all_by_access_count();
    }
    let candidates = app.combined_candidates(query);
    if candidates.is_empty() {
        return Vec::new();
    }
    let fuzzy_max = candidates.iter().filter_map(|c| c.fuzzy).map(|s| s.max(0)).max().unwrap_or(0).max(1) as f64;
    let migemo_max = candidates.iter().filter_map(|c| c.migemo).map(|s| s.max(0)).max().unwrap_or(0).max(1) as f64;
    let access_max = candidates.iter().map(|c| c.access_count).max().unwrap_or(0).max(1) as f64;
    let scored: Vec<(usize, i64)> = candidates
        .iter()
        .map(|c| {
            let f = c.fuzzy.map(|s| s.max(0) as f64 / fuzzy_max).unwrap_or(0.0);
            let m = c.migemo.map(|s| s.max(0) as f64 / migemo_max).unwrap_or(0.0);
            let a = c.access_count as f64 / access_max;
            (c.index, ((f + m + a) * 1_000_000.0).round() as i64)
        })
        .collect();
    app.rank_by_score_then_count(&scored)
}

fn search(app: &App, query: &str) -> Vec<(usize, i64)> {
    match app.search_mode() {
        SearchMode::Fuzzy => app.fuzzy_search(query),
        SearchMode::Migemo => app.migemo_search(query),
        SearchMode::Combined => combined_search(app, query),
    }
}

#[test]
fn empty_query_returns_no_positions() {
    let app = App::new(vec![bookmark("GitHub")], Some(dictionary()));
    assert!(app.match_char_positions("GitHub", "").is_empty());
}

#[test]
fn no_match_returns_empty_positions() {
    let app = App::new(vec![bookmark("GitHub")], Some(dictionary()));
    assert!(app.match_char_positions("GitHub", "xyz").is_empty());
}

#[test]
fn positions_agree_with_search() {
    let app = App::new(vec![bookmark("GitHub")], Some(dictionary()));
    let query = "gh";
    let search_found_match = !app.fuzzy_search(query).is_empty();
    let positions = app.match_char_positions("GitHub", query);
    assert_eq!(
        search_found_match,
        !positions.is_empty(),
        "match_char_positions and fuzzy_search should agree on whether a match exists"
    );
}

#[test]
fn all_returned_positions_within_title_length() {
    let app = App::new(vec![bookmark("GitHub")], Some(dictionary()));
    let positions = app.match_char_positions("GitHub", "gh");
    let title_len = "GitHub".chars().count();
    for &p in &positions {
        assert!(p < title_len, "position {} out of bounds (len={})", p, title_len);
    }
}

#[test]
fn migemo_mode_gen_hits_kanji_with_multi_mora_reading() {
    let mut app = App::new(vec![bookmark("言")], Some(dictionary()));
    assert!(app.is_migemo_ready(), "Migemo dictionary is not loaded");
    app.set_search_mode(SearchMode::Migemo);
    let results = search(&app, "gen");
    assert!(!results.is_empty(), "Expected 'gen' to hit '言' (reading げん), got: {:?}", results);
}

#[test]
fn migemo_mode_jin_hits_jinji_via_kanji_reading() {
    let mut app = App::new(vec![bookmark("人事")], Some(dictionary()));
    assert!(app.is_migemo_ready());
    app.set_search_mode(SearchMode::Migemo);
    let results = search(&app, "jin");
    assert!(!results.is_empty(), "Expected 'jin' to hit '人事' (reading じんじ), got: {:?}", results);
}

#[test]
fn combined_is_the_default_search_mode() {
    let app = App::new(vec![], None);
    assert_eq!(app.search_mode(), SearchMode::Combined);
}

#[test]
fn combined_mode_surfaces_migemo_only_hits() {
    let app = App::new(vec![bookmark("言")], Some(dictionary()));
    assert!(app.is_migemo_ready());
    assert_eq!(app.search_mode(), SearchMode::Combined);
    let results = search(&app, "gen");
    assert!(!results.is_empty(), "Expected combined mode to surface the migemo-only hit, got: {:?}", results);
}

#[test]
fn combined_mode_surfaces_fuzzy_only_hits() {
    let app = App::new(vec![bookmark("Foobar")], Some(dictionary()));
    assert!(app.migemo_search("Fbr").is_empty());
    assert!(!app.fuzzy_search("Fbr").is_empty());
    let results = search(&app, "Fbr");
    assert!(!results.is_empty(), "Expected combined mode to surface the fuzzy-only hit, got: {:?}", results);
}

#[test]
fn combined_mode_breaks_ties_by_access_count() {
    let mut low = bookmark("Test");
    let mut high = bookmark("Test");
    *low.access_count_mut() = 1;
    *high.access_count_mut() = 100;
    let app = App::new(vec![low, high], Some(dictionary()));
    let results = search(&app, "Test");
    assert_eq!(
        results.first().map(|(idx, _)| *idx),
        Some(1),
        "Expected the higher access_count entry (index 1) to rank first, got: {:?}",
        results
    );
}

#[test]
fn empty_query_lists_every_entry_by_access_count() {
    let mut a = bookmark("a");
    *a.access_count_mut() = 2;
    let mut c = bookmark("c");
    *c.access_count_mut() = 5;
    let app = App::new(vec![a, bookmark("b"), c], None);
    assert_eq!(app.fuzzy_search(""), vec![(2, 0), (0, 0), (1, 0)]);
    assert_eq!(app.migemo_search(""), vec![(2, 0), (0, 0), (1, 0)]);
}

#[test]
fn fuzzy_search_matches_secondary_text_and_sort_modes_order_hits() {
    let mut gh = bookmark("GitHub");
    *gh.access_count_mut() = 1;
    let mut other = Entry::Bookmark {
        title: "Code hosting".to_string(),
        url: "https://gitlab.com".to_string(),
        access_count: 50,
    };
    *other.access_count_mut() = 50;
    let mut app = App::new(vec![gh, other], None);
    let by_score = app.fuzzy_search("git");
    assert_eq!(by_score.len(), 2);
    app.toggle_sort_mode();
    assert_eq!(app.sort_mode_label(), "Count");
    let by_count = app.fuzzy_search("git");
    assert_eq!(by_count.iter().map(|r| r.0).collect::<Vec<_>>(), vec![1, 0]);
}

#[test]
fn migemo_search_without_dictionary_finds_nothing() {
    let app = App::new(vec![bookmark("言")], None);
    assert!(!app.is_migemo_ready());
    assert!(app.migemo_search("gen").is_empty());
}

#[test]
fn combined_positions_merge_fuzzy_and_migemo_without_repeats() {
    let mut app = App::new(vec![bookmark("管理")], Some(dictionary()));
    app.set_search_mode(SearchMode::Migemo);
    assert_eq!(app.match_char_positions("管理", "kanri"), vec![0, 1]);
    app.set_search_mode(SearchMode::Combined);
    assert_eq!(app.match_char_positions("管理", "kanri"), vec![0, 1]);
    assert_eq!(app.match_char_positions("GitHub", "gh"), vec![0, 3]);
    app.set_search_mode(SearchMode::Migemo);
    assert!(app.match_secondary_positions(&bookmark("x"), "exa").is_empty());
    app.set_search_mode(SearchMode::Fuzzy);
    assert!(!app.match_secondary_positions(&bookmark("x"), "exa").is_empty());
}

#[test]
fn labels_follow_modes() {
    let mut app = App::new(vec![], None);
    assert_eq!(app.search_mode_label(), "Fuzzy+Migemo");
    app.set_search_mode(SearchMode::Fuzzy);
    assert_eq!(app.search_mode_label(), "Fuzzy");
    app.set_search_mode(SearchMode::Migemo);
    assert_eq!(app.search_mode_label(), "Migemo");
    assert_eq!(app.sort_mode_label(), "Score");
    app.toggle_sort_mode();
    app.toggle_sort_mode();
    assert_eq!(app.sort_mode_label(), "Score");
    let _ = SortMode::ByCount;
}

#[test]
fn adding_deleting_and_opening_keep_searches_in_step() {
    let mut app = App::new(vec![bookmark("言")], Some(dictionary()));
    app.set_search_mode(SearchMode::Migemo);
    assert!(app.add_bookmark("https://example.org/page".to_string(), Some("<html><head><title> 管理 </title></head></html>".to_string())));
    assert_eq!(app.bookmarks()[1].title(), "管理");
    assert!(!app.add_bookmark("https://example.org/page".to_string(), None));
    assert_eq!(app.migemo_search("kanri"), vec![(1, 0)]);
    assert!(app.delete_bookmark_by_index(0));
    assert_eq!(app.migemo_search("kanri"), vec![(0, 0)]);
    assert!(app.migemo_search("gen").is_empty());
    assert!(!app.delete_bookmark_by_index(5));
    assert!(app.increment_access_count_by_index(0));
    assert_eq!(app.bookmarks()[0].access_count(), 1);
    assert!(!app.increment_access_count_by_index(3));
    app.query_mut().push_str("kan");
    assert_eq!(app.query(), "kan");
}

#[test]
fn app_state_edits_entries() {
    let mut state = AppState::new(vec![bookmark("a"), app_entry("b", "cmd", &[], 0)]);
    assert!(state.increment_access_count_by_index(1));
    assert_eq!(state.bookmarks()[1].access_count(), 1);
    assert!(state.contains_bookmark_url("https://example.com"));
    assert!(!state.add_bookmark("https://example.com".to_string(), None));
    assert!(state.add_bookmark("https://rust-lang.org/learn?x=1".to_string(), None));
    assert_eq!(state.bookmarks()[2].title(), "rust-lang.org");
    assert!(state.delete_bookmark_by_index(0));
    assert_eq!(state.bookmarks().len(), 2);
    assert!(!state.delete_bookmark_by_index(2));
    assert!(BookmarkFile::default().bookmarks.is_empty());
}

#[test]
fn entry_accessors_and_display() {
    let b = bookmark("Home");
    assert_eq!(b.title(), "Home");
    assert_eq!(b.secondary_text(), "https://example.com");
    assert_eq!(b.display(), "Home (https://example.com)");
    let a = app_entry("Editor", "vim", &["-R", "notes.txt"], 3);
    assert_eq!(a.secondary_text(), "vim");
    assert_eq!(a.access_count(), 3);
    assert_eq!(a.display(), "Editor (vim -R notes.txt)");
    assert_eq!(app_entry("Shell", "sh", &[], 0).display(), "Shell (sh)");
}

#[test]
fn titles_come_from_the_page_or_the_url() {
    assert_eq!(extract_title_from_url("https://example.com/a/b", None), "example.com");
    assert_eq!(extract_title_from_url("https://example.com?q=1", None), "example.com");
    assert_eq!(extract_title_from_url("https://example.com", None), "example.com");
    assert_eq!(extract_title_from_url("example.com", None), "example.com");
    assert_eq!(
        extract_title_from_url("https://example.com/x", Some("<title>\n  Example Domain \t</title>")),
        "Example Domain"
    );
    assert_eq!(extract_title_from_url("https://example.com/x", Some("<title>   </title>")), "example.com");
    assert_eq!(extract_title_from_url("https://example.com/x", Some("<p>no title</p>")), "example.com");
    assert_eq!(page_title_from_html("<html><title>A</title><title>B</title></html>"), "A");
    assert_eq!(trim("\u{3000} x y \n"), "x y");
    assert_eq!(trim("   "), "");
}

#[test]
fn app_knows_which_urls_it_holds() {
    let mut app = App::new(vec![bookmark("Example")], None);
    assert!(app.contains_bookmark_url("https://example.com"));
    assert!(!app.contains_bookmark_url("https://example.org"));
    assert!(!app.add_bookmark("https://example.com".to_string(), None));
    assert!(app.add_bookmark("https://example.org".to_string(), None));
    assert!(app.contains_bookmark_url("https://example.org"));
}
