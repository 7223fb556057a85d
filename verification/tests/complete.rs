use bookmark_launcher::complete::{
    format_candidate, parse_args, parse_usize, rank_candidates, split_token, Entry, Kind, DEFAULT_LIMIT,
};
use bookmark_launcher::dictionary::SkkDictionary;

fn encode_euc_jp(text: &str) -> Vec<u8> {
    let (bytes, _, had_errors) = encoding_rs::EUC_JP.encode(text);
    assert!(!had_errors);
    bytes.into_owned()
}

fn empty_dict() -> SkkDictionary {
    SkkDictionary::from_bytes(&encode_euc_jp(";; okuri-nasi entries.\n"))
}

fn entry(name: &str, is_dir: bool) -> Entry {
    Entry { name: name.into(), is_dir }
}

fn args(words: &[&str]) -> Vec<String> {
    words.iter().map(|w| w.to_string()).collect()
}

#[test]
fn split_token_separates_prefix_and_leaf() {
    assert_eq!(split_token("Documents/ap"), ("Documents/", "ap"));
    assert_eq!(split_token("ap"), ("", "ap"));
    assert_eq!(split_token("a/b/c"), ("a/b/", "c"));
}

#[test]
fn split_token_handles_backslash_for_windows() {
    assert_eq!(split_token(r"Documents\ap"), (r"Documents\", "ap"));
}

#[test]
fn split_token_keeps_multibyte_chars_whole() {
    assert_eq!(split_token("書類/アプ"), ("書類/", "アプ"));
    assert_eq!(split_token("アプリ/"), ("アプリ/", ""));
    assert_eq!(split_token(""), ("", ""));
}

#[test]
fn empty_query_lists_all_matching_kind_alphabetically() {
    let entries = vec![entry("zeta", true), entry("alpha", true), entry("readme.txt", false)];
    let names = rank_candidates(&entries, "", Kind::Dir, empty_dict());
    assert_eq!(names, vec!["alpha", "zeta"]);
}

#[test]
fn katakana_directory_matches_romaji_prefix() {
    let entries = vec![entry("アプリ", true), entry("Documents", true)];
    let names = rank_candidates(&entries, "ap", Kind::Dir, empty_dict());
    assert_eq!(names, vec!["アプリ"]);
}

#[test]
fn kind_filter_excludes_files_when_dir_requested() {
    let entries = vec![entry("apple.txt", false), entry("app", true)];
    let names = rank_candidates(&entries, "app", Kind::Dir, empty_dict());
    assert_eq!(names, vec!["app"]);
}

#[test]
fn ascii_and_katakana_homophone_files_both_survive_ranking() {
    let entries = vec![entry("test.txt", false), entry("テスト.txt", false)];
    for query in ["te", "tes", "test"] {
        let names = rank_candidates(&entries, query, Kind::Any, empty_dict());
        assert!(
            names.contains(&"test.txt".to_string()),
            "query {query:?} dropped test.txt, got {names:?}"
        );
        assert!(
            names.contains(&"テスト.txt".to_string()),
            "query {query:?} dropped テスト.txt, got {names:?}"
        );
    }
}

#[test]
fn ascii_and_katakana_homophone_directories_both_survive_ranking() {
    let entries = vec![entry("test", true), entry("テスト", true)];
    for query in ["te", "tes", "test"] {
        let names = rank_candidates(&entries, query, Kind::Dir, empty_dict());
        assert_eq!(
            names.len(),
            2,
            "query {query:?} should keep both directories, got {names:?}"
        );
    }
}

#[test]
fn format_candidate_appends_separator_for_directories_only() {
    let dir = entry("アプリ", true);
    let file = entry("notes.txt", false);
    assert_eq!(format_candidate("Documents/", &dir), "Documents/アプリ/");
    assert_eq!(format_candidate("", &file), "notes.txt");
}

#[test]
fn ranking_puts_higher_scores_first_and_breaks_ties_alphabetically() {
    // "app" matches all three at position 0 with the same length; shorter
    // names score higher (more trailing units), equal scores go alphabetically.
    let entries = vec![entry("apples", true), entry("appb", true), entry("appa", true), entry("app", true)];
    let names = rank_candidates(&entries, "app", Kind::Any, empty_dict());
    assert_eq!(names, vec!["apples", "appa", "appb", "app"]);
}

#[test]
fn kind_file_and_any_filters() {
    let entries = vec![entry("b", true), entry("a.txt", false), entry("c", false)];
    assert_eq!(rank_candidates(&entries, "", Kind::File, empty_dict()), vec!["a.txt", "c"]);
    assert_eq!(rank_candidates(&entries, "", Kind::Any, empty_dict()), vec!["a.txt", "b", "c"]);
}

#[test]
fn kind_parse_accepts_the_three_names_only() {
    assert_eq!(Kind::parse("dir"), Some(Kind::Dir));
    assert_eq!(Kind::parse("file"), Some(Kind::File));
    assert_eq!(Kind::parse("any"), Some(Kind::Any));
    assert_eq!(Kind::parse("Dir"), None);
    assert_eq!(Kind::parse(""), None);
}

#[test]
fn parse_usize_follows_std_parse() {
    for s in ["0", "42", "+7", "007", "18446744073709551615", "", "+", "-1", "1a", " 1", "18446744073709551616"] {
        assert_eq!(parse_usize(s), s.parse::<usize>().ok(), "input {s:?}");
    }
}

#[test]
fn parse_args_reads_every_option() {
    let a = parse_args(&args(&["--cwd", "/tmp", "--kind", "dir", "--limit", "5", "--dict", "d.L", "--", "Doc/ap"]))
        .unwrap();
    assert_eq!(a.cwd, "/tmp");
    assert_eq!(a.kind, Kind::Dir);
    assert_eq!(a.limit, 5);
    assert_eq!(a.dict_path.as_deref(), Some("d.L"));
    assert_eq!(a.token, "Doc/ap");
}

#[test]
fn parse_args_defaults_and_missing_token() {
    let a = parse_args(&args(&["--cwd", "/tmp", "--"])).unwrap();
    assert_eq!(a.kind, Kind::Any);
    assert_eq!(a.limit, DEFAULT_LIMIT);
    assert_eq!(a.dict_path, None);
    assert_eq!(a.token, "");
    let b = parse_args(&args(&["--cwd", "x"])).unwrap();
    assert_eq!(b.token, "");
}

#[test]
fn parse_args_reports_each_problem() {
    let err = |w: &[&str]| parse_args(&args(w)).err().unwrap();
    assert_eq!(err(&[]), "--cwd is required");
    assert_eq!(err(&["--cwd"]), "--cwd requires a value");
    assert_eq!(err(&["--cwd", "x", "--kind"]), "--kind requires a value");
    assert_eq!(err(&["--cwd", "x", "--kind", "dirs"]), "invalid --kind: dirs");
    assert_eq!(err(&["--cwd", "x", "--limit"]), "--limit requires a value");
    assert_eq!(err(&["--cwd", "x", "--limit", "ten"]), "invalid --limit: ten");
    assert_eq!(err(&["--cwd", "x", "--dict"]), "--dict requires a value");
    assert_eq!(err(&["--cwd", "x", "-v"]), "unrecognized argument: -v");
}
