use bookmark_launcher::dictionary::SkkDictionary;
use bookmark_launcher::searcher::MigemoSearcher;

fn encode_euc_jp(text: &str) -> Vec<u8> {
    let (bytes, _, had_errors) = encoding_rs::EUC_JP.encode(text);
    assert!(!had_errors);
    bytes.into_owned()
}

fn test_dictionary() -> SkkDictionary {
    let text = "\
;; okuri-nasi entries.
げん /現/言/減/源/
げんご /言語/
じんじ /人事/
かんり /管理/
けんきゅう /研究/
";
    SkkDictionary::from_bytes(&encode_euc_jp(text))
}

#[test]
fn multi_mora_query_hits_kanji() {
    let mut searcher = MigemoSearcher::new(test_dictionary());
    searcher.add_item("言語");

    let results = searcher.search("gen");
    assert_eq!(results.len(), 1);
    assert_eq!(results[0].index, 0);
}

#[test]
fn full_word_query_hits_kanji() {
    let mut searcher = MigemoSearcher::new(test_dictionary());
    searcher.add_item("言語");

    let results = searcher.search("gengo");
    assert_eq!(results.len(), 1);
}

#[test]
fn jin_hits_jinji_as_a_prefix_of_its_reading() {
    let mut searcher = MigemoSearcher::new(test_dictionary());
    searcher.add_item("人事");

    let results = searcher.search("jin");
    assert_eq!(results.len(), 1);
}

#[test]
fn kanri_hits_management() {
    let mut searcher = MigemoSearcher::new(test_dictionary());
    searcher.add_item("プロジェクト管理");

    let results = searcher.search("kanri");
    assert_eq!(results.len(), 1);
}

#[test]
fn mora_boundary_is_respected() {
    let mut searcher = MigemoSearcher::new(test_dictionary());
    searcher.add_item("プログラム");

    assert!(searcher.search("ogu").is_empty());
    assert!(!searcher.search("rogu").is_empty());
}

#[test]
fn ascii_substring_still_matches() {
    let mut searcher = MigemoSearcher::new(test_dictionary());
    searcher.add_item("GitHub");

    let results = searcher.search("git");
    assert_eq!(results.len(), 1);
    assert_eq!(results[0].highlight, vec![0, 1, 2]);
}

#[test]
fn highlight_covers_matched_kanji_segment() {
    let mut searcher = MigemoSearcher::new(test_dictionary());
    searcher.add_item("研究会");

    let results = searcher.search("kenkyuu");
    assert_eq!(results.len(), 1);
    assert_eq!(results[0].highlight, vec![0, 1]);
}

#[test]
fn remove_item_shifts_indices() {
    let mut searcher = MigemoSearcher::new(test_dictionary());
    searcher.add_item("言語");
    searcher.add_item("管理");
    searcher.remove_item(0);

    let results = searcher.search("kanri");
    assert_eq!(results.len(), 1);
    assert_eq!(results[0].index, 0);
}

#[test]
fn unknown_kanji_is_skipped_not_crashing() {
    let mut searcher = MigemoSearcher::new(test_dictionary());
    searcher.add_item("鰯");
    assert!(searcher.search("iwashi").is_empty());
}

#[test]
fn mora_match_scores_length_then_earliness() {
    let mut searcher = MigemoSearcher::new(test_dictionary());
    // morae: pu ro gu ra mu ka n ri (8); "kanri" matches 3 morae at 5.
    searcher.add_item("プログラム管理");
    let results = searcher.search("kanri");
    assert_eq!(results.len(), 1);
    assert_eq!(results[0].score, 3 * 100 + (8 - 5));
    assert_eq!(results[0].highlight, vec![5, 6]);
}

#[test]
fn plain_match_scores_by_chars() {
    let mut searcher = MigemoSearcher::new(test_dictionary());
    searcher.add_item("xGitHub");
    // "hub" is no romaji, so it matches as a substring at char 4 of 7.
    let results = searcher.search("hub");
    assert_eq!(results.len(), 1);
    assert_eq!(results[0].highlight, vec![4, 5, 6]);
    assert_eq!(results[0].score, 3 * 100 + (7 - 4));
}

#[test]
fn results_come_in_registration_order() {
    let mut searcher = MigemoSearcher::new(test_dictionary());
    searcher.add_item("管理");
    searcher.add_item("言語");
    searcher.add_item("管理会");
    let indices: Vec<usize> = searcher.search("kan").iter().map(|r| r.index).collect();
    assert_eq!(indices, vec![0, 2]);
}

#[test]
fn highlight_without_registering() {
    let searcher = MigemoSearcher::new(test_dictionary());
    assert_eq!(searcher.highlight("研究会", "kenkyuu"), vec![0, 1]);
    assert!(searcher.highlight("研究会", "xyz").is_empty());
}

#[test]
fn remove_out_of_range_is_ignored() {
    let mut searcher = MigemoSearcher::new(test_dictionary());
    searcher.add_item("管理");
    searcher.remove_item(5);
    assert_eq!(searcher.search("kanri").len(), 1);
}

#[test]
fn long_vowel_mark_extends_the_katakana_run() {
    let mut searcher = MigemoSearcher::new(test_dictionary());
    searcher.add_item("ソースコード");
    let results = searcher.search("soosu");
    assert_eq!(results.len(), 1);
    assert_eq!(results[0].highlight, vec![0, 1, 2]);
}

#[test]
fn highlight_stays_aligned_after_char_with_long_lowercase() {
    let mut searcher = MigemoSearcher::new(test_dictionary());
    searcher.add_item("İかき");

    let results = searcher.search("ki");
    assert_eq!(results.len(), 1);
    assert_eq!(results[0].highlight, vec![2]);
}
