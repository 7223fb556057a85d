use bookmark_launcher::romaji::{
    hiragana_to_morae, hiragana_to_morae_with_spans, katakana_to_hiragana, query_to_morae,
};

#[test]
fn converts_basic_word() {
    assert_eq!(hiragana_to_morae("げんご"), vec!["ge", "n", "go"]);
}

#[test]
fn converts_sokuon() {
    assert_eq!(hiragana_to_morae("がっこう"), vec!["ga", "kko", "u"]);
}

#[test]
fn converts_chouon() {
    assert_eq!(
        hiragana_to_morae("そーすこーど"),
        vec!["so", "o", "su", "ko", "o", "do"]
    );
}

#[test]
fn katakana_run_converts_via_hiragana() {
    let hira = katakana_to_hiragana("ソースコード");
    assert_eq!(
        hiragana_to_morae(&hira),
        vec!["so", "o", "su", "ko", "o", "do"]
    );
}

#[test]
fn query_full_word() {
    assert_eq!(query_to_morae("gengo"), vec!["ge", "n", "go"]);
}

#[test]
fn query_incomplete_trailing_mora_is_dropped() {
    assert_eq!(query_to_morae("geng"), vec!["ge", "n"]);
}

#[test]
fn query_word_final_n_is_confirmed() {
    assert_eq!(query_to_morae("gen"), vec!["ge", "n"]);
}

#[test]
fn query_normalizes_spelling_fluctuation() {
    assert_eq!(query_to_morae("si"), vec!["shi"]);
    assert_eq!(query_to_morae("ti"), vec!["chi"]);
}

#[test]
fn query_kanri() {
    assert_eq!(query_to_morae("kanri"), vec!["ka", "n", "ri"]);
}

#[test]
fn katakana_outside_the_shifted_block_is_kept() {
    // ヷ (U+30F7) lies past the block that has hiragana counterparts.
    assert_eq!(katakana_to_hiragana("アヷa"), "あヷa");
}

#[test]
fn youon_digraph_is_one_mora() {
    assert_eq!(hiragana_to_morae("きょう"), vec!["kyo", "u"]);
}

#[test]
fn spans_cover_the_producing_kana() {
    let spans = hiragana_to_morae_with_spans("きょうっと");
    let expected: Vec<(usize, usize, String)> = vec![
        (0, 2, "kyo".to_string()),
        (2, 3, "u".to_string()),
        (3, 5, "tto".to_string()),
    ];
    assert_eq!(spans, expected);
}

#[test]
fn leading_long_vowel_and_trailing_sokuon_are_dropped() {
    assert_eq!(hiragana_to_morae("ーかっ"), vec!["ka"]);
}

#[test]
fn unknown_chars_are_skipped() {
    assert_eq!(hiragana_to_morae("かXき"), vec!["ka", "ki"]);
}

#[test]
fn query_doubled_consonant_is_sokuon() {
    assert_eq!(query_to_morae("gakkou"), vec!["ga", "kko", "u"]);
}

#[test]
fn query_is_case_insensitive() {
    assert_eq!(query_to_morae("KanRi"), vec!["ka", "n", "ri"]);
}

#[test]
fn query_doubled_n_is_not_sokuon() {
    assert_eq!(query_to_morae("nna"), vec!["n", "na"]);
}

#[test]
fn query_stops_at_unknown_fragment() {
    assert_eq!(query_to_morae("kaxka"), vec!["ka"]);
    assert!(query_to_morae("").is_empty());
}

#[test]
fn kana_spellings_read_back_as_queries() {
    for kana in ["し", "ち", "つ", "ふ", "じ", "ぢ", "づ", "を", "ん", "ゔ", "きゃ", "しょ", "ちぇ", "くぉ", "うぃ"] {
        let morae = hiragana_to_morae(kana);
        assert_eq!(morae.len(), 1);
        assert_eq!(query_to_morae(&morae[0]), morae);
    }
}

#[test]
fn foreign_digraphs_read_back_as_queries() {
    assert_eq!(hiragana_to_morae("てぃ"), vec!["thi"]);
    assert_eq!(query_to_morae("thi"), vec!["thi"]);
    assert_eq!(hiragana_to_morae("でぃ"), vec!["dhi"]);
    assert_eq!(query_to_morae("dhi"), vec!["dhi"]);
    assert_eq!(hiragana_to_morae("とぅ"), vec!["twu"]);
    assert_eq!(query_to_morae("twu"), vec!["twu"]);
    assert_eq!(hiragana_to_morae("ぱーてぃー"), vec!["pa", "a", "thi", "i"]);
    assert_eq!(query_to_morae("paathii"), vec!["pa", "a", "thi", "i"]);
    assert_eq!(query_to_morae("ti"), vec!["chi"]);
}

#[test]
fn normalized_tokens_are_fixed() {
    for token in ["si", "ti", "tu", "hu", "zi", "di", "shi", "chi", "tsu", "fu", "ji"] {
        let once = query_to_morae(token);
        assert_eq!(once.len(), 1);
        assert_eq!(query_to_morae(&once[0]), once);
    }
}
