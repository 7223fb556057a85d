use bookmark_launcher::dictionary::{CompiledDictError, SkkDictionary};

fn encode_euc_jp(text: &str) -> Vec<u8> {
    let (bytes, _, had_errors) = encoding_rs::EUC_JP.encode(text);
    assert!(!had_errors, "test fixture must be EUC-JP encodable");
    bytes.into_owned()
}

#[test]
fn parses_okuri_nasi_entries() {
    let text = "\
;; -*- mode: fundamental; coding: euc-jp -*-
;; okuri-ari entries.
;; some entry we must ignore
;; okuri-nasi entries.
げん /現/言/減/源;発生-/原;-住民/元/
げんご /言語/原語;original language/
";
    let bytes = encode_euc_jp(text);
    let dict = SkkDictionary::from_bytes(&bytes);

    let chars: Vec<char> = "言語".chars().collect();
    let (len, morae) = dict.longest_match(&chars).expect("言語 should be found");
    assert_eq!(len, 2);
    assert_eq!(morae, vec!["ge", "n", "go"]);
}

#[test]
fn longest_match_prefers_longer_word() {
    let text = "\
;; okuri-nasi entries.
けん /件/
けんきゅう /研究/
";
    let bytes = encode_euc_jp(text);
    let dict = SkkDictionary::from_bytes(&bytes);

    let chars: Vec<char> = "研究".chars().collect();
    let (len, morae) = dict.longest_match(&chars).expect("研究 should be found");
    assert_eq!(len, 2);
    assert_eq!(morae, vec!["ke", "n", "kyu", "u"]);
}

#[test]
fn strips_annotations_after_semicolon() {
    let text = "\
;; okuri-nasi entries.
げん /現/言;annotation/減/
";
    let bytes = encode_euc_jp(text);
    let dict = SkkDictionary::from_bytes(&bytes);

    let chars: Vec<char> = "言".chars().collect();
    let (len, morae) = dict.longest_match(&chars).expect("言 should be found");
    assert_eq!(len, 1);
    assert_eq!(morae, vec!["ge", "n"]);
}

#[test]
fn first_seen_reading_wins() {
    let text = "\
;; okuri-nasi entries.
げん /言/
こと /言/
";
    let bytes = encode_euc_jp(text);
    let dict = SkkDictionary::from_bytes(&bytes);

    let chars: Vec<char> = "言".chars().collect();
    let (_, morae) = dict.longest_match(&chars).expect("言 should be found");
    assert_eq!(morae, vec!["ge", "n"]);
}

#[test]
fn ignores_lines_before_okuri_nasi_section() {
    let text = "\
;; okuri-ari entries.
げん /現/
;; okuri-nasi entries.
げんご /言語/
";
    let bytes = encode_euc_jp(text);
    let dict = SkkDictionary::from_bytes(&bytes);

    let chars: Vec<char> = "現".chars().collect();
    assert!(dict.longest_match(&chars).is_none());
}

#[test]
fn unknown_word_returns_none() {
    let text = "\
;; okuri-nasi entries.
げんご /言語/
";
    let bytes = encode_euc_jp(text);
    let dict = SkkDictionary::from_bytes(&bytes);

    let chars: Vec<char> = "未知".chars().collect();
    assert!(dict.longest_match(&chars).is_none());
}

#[test]
fn counts_distinct_words_and_skips_placeholders() {
    let text = "\
;; okuri-nasi entries.
げん /現/言/#1/;note/
げん /現/
; a comment line
かんり /管理/

noreading
";
    let dict = SkkDictionary::from_bytes(&encode_euc_jp(text));
    assert_eq!(dict.len(), 3);
    assert!(!dict.is_empty());
    let empty = SkkDictionary::from_bytes(&[]);
    assert_eq!(empty.len(), 0);
    assert!(empty.is_empty());
}

#[test]
fn crlf_line_endings_are_accepted() {
    let text = ";; okuri-nasi entries.\r\nかんり /管理/\r\n";
    let dict = SkkDictionary::from_bytes(&encode_euc_jp(text));
    let chars: Vec<char> = "管理".chars().collect();
    assert_eq!(dict.longest_match(&chars), Some((2, vec!["ka".to_string(), "n".to_string(), "ri".to_string()])));
}

#[test]
fn reading_without_morae_adds_nothing() {
    let text = ";; okuri-nasi entries.\nabc /字/\n";
    let dict = SkkDictionary::from_bytes(&encode_euc_jp(text));
    assert_eq!(dict.len(), 0);
}

fn sample_text() -> &'static str {
    "\
;; okuri-nasi entries.
げん /現/言/減/源/
げんご /言語/
じんじ /人事/
かんり /管理/
けんきゅう /研究/
"
}

#[test]
fn compiled_round_trip_matches_source_dictionary() {
    let source = SkkDictionary::from_bytes(&encode_euc_jp(sample_text()));
    let compiled_bytes = source.compile();
    let compiled =
        SkkDictionary::from_compiled_bytes(&compiled_bytes).expect("valid compiled bytes");

    assert_eq!(compiled.len(), source.len());

    for word in ["言語", "言", "人事", "管理", "研究"] {
        let chars: Vec<char> = word.chars().collect();
        assert_eq!(
            compiled.longest_match(&chars),
            source.longest_match(&chars),
            "mismatch for {word}"
        );
    }

    let unknown: Vec<char> = "未知".chars().collect();
    assert!(compiled.longest_match(&unknown).is_none());
}

#[test]
fn recompiling_a_compiled_dictionary_is_idempotent() {
    let source = SkkDictionary::from_bytes(&encode_euc_jp(sample_text()));
    let once = source.compile();
    let compiled = SkkDictionary::from_compiled_bytes(&once).expect("valid compiled bytes");
    let twice = compiled.compile();

    assert_eq!(once, twice);
}

#[test]
fn from_compiled_bytes_rejects_truncated_header() {
    assert!(matches!(
        SkkDictionary::from_compiled_bytes(&[1, 2, 3]),
        Err(CompiledDictError::Truncated)
    ));
}

#[test]
fn from_compiled_bytes_rejects_bytes_shorter_than_declared_fst() {
    let source = SkkDictionary::from_bytes(&encode_euc_jp(sample_text()));
    let bytes = source.compile();
    let fst_len = u64::from_le_bytes(bytes[..8].try_into().unwrap()) as usize;
    assert!(
        fst_len > 4,
        "fixture too small for this test to be meaningful"
    );

    let truncated = &bytes[..8 + fst_len / 2];
    assert!(matches!(
        SkkDictionary::from_compiled_bytes(truncated),
        Err(CompiledDictError::Truncated)
    ));
}

#[test]
fn truncated_mora_blob_is_tolerated_at_load_and_misses_at_lookup() {
    let source = SkkDictionary::from_bytes(&encode_euc_jp(sample_text()));
    let mut bytes = source.compile();
    bytes.pop();
    let compiled = SkkDictionary::from_compiled_bytes(&bytes)
        .expect("blob truncation alone must still load");

    let chars: Vec<char> = "言語".chars().collect();
    let _ = compiled.longest_match(&chars);
}

#[test]
fn compiled_layout_header_counts_fst_bytes_and_blob_holds_joined_morae() {
    let source = SkkDictionary::from_bytes(&encode_euc_jp(";; okuri-nasi entries.\nかんり /管理/\n"));
    let bytes = source.compile();
    let fst_len = u64::from_le_bytes(bytes[..8].try_into().unwrap()) as usize;
    assert_eq!(&bytes[8 + fst_len..], b"ka,n,ri");
    let compiled = SkkDictionary::from_compiled_bytes(&bytes).unwrap();
    assert_eq!(compiled.len(), 1);
    assert!(!compiled.is_empty());
}

#[test]
fn from_compiled_bytes_rejects_bytes_that_are_not_an_fst() {
    let mut bytes = 4u64.to_le_bytes().to_vec();
    bytes.extend_from_slice(&[0, 0, 0, 0, 9, 9]);
    let err = SkkDictionary::from_compiled_bytes(&bytes).err().expect("not an fst");
    assert!(matches!(err, CompiledDictError::InvalidFst(_)));
    assert!(err.message().starts_with("invalid compiled dictionary fst: "));
    assert_eq!(
        CompiledDictError::Truncated.message(),
        "compiled dictionary bytes are truncated"
    );
}

#[test]
fn compiled_dictionary_longest_match_prefers_longer_word() {
    let source = SkkDictionary::from_bytes(&encode_euc_jp(";; okuri-nasi entries.\nけん /件/\nけんきゅう /研究/\n"));
    let compiled = SkkDictionary::from_compiled_bytes(&source.compile()).unwrap();
    let chars: Vec<char> = "研究会".chars().collect();
    assert_eq!(
        compiled.longest_match(&chars),
        Some((2, vec!["ke".to_string(), "n".to_string(), "kyu".to_string(), "u".to_string()]))
    );
}

#[test]
fn to_compiled_keeps_lookups_and_recompiles_to_the_same_bytes() {
    let source = SkkDictionary::from_bytes(&encode_euc_jp(sample_text()));
    let compiled = source.to_compiled().expect("compiled form loads");
    assert_eq!(compiled.len(), source.len());
    for word in ["言語", "言", "人事", "管理", "研究", "未知"] {
        let chars: Vec<char> = word.chars().collect();
        assert_eq!(compiled.longest_match(&chars), source.longest_match(&chars));
    }
    assert_eq!(compiled.compile(), source.compile());
}

#[test]
fn from_text_reads_decoded_text_like_from_bytes() {
    let text = ";; okuri-ari entries.\nげん /現/\n;; okuri-nasi entries.\n;; a comment\nげん /言/\nこと /言/\nげんご /言語;note/\n";
    let dict = SkkDictionary::from_text(text);
    let from_bytes = SkkDictionary::from_bytes(&encode_euc_jp(text));
    assert_eq!(dict.len(), 2);
    for word in ["言", "言語", "現"] {
        let chars: Vec<char> = word.chars().collect();
        assert_eq!(dict.longest_match(&chars), from_bytes.longest_match(&chars));
    }
    let chars: Vec<char> = "言".chars().collect();
    assert_eq!(dict.longest_match(&chars), Some((1, vec!["ge".to_string(), "n".to_string()])));
    assert!(dict.longest_match(&"現".chars().collect::<Vec<char>>()).is_none());
}
