//! The SKK-JISYO based dictionary mapping a word (typically containing kanji)
//! to the mora list computed from its first-seen reading. Used to look up
//! kanji runs while indexing item text in `MigemoSearcher::add_item`.

use vstd::prelude::*;
use vstd::hash_map::StringHashMap;
use crate::romaji::{hiragana_to_morae, is_romaji, lemma_kana_morae_romaji};
use crate::skk::{
    add_first_seen, candidate_word, candidate_words, fold_lines, line_entries, line_fields,
    line_reading, lines_from, okuri_nasi_marker, skk_model, split_on, strip_cr, DictMap,
};
use crate::text::{
    chars_start_with, copy_range, find_char, lemma_find_from_bounds, lemma_find_skip, str_chars,
    str_from_utf8, string_append, string_from_chars, strings_view,
};
use crate::compiled::{
    blob_lookup, blob_of, byte_sorted, compiled_image, compiled_parts, entries_of, entry_views, join_strings,
    join_on, le_value, lemma_compiled_bytes_recompile, lemma_compiled_lookup, lemma_compiled_parts_image, lemma_ordered_words, ordered_words, pack_range,
    read_u64_le, sep_free, sort_entries_by_key, split_morae, u64_le_bytes, unpack_range,
};
use crate::fst_map::{
    bytes_lt, fst_build, fst_builder_entries, fst_builder_insert, fst_builder_into_bytes, fst_builder_memory,
    fst_error_text, fst_get, fst_len, fst_map_bytes, fst_map_from_bytes, fst_map_get, fst_map_len,
    fst_header_fits, fst_map_to_bytes, fst_new_accepts, fst_written, lemma_bytes_lt_order,
};
use vstd::utf8::decode_utf8;
use vstd::utf8::encode_utf8;

verus! {

/// What `encoding_rs::EUC_JP.decode` makes of a byte string: the EUC-JP
/// decoding (with a leading byte order mark, if any, deciding the encoding
/// instead, and malformed sequences replaced).
pub uninterp spec fn euc_jp_decode(bytes: Seq<u8>) -> Seq<char>;

/// Decodes `bytes` with `encoding_rs::EUC_JP.decode`. Only that the result is
/// a function of the bytes is stated; the decoding itself is not.
#[verifier::external_body]
fn decode_euc_jp(bytes: &[u8]) -> (r: String)
    ensures
        r@ == euc_jp_decode(bytes@),
{
    encoding_rs::EUC_JP.decode(bytes).0.into_owned()
}

/// A mora list a dictionary may hold: one or more romaji morae.
pub open spec fn valid_morae(ms: Seq<Seq<char>>) -> bool {
    ms.len() > 0 && forall|k: int| 0 <= k < ms.len() ==> is_romaji(#[trigger] ms[k])
}

/// The word -> mora-list map that a string map holds.
pub open spec fn map_model(m: Map<Seq<char>, Vec<String>>) -> DictMap {
    m.map_values(|v: Vec<String>| strings_view(v@))
}

/// A map backend is consistent: `words` lists each key of the map exactly
/// once, and every mora list is valid.
pub open spec fn map_backend_wf(m: Map<Seq<char>, Vec<String>>, words: Seq<String>) -> bool {
    &&& forall|i: int, j: int| 0 <= i < j < words.len() ==> words[i]@ != words[j]@
    &&& forall|i: int| 0 <= i < words.len() ==> m.contains_key(#[trigger] words[i]@)
    &&& forall|w: Seq<char>|
        m.contains_key(w) ==> exists|i: int| 0 <= i < words.len() && #[trigger] words[i]@ == w
    &&& forall|w: Seq<char>| m.contains_key(w) ==> valid_morae(#[trigger] strings_view(m[w]@))
}

/// The value a map gives a key, if any.
pub open spec fn dict_get(m: DictMap, w: Seq<char>) -> Option<Seq<Seq<char>>> {
    if m.contains_key(w) {
        Some(m[w])
    } else {
        None
    }
}

/// What a dictionary is, abstractly: a word -> mora-list map parsed from
/// SKK-JISYO text, or the FST bytes and blob of a compiled dictionary.
pub enum DictModel {
    Parsed(DictMap),
    Compiled(Seq<u8>, Seq<u8>),
}

/// The mora list a dictionary gives `word`, if any. A compiled dictionary looks
/// the word's UTF-8 bytes up in its FST and reads the range found in its blob.
pub open spec fn model_lookup(m: DictModel, word: Seq<char>) -> Option<Seq<Seq<char>>> {
    match m {
        DictModel::Parsed(map) => dict_get(map, word),
        DictModel::Compiled(f, blob) => blob_lookup(fst_get(f, encode_utf8(word)), blob),
    }
}

/// The number of words a dictionary holds a reading for.
pub open spec fn model_len(m: DictModel) -> nat {
    match m {
        DictModel::Parsed(map) => map.dom().len(),
        DictModel::Compiled(f, _) => fst_len(f) as nat,
    }
}

/// The compiled bytes of a dictionary. A parsed one gets an FST of its words
/// in increasing byte order and a blob of their mora lists in that order; a
/// compiled one is written back as it was read.
pub open spec fn model_compile(m: DictModel) -> Seq<u8> {
    match m {
        DictModel::Parsed(map) => compiled_image(
            fst_build(entries_of(map, ordered_words(map))),
            blob_of(map, ordered_words(map)),
        ),
        DictModel::Compiled(f, blob) => compiled_image(f, blob),
    }
}

/// Whether the blob ranges of a dictionary fit the packed 32-bit offsets and
/// lengths of the compiled format.
pub open spec fn within_format_limits(m: DictModel) -> bool {
    match m {
        DictModel::Parsed(map) => blob_of(map, ordered_words(map)).len() < 0x1_0000_0000,
        DictModel::Compiled(..) => true,
    }
}

/// Loading `bytes` as a compiled dictionary succeeds and gives the same
/// lookups and length as `m`.
pub open spec fn loads_as(bytes: Seq<u8>, m: DictModel) -> bool {
    &&& compiled_parts(bytes) matches Some((f, b))
    &&& fst_new_accepts(f)
    &&& forall|w: Seq<char>| #[trigger] model_lookup(DictModel::Compiled(f, b), w) == model_lookup(m, w)
    &&& model_len(DictModel::Compiled(f, b)) == model_len(m)
}

/// Compiling a dictionary loaded from compiled bytes gives those very bytes
/// back, whenever loading splits them (and their length header fits a `usize`).
pub proof fn lemma_load_then_compile(bytes: Seq<u8>)
    requires
        compiled_parts(bytes) is Some,
        le_value(bytes.take(8)) <= usize::MAX,
    ensures
        compiled_parts(bytes) matches Some((f, b)) && model_compile(DictModel::Compiled(f, b)) == bytes,
{
    lemma_compiled_bytes_recompile(bytes);
}

/// Recompiling what was loaded from a dictionary's compiled bytes gives those
/// bytes back, byte for byte: `written` is what `d.compile()` returned (so it
/// fits in memory), `loaded` what loading it gave.
pub proof fn lemma_recompile_is_identity(d: SkkDictionary, written: Seq<u8>, loaded: SkkDictionary)
    requires
        written == model_compile(d@),
        written.len() <= usize::MAX,
        compiled_parts(written) matches Some((f, b)) && loaded@ == DictModel::Compiled(f, b),
    ensures
        model_compile(loaded@) == written,
{
    let (f, b) = match d@ {
        DictModel::Parsed(map) => (fst_build(entries_of(map, ordered_words(map))), blob_of(map, ordered_words(map))),
        DictModel::Compiled(f, b) => (f, b),
    };
    assert(written == compiled_image(f, b));
    lemma_compiled_parts_image(f, b);
}

/// SKK-JISYO based dictionary mapping a word to the mora list computed from
/// its first-seen reading.
///
/// Has two backends with the same lookup behaviour: one parsed from the
/// SKK-JISYO text into a string map, and one read from compiled bytes, whose
/// lookups walk an FST and allocate only the mora list of a hit.
pub struct SkkDictionary {
    backend: Backend,
}

enum Backend {
    /// Built from SKK-JISYO text: a string map, with its keys listed in
    /// insertion order.
    Parsed { map: StringHashMap<Vec<String>>, words: Vec<String> },
    /// Read from compiled bytes: an FST from word bytes to packed blob
    /// ranges, and the blob of comma-joined mora lists.
    Compiled { fst: fst::Map<Vec<u8>>, morae_blob: Vec<u8> },
}

/// Error returned by [`SkkDictionary::from_compiled_bytes`] when the input
/// isn't a valid compiled dictionary (e.g. a truncated or corrupted cache
/// file). Callers driving a cache should treat this as "rebuild the cache".
#[derive(Debug)]
pub enum CompiledDictError {
    Truncated,
    InvalidFst(fst::Error),
}

impl CompiledDictError {
    /// The error's message.
    pub fn message(&self) -> (r: String)
        ensures
            self is Truncated ==> r@ == "compiled dictionary bytes are truncated"@,
            self is InvalidFst ==> "invalid compiled dictionary fst: "@.is_prefix_of(r@),
    {
        match self {
            CompiledDictError::Truncated => "compiled dictionary bytes are truncated".to_string(),
            CompiledDictError::InvalidFst(e) => {
                let mut r = "invalid compiled dictionary fst: ".to_string();
                let ghost head = r@;
                let detail = fst_error_text(e);
                string_append(&mut r, detail.as_str());
                assert(r@.take(head.len() as int) =~= head);
                r
            },
        }
    }
}

impl View for SkkDictionary {
    type V = DictModel;

    closed spec fn view(&self) -> DictModel {
        match self.backend {
            Backend::Parsed { map, .. } => DictModel::Parsed(map_model(map@)),
            Backend::Compiled { fst, morae_blob } => DictModel::Compiled(fst_map_bytes(fst), morae_blob@),
        }
    }
}

impl SkkDictionary {
    #[verifier::type_invariant]
    spec fn inv(self) -> bool {
        match self.backend {
            Backend::Parsed { map, words } => map_backend_wf(map@, words@),
            Backend::Compiled { fst, .. } => fst_new_accepts(fst_map_bytes(fst)) && fst_written(fst_map_bytes(fst)),
        }
    }

    /// The mora list the dictionary gives `word`, if any.
    pub open spec fn lookup(self, word: Seq<char>) -> Option<Seq<Seq<char>>> {
        model_lookup(self@, word)
    }

    /// The number of words the dictionary holds a reading for.
    pub open spec fn spec_len(self) -> nat {
        model_len(self@)
    }

    /// The longest prefix of `chars` of at most `len` chars that the
    /// dictionary holds, with its mora list.
    pub open spec fn longest_from(self, chars: Seq<char>, len: int) -> Option<(int, Seq<Seq<char>>)>
        decreases len,
    {
        if len <= 0 {
            None
        } else {
            match self.lookup(chars.take(len)) {
                Some(m) => Some((len, m)),
                None => self.longest_from(chars, len - 1),
            }
        }
    }

    /// The longest prefix of `chars` that the dictionary holds, with its mora list.
    pub open spec fn longest_match_spec(self, chars: Seq<char>) -> Option<(int, Seq<Seq<char>>)> {
        self.longest_from(chars, chars.len() as int)
    }

    /// A longest match is a nonempty prefix of the searched chars.
    pub proof fn lemma_longest_from_bounds(self, chars: Seq<char>, len: int)
        requires
            len <= chars.len(),
        ensures
            self.longest_from(chars, len) is Some ==> 1 <= (self.longest_from(chars, len)->0).0 <= len,
        decreases len,
    {
        if len > 0 {
            self.lemma_longest_from_bounds(chars, len - 1);
        }
    }

    /// Two dictionaries that give every word the same lookup find the same
    /// longest match in every text.
    pub proof fn lemma_same_lookups_same_matches(self, other: SkkDictionary, chars: Seq<char>, len: int)
        requires
            forall|w: Seq<char>| #[trigger] self.lookup(w) == other.lookup(w),
        ensures
            self.longest_from(chars, len) == other.longest_from(chars, len),
        decreases len,
    {
        if len > 0 {
            assert(self.lookup(chars.take(len)) == other.lookup(chars.take(len)));
            self.lemma_same_lookups_same_matches(other, chars, len - 1);
        }
    }

    /// Round trip of compilation: loading bytes that load as `self`, as
    /// `compile` writes them (within the format's limits), gives a dictionary
    /// with the same lookups, the same longest match in every text and the
    /// same length.
    pub proof fn lemma_compiled_round_trip(self, bytes: Seq<u8>, loaded: SkkDictionary)
        requires
            loads_as(bytes, self@),
            compiled_parts(bytes) matches Some((f, b)) && loaded@ == DictModel::Compiled(f, b),
        ensures
            forall|w: Seq<char>| #[trigger] loaded.lookup(w) == self.lookup(w),
            forall|chars: Seq<char>| #[trigger] loaded.longest_match_spec(chars) == self.longest_match_spec(chars),
            loaded.spec_len() == self.spec_len(),
    {
        assert forall|chars: Seq<char>| #[trigger] loaded.longest_match_spec(chars) == self.longest_match_spec(
            chars,
        ) by {
            loaded.lemma_same_lookups_same_matches(self, chars, chars.len() as int);
        }
    }

    /// Find the mora list for the longest prefix of `chars` present in the
    /// dictionary. Returns the number of chars consumed and its mora list.
    pub fn longest_match(&self, chars: &[char]) -> (r: Option<(usize, Vec<String>)>)
        ensures
            match r {
                Some((l, m)) => self.longest_match_spec(chars@) == Some((l as int, strings_view(m@))),
                None => self.longest_match_spec(chars@) is None,
            },
    {
        let v = vstd::slice::slice_to_vec(chars);
        assert(v@.subrange(0, v@.len() as int) =~= chars@);
        self.longest_match_in(&v, 0, v.len())
    }

    /// Find the mora list for the longest prefix of `chars[start..end]` present
    /// in the dictionary. Returns the number of chars consumed and its mora list.
    pub(crate) fn longest_match_in(&self, chars: &Vec<char>, start: usize, end: usize) -> (r: Option<(usize, Vec<String>)>)
        requires
            start <= end <= chars.len(),
        ensures
            match r {
                Some((l, m)) => self.longest_match_spec(chars@.subrange(start as int, end as int))
                    == Some((l as int, strings_view(m@))),
                None => self.longest_match_spec(chars@.subrange(start as int, end as int)) is None,
            },
    {
        let ghost window = chars@.subrange(start as int, end as int);
        match &self.backend {
            Backend::Parsed { map, .. } => {
                let mut len = end - start;
                while len > 0
                    invariant
                        len <= end - start,
                        start <= end <= chars.len(),
                        window == chars@.subrange(start as int, end as int),
                        self.longest_match_spec(window) == self.longest_from(window, len as int),
                        self.backend == (Backend::Parsed { map: *map, words: self.backend->words }),
                    decreases len,
                {
                    let word = string_from_chars(chars, start, start + len);
                    assert(window.take(len as int) =~= word@);
                    match map.get(word.as_str()) {
                        Some(m) => {
                            let copy = m.clone();
                            assert(strings_view(copy@) =~= strings_view(m@));
                            return Some((len, copy));
                        },
                        None => {},
                    }
                    len -= 1;
                }
                None
            },
            Backend::Compiled { fst, morae_blob } => {
                proof {
                    use_type_invariant(self);
                }
                let mut len = end - start;
                while len > 0
                    invariant
                        len <= end - start,
                        start <= end <= chars.len(),
                        window == chars@.subrange(start as int, end as int),
                        self.longest_match_spec(window) == self.longest_from(window, len as int),
                        self@ == DictModel::Compiled(fst_map_bytes(*fst), morae_blob@),
                        fst_written(fst_map_bytes(*fst)),
                    decreases len,
                {
                    let word = string_from_chars(chars, start, start + len);
                    assert(window.take(len as int) =~= word@);
                    let key = word.as_str().as_bytes();
                    if let Some(morae) = blob_morae(fst_map_get(fst, key), morae_blob) {
                        return Some((len, morae));
                    }
                    len -= 1;
                }
                None
            },
        }
    }

    /// Number of distinct words the dictionary holds a reading for.
    pub fn len(&self) -> (r: usize)
        ensures
            r == self.spec_len(),
    {
        proof {
            use_type_invariant(self);
        }
        match &self.backend {
            Backend::Parsed { map, words } => {
                proof {
                    lemma_words_len(map@, words@);
                }
                words.len()
            },
            Backend::Compiled { fst, .. } => fst_map_len(fst),
        }
    }

    /// Whether the dictionary holds no word.
    pub fn is_empty(&self) -> (r: bool)
        ensures
            r == (self.spec_len() == 0),
    {
        self.len() == 0
    }

    /// Serialize this dictionary into the compact format consumed by
    /// [`SkkDictionary::from_compiled_bytes`]: an 8-byte little-endian length
    /// of the FST bytes, an FST from each word's UTF-8 bytes to the packed
    /// (offset, length) of its comma-joined mora list, and the blob of those
    /// mora lists. The FST part is one an fst builder wrote, which fst
    /// accepts, so loading the result succeeds (where its header fits a
    /// `usize`); the loaded dictionary has the same lookups and length as long
    /// as the blob ranges fit the format's 32-bit halves.
    pub fn compile(&self) -> (r: Vec<u8>)
        ensures
            r@ == model_compile(self@),
            compiled_parts(r@) matches Some((f, _)) && fst_written(f) && fst_new_accepts(f),
            within_format_limits(self@) ==> loads_as(r@, self@),
    {
        proof {
            use_type_invariant(self);
        }
        match &self.backend {
            Backend::Parsed { map, words } => compile_parsed(map, words),
            Backend::Compiled { fst, morae_blob } => {
                let fst_bytes = fst_map_to_bytes(fst);
                let out = assemble_compiled(&fst_bytes, morae_blob);
                proof {
                    assert(fst_bytes@.len() == fst_bytes.len());
                    lemma_compiled_parts_image(fst_bytes@, morae_blob@);
                }
                out
            },
        }
    }

    /// Load a dictionary previously produced by [`SkkDictionary::compile`].
    /// Fails with `Truncated` when the bytes are shorter than the header or
    /// than the FST length it declares, and with `InvalidFst` when the FST
    /// bytes are refused.
    ///
    /// The FST part must be one an fst builder wrote, as `compile` writes it:
    /// fst reads FST bytes that merely pass its checks without guarding every
    /// address, and may panic on them. Its header fields must fit a `usize`.
    pub fn from_compiled_bytes(bytes: &[u8]) -> (r: Result<Self, CompiledDictError>)
        requires
            compiled_parts(bytes@) matches Some((f, _)) ==> fst_written(f) && fst_header_fits(f),
        ensures
            match r {
                Ok(d) => compiled_parts(bytes@) matches Some((f, b)) && fst_new_accepts(f) && d@
                    == DictModel::Compiled(f, b),
                Err(CompiledDictError::Truncated) => compiled_parts(bytes@) is None,
                Err(CompiledDictError::InvalidFst(_)) => compiled_parts(bytes@) matches Some((f, _))
                    && !fst_new_accepts(f),
            },
    {
        if bytes.len() < 8 {
            return Err(CompiledDictError::Truncated);
        }
        let header = read_u64_le(bytes);
        let fst_len = header as usize;
        let rest_len = bytes.len() - 8;
        if rest_len < fst_len {
            return Err(CompiledDictError::Truncated);
        }
        let fst_bytes = copy_bytes(bytes, 8, 8 + fst_len);
        let morae_blob = copy_bytes(bytes, 8 + fst_len, bytes.len());
        assert(bytes@.skip(8).take(fst_len as int) =~= fst_bytes@);
        assert(bytes@.skip(8).skip(fst_len as int) =~= morae_blob@);
        match fst_map_from_bytes(fst_bytes) {
            Ok(fst) => Ok(SkkDictionary { backend: Backend::Compiled { fst, morae_blob } }),
            Err(e) => Err(CompiledDictError::InvalidFst(e)),
        }
    }

    /// The dictionary in its compiled form: what loading the bytes `compile`
    /// writes gives, with the same lookups, longest matches and length when
    /// within the format's limits. None where those bytes cannot be loaded
    /// here, which only an FST header field wider than this target's `usize`
    /// causes: fst accepts every FST that `compile` writes.
    pub fn to_compiled(&self) -> (r: Option<SkkDictionary>)
        ensures
            compiled_parts(model_compile(self@)) matches Some((f, b)) && match r {
                Some(c) => c@ == DictModel::Compiled(f, b),
                None => !fst_header_fits(f),
            },
            within_format_limits(self@) && r is Some ==> forall|chars: Seq<char>| #[trigger] (r->0).longest_match_spec(chars)
                == self.longest_match_spec(chars),
            within_format_limits(self@) && r is Some ==> (r->0).spec_len() == self.spec_len(),
    {
        let bytes = self.compile();
        let fits = compiled_fst_header_fits(&bytes);
        if !fits {
            return None;
        }
        match SkkDictionary::from_compiled_bytes(&bytes) {
            Ok(c) => {
                proof {
                    if within_format_limits(self@) {
                        self.lemma_compiled_round_trip(bytes@, c);
                    }
                }
                Some(c)
            },
            Err(_) => None,
        }
    }

    /// Build a dictionary from the raw bytes of an EUC-JP encoded SKK-JISYO file.
    /// Only the "okuri-nasi" (no-okurigana) section is used.
    pub fn from_bytes(bytes: &[u8]) -> (r: Self)
        ensures
            r@ == DictModel::Parsed(skk_model(euc_jp_decode(bytes@))),
    {
        let text = decode_euc_jp(bytes);
        Self::from_text(text.as_str())
    }

    /// Build a dictionary from SKK-JISYO text already decoded. Only the
    /// entries after the "okuri-nasi" marker line are read; comment lines are
    /// skipped, and each word keeps the reading of its first entry.
    pub fn from_text(text: &str) -> (r: Self)
        ensures
            r@ == DictModel::Parsed(skk_model(text@)),
    {
        let chars = str_chars(text);
        let marker = str_chars(";; okuri-nasi entries");
        let mut map: StringHashMap<Vec<String>> = StringHashMap::new();
        let mut words: Vec<String> = Vec::new();
        let mut in_okuri_nasi = false;
        let mut i: usize = 0;
        let ghost t = chars@;
        assert(map_model(map@) =~= Map::empty());
        while i < chars.len()
            invariant
                i <= chars.len(),
                chars@ == t,
                t == text@,
                marker@ == okuri_nasi_marker(),
                map_backend_wf(map@, words@),
                skk_model(t) == fold_lines(lines_from(t, i as int), in_okuri_nasi, map_model(map@)),
            decreases chars.len() - i,
        {
            let j = find_char(&chars, '\n', i);
            let line = if j < chars.len() {
                let raw = copy_range(&chars, i, j);
                strip_cr_vec(raw)
            } else {
                copy_range(&chars, i, chars.len())
            };
            let next = if j < chars.len() {
                j + 1
            } else {
                chars.len()
            };
            let ghost rest = lines_from(t, next as int);
            assert(lines_from(t, i as int) == seq![line@] + rest);
            assert((seq![line@] + rest)[0] == line@);
            assert((seq![line@] + rest).drop_first() =~= rest);
            if !in_okuri_nasi {
                in_okuri_nasi = chars_start_with(&line, &marker);
            } else if line.len() == 0 || line[0] == ';' {
            } else {
                Self::parse_line(&line, &mut map, &mut words);
            }
            i = next;
        }
        assert(lines_from(t, i as int) =~= seq![]);
        Self { backend: Backend::Parsed { map, words } }
    }

    /// Add the words of one entry line, each with the mora list of the line's
    /// reading, to the words that have none yet.
    fn parse_line(line: &Vec<char>, map: &mut StringHashMap<Vec<String>>, words: &mut Vec<String>)
        requires
            map_backend_wf(old(map)@, old(words)@),
        ensures
            map_backend_wf(final(map)@, final(words)@),
            map_model(final(map)@) == add_first_seen(
                map_model(old(map)@),
                line_entries(line@).0,
                line_entries(line@).1,
            ),
    {
        let sp = find_char(line, ' ', 0);
        if sp >= line.len() {
            return;
        }
        let reading = string_from_chars(line, 0, sp);
        let morae = hiragana_to_morae(reading.as_str());
        assert(line_reading(line@) == Some(reading@));
        if morae.len() == 0 {
            return;
        }
        proof {
            lemma_kana_morae_romaji(reading@);
        }
        let ghost mv = strings_view(morae@);
        assert(valid_morae(mv));
        let mut start = sp + 1;
        if start < line.len() && line[start] == '/' {
            start += 1;
        }
        let ghost cands = line@.skip(start as int);
        assert(line_fields(line@) == split_on(cands, '/')) by {
            let rest = line@.skip(sp + 1);
            if rest.len() > 0 && rest[0] == '/' {
                assert(rest.skip(1) =~= cands);
            } else {
                assert(rest =~= cands);
            }
        }
        let mut pos = start;
        let ghost m_start = map_model(map@);
        loop
            invariant_except_break
                add_first_seen(m_start, candidate_words(split_on(cands, '/')), mv) == add_first_seen(
                    map_model(map@),
                    candidate_words(split_on(line@.skip(pos as int), '/')),
                    mv,
                ),
            invariant
                start <= pos <= line.len(),
                map_backend_wf(map@, words@),
                strings_view(morae@) == mv,
                valid_morae(mv),
                m_start == map_model(old(map)@),
            ensures
                map_backend_wf(map@, words@),
                add_first_seen(m_start, candidate_words(split_on(cands, '/')), mv) == map_model(map@),
            decreases line.len() - pos,
        {
            let ghost m0 = map_model(map@);
            let e = find_char(line, '/', pos);
            let field = copy_range(line, pos, e);
            let ghost s = line@.skip(pos as int);
            proof {
                lemma_find_skip(line@, '/', pos as int);
                lemma_find_from_bounds(s, '/', 0);
            }
            let ghost rest_fields = if e < line.len() {
                split_on(line@.skip(e + 1), '/')
            } else {
                Seq::<Seq<char>>::empty()
            };
            assert(split_on(s, '/') == seq![field@] + rest_fields) by {
                if e < line.len() {
                    assert(s.take(e - pos) =~= field@);
                    assert(s.skip(e - pos + 1) =~= line@.skip(e + 1));
                } else {
                    assert(s =~= field@);
                }
            }
            let ghost fs = seq![field@] + rest_fields;
            assert(fs[0] == field@);
            assert(fs.drop_first() =~= rest_fields);
            let ghost cw_rest = candidate_words(rest_fields);
            if field.len() > 0 && field[0] != '#' {
                let wend = find_char(&field, ';', 0);
                if wend > 0 {
                    let word = string_from_chars(&field, 0, wend);
                    assert(candidate_word(field@) == Some(word@)) by {
                        assert(field@.take(wend as int) =~= word@);
                    }
                    let ghost ws = seq![word@] + cw_rest;
                    assert(candidate_words(fs) == ws);
                    assert(ws[0] == word@);
                    assert(ws.drop_first() =~= cw_rest);
                    Self::insert_first_seen(map, words, word, &morae);
                    assert(add_first_seen(m0, ws, mv) == add_first_seen(map_model(map@), cw_rest, mv));
                } else {
                    assert(candidate_word(field@) is None);
                    assert(candidate_words(fs) == cw_rest);
                }
            } else {
                assert(candidate_word(field@) is None);
                assert(candidate_words(fs) == cw_rest);
            }
            if e >= line.len() {
                assert(cw_rest =~= seq![]);
                assert(add_first_seen(map_model(map@), cw_rest, mv) == map_model(map@));
                break;
            }
            pos = e + 1;
        }
        assert(line_entries(line@) == (candidate_words(split_on(cands, '/')), mv));
    }

    /// Map `word` to `morae` unless it already has a mora list.
    fn insert_first_seen(
        map: &mut StringHashMap<Vec<String>>,
        words: &mut Vec<String>,
        word: String,
        morae: &Vec<String>,
    )
        requires
            map_backend_wf(old(map)@, old(words)@),
            valid_morae(strings_view(morae@)),
        ensures
            map_backend_wf(final(map)@, final(words)@),
            map_model(final(map)@) == (if map_model(old(map)@).contains_key(word@) {
                map_model(old(map)@)
            } else {
                map_model(old(map)@).insert(word@, strings_view(morae@))
            }),
    {
        if map.contains_key(word.as_str()) {
            return;
        }
        let copy = morae.clone();
        assert(strings_view(copy@) =~= strings_view(morae@));
        let key = word.clone();
        words.push(key);
        map.insert(word, copy);
        assert(map_model(map@) =~= map_model(old(map)@).insert(word@, strings_view(morae@)));
        assert(map_backend_wf(map@, words@)) by {
            assert forall|w: Seq<char>| map@.contains_key(w) implies exists|i: int|
                0 <= i < words@.len() && #[trigger] words@[i]@ == w by {
                if w == word@ {
                    assert(words@[words@.len() - 1]@ == w);
                } else {
                    let i = choose|i: int| 0 <= i < old(words)@.len() && #[trigger] old(words)@[i]@ == w;
                    assert(words@[i]@ == w);
                }
            }
        }
    }
}

/// The line with one trailing carriage return removed.
fn strip_cr_vec(line: Vec<char>) -> (r: Vec<char>)
    ensures
        r@ == strip_cr(line@),
{
    let mut line = line;
    if line.len() > 0 && line[line.len() - 1] == '\r' {
        line.pop();
    }
    line
}

/// The words of a consistent map backend are as many as the map's keys.
proof fn lemma_words_len(m: Map<Seq<char>, Vec<String>>, words: Seq<String>)
    requires
        map_backend_wf(m, words),
    ensures
        words.len() == map_model(m).dom().len(),
{
    let vs = strings_view(words);
    assert(vs.no_duplicates()) by {
        assert forall|i: int, j: int| 0 <= i < vs.len() && 0 <= j < vs.len() && i != j implies vs[i] != vs[j] by {
            if i < j {
                assert(words[i]@ != words[j]@);
            } else {
                assert(words[j]@ != words[i]@);
            }
        }
    }
    assert(vs.to_set() =~= map_model(m).dom()) by {
        assert forall|w: Seq<char>| map_model(m).dom().contains(w) implies vs.to_set().contains(w) by {
            let i = choose|i: int| 0 <= i < words.len() && #[trigger] words[i]@ == w;
            assert(vs[i] == w);
        }
        assert forall|w: Seq<char>| vs.to_set().contains(w) implies map_model(m).dom().contains(w) by {
            let i = choose|i: int| 0 <= i < vs.len() && vs[i] == w;
            assert(m.contains_key(words[i]@));
        }
    }
    vs.unique_seq_to_set();
}

/// The bytes `b[start..end]`.
fn copy_bytes(b: &[u8], start: usize, end: usize) -> (r: Vec<u8>)
    requires
        start <= end <= b.len(),
    ensures
        r@ == b@.subrange(start as int, end as int),
{
    let mut r: Vec<u8> = Vec::new();
    let mut i = start;
    while i < end
        invariant
            start <= i <= end <= b.len(),
            r@ == b@.subrange(start as int, i as int),
        decreases end - i,
    {
        r.push(b[i]);
        i += 1;
        assert(r@ =~= b@.subrange(start as int, i as int));
    }
    r
}

/// Appends the bytes of `tail` to `v`.
fn append_bytes(v: &mut Vec<u8>, tail: &[u8])
    ensures
        final(v)@ == old(v)@ + tail@,
{
    let mut i: usize = 0;
    while i < tail.len()
        invariant
            i <= tail@.len(),
            v@ == old(v)@ + tail@.take(i as int),
        decreases tail.len() - i,
    {
        v.push(tail[i]);
        i += 1;
        assert(v@ =~= old(v)@ + tail@.take(i as int));
    }
    assert(tail@.take(tail@.len() as int) =~= tail@);
}

/// The compiled bytes holding `fst_bytes` and `blob`.
fn assemble_compiled(fst_bytes: &Vec<u8>, blob: &Vec<u8>) -> (r: Vec<u8>)
    ensures
        r@ == compiled_image(fst_bytes@, blob@),
{
    let mut out = u64_le_bytes(fst_bytes.len() as u64);
    append_bytes(&mut out, fst_bytes.as_slice());
    append_bytes(&mut out, blob.as_slice());
    out
}

/// The view of the entries that a map backend lists for compiling, one per
/// word: the word's UTF-8 bytes and its joined mora list.
spec fn listed_entry(m: DictMap, w: Seq<char>) -> (Seq<u8>, Seq<char>) {
    (encode_utf8(w), join_on(m[w], ','))
}

/// Sorting the listed entries of a consistent map backend by key lists the
/// words in their byte order.
proof fn lemma_sorted_listing(
    map: Map<Seq<char>, Vec<String>>,
    words: Seq<String>,
    init: Seq<(Seq<u8>, Seq<char>)>,
    sorted: Seq<(Seq<u8>, Seq<char>)>,
)
    requires
        map_backend_wf(map, words),
        init.len() == words.len(),
        forall|k: int| 0 <= k < init.len() ==> #[trigger] init[k] == listed_entry(map_model(map), words[k]@),
        sorted.to_multiset() == init.to_multiset(),
        forall|i: int, j: int| 0 <= i < j < sorted.len() ==> !bytes_lt(#[trigger] sorted[j].0, #[trigger] sorted[i].0),
    ensures
        sorted.len() == ordered_words(map_model(map)).len(),
        ordered_words(map_model(map)).to_set() == map_model(map).dom(),
        forall|i: int|
            0 <= i < sorted.len() ==> #[trigger] sorted[i] == listed_entry(
                map_model(map),
                ordered_words(map_model(map))[i],
            ),
        byte_sorted(ordered_words(map_model(map)).map_values(|w: Seq<char>| encode_utf8(w))),
{
    broadcast use vstd::utf8::encode_utf8_decode_utf8;
    broadcast use vstd::seq_lib::to_multiset_len;

    let m = map_model(map);
    init.to_multiset_ensures();
    sorted.to_multiset_ensures();
    assert(sorted.len() == init.len()) by {
        assert(sorted.to_multiset().len() == sorted.len());
        assert(init.to_multiset().len() == init.len());
    }
    // Each sorted entry is a listed one.
    assert forall|i: int| 0 <= i < sorted.len() implies exists|k: int| 0 <= k < words.len() && #[trigger] sorted[i] == listed_entry(m, words[k]@) by {
        assert(sorted.to_multiset().count(sorted[i]) > 0);
        assert(init.to_multiset().count(sorted[i]) > 0);
        let k = choose|k: int| 0 <= k < init.len() && init[k] == sorted[i];
        assert(init[k] == listed_entry(m, words[k]@));
    }
    // The listing has no duplicate, so neither has the sorted list.
    assert(init.no_duplicates()) by {
        assert forall|a: int, b: int| 0 <= a < init.len() && 0 <= b < init.len() && a != b implies init[a] != init[b] by {
            if init[a] == init[b] {
                assert(decode_utf8(encode_utf8(words[a]@)) == words[a]@);
                assert(decode_utf8(encode_utf8(words[b]@)) == words[b]@);
                if a < b {
                    assert(words[a]@ != words[b]@);
                } else {
                    assert(words[b]@ != words[a]@);
                }
            }
        }
    }
    init.lemma_multiset_has_no_duplicates();
    sorted.lemma_multiset_has_no_duplicates_conv();
    let ws = Seq::new(sorted.len(), |i: int| decode_utf8(sorted[i].0));
    assert forall|i: int| 0 <= i < sorted.len() implies #[trigger] sorted[i] == listed_entry(m, ws[i]) by {
        let k = choose|k: int| 0 <= k < words.len() && #[trigger] sorted[i] == listed_entry(m, words[k]@);
        assert(ws[i] == words[k]@);
    }
    let enc = |w: Seq<char>| encode_utf8(w);
    assert(byte_sorted(ws.map_values(enc))) by {
        assert forall|i: int, j: int| 0 <= i < j < ws.len() implies bytes_lt(#[trigger] ws.map_values(enc)[i], #[trigger] ws.map_values(enc)[j]) by {
            assert(sorted[i] == listed_entry(m, ws[i]));
            assert(sorted[j] == listed_entry(m, ws[j]));
            assert(sorted[i] != sorted[j]);
            if sorted[i].0 == sorted[j].0 {
                assert(ws[i] == ws[j]);
            }
            lemma_bytes_lt_order(sorted[i].0, sorted[j].0, sorted[i].0);
        }
    }
    assert(ws.to_set() =~= m.dom()) by {
        assert forall|w: Seq<char>| ws.to_set().contains(w) implies m.dom().contains(w) by {
            let i = choose|i: int| 0 <= i < ws.len() && ws[i] == w;
            let k = choose|k: int| 0 <= k < words.len() && #[trigger] sorted[i] == listed_entry(m, words[k]@);
            assert(map.contains_key(words[k]@));
        }
        assert forall|w: Seq<char>| m.dom().contains(w) implies ws.to_set().contains(w) by {
            let k = choose|k: int| 0 <= k < words.len() && #[trigger] words[k]@ == w;
            assert(init[k] == listed_entry(m, w));
            assert(init.to_multiset().count(init[k]) > 0);
            assert(sorted.to_multiset().count(init[k]) > 0);
            let i = choose|i: int| 0 <= i < sorted.len() && sorted[i] == init[k];
            assert(ws[i] == w);
        }
    }
    lemma_ordered_words(m, ws);
}

/// Compiles a map backend: its entries sorted by key bytes go into an FST,
/// their mora lists into the blob.
fn compile_parsed(map: &StringHashMap<Vec<String>>, words: &Vec<String>) -> (r: Vec<u8>)
    requires
        map_backend_wf(map@, words@),
    ensures
        r@ == model_compile(DictModel::Parsed(map_model(map@))),
        compiled_parts(r@) matches Some((f, _)) && fst_written(f) && fst_new_accepts(f),
        within_format_limits(DictModel::Parsed(map_model(map@))) ==> loads_as(
            r@,
            DictModel::Parsed(map_model(map@)),
        ),
{
    broadcast use vstd::string::group_string_axioms;

    let ghost m = map_model(map@);
    let mut entries: Vec<(Vec<u8>, String)> = Vec::new();
    let mut i: usize = 0;
    while i < words.len()
        invariant
            i <= words.len(),
            map_backend_wf(map@, words@),
            m == map_model(map@),
            entries@.len() == i,
            forall|k: int| 0 <= k < i ==> #[trigger] entry_views(entries@)[k] == listed_entry(m, words@[k]@),
        decreases words.len() - i,
    {
        let w = &words[i];
        assert(map@.contains_key(words@[i as int]@));
        let morae = map.get(w.as_str()).unwrap();
        let joined = join_strings(morae, ',');
        let key = vstd::slice::slice_to_vec(w.as_str().as_bytes());
        assert(key@ == encode_utf8(words@[i as int]@));
        assert(m[words@[i as int]@] == strings_view(morae@));
        let ghost before = entries@;
        let ghost ev = (key@, joined@);
        assert(ev == listed_entry(m, words@[i as int]@));
        entries.push((key, joined));
        assert(entry_views(entries@)[i as int] == ev);
        i += 1;
        assert forall|k: int| 0 <= k < i implies #[trigger] entry_views(entries@)[k] == listed_entry(m, words@[k]@) by {
            if k < i - 1 {
                assert(entries@[k] == before[k]);
                assert(entry_views(before)[k] == listed_entry(m, words@[k]@));
            }
        }
    }
    let ghost init = entry_views(entries@);
    sort_entries_by_key(&mut entries);
    let ghost ws = ordered_words(m);
    proof {
        let sorted = entry_views(entries@);
        assert forall|a: int, b: int| 0 <= a < b < sorted.len() implies !bytes_lt(#[trigger] sorted[b].0, #[trigger] sorted[a].0) by {
            assert(sorted[a].0 == entries@[a].0@ && sorted[b].0 == entries@[b].0@);
        }
        lemma_sorted_listing(map@, words@, init, sorted);
    }
    let mut blob: Vec<u8> = Vec::new();
    let mut builder = fst_builder_memory();
    let mut i: usize = 0;
    assert(ws.take(0) =~= Seq::<Seq<char>>::empty());
    assert(entries_of(m, ws).take(0) =~= Seq::<(Seq<u8>, u64)>::empty());
    while i < entries.len()
        invariant
            i <= entries.len(),
            entries@.len() == ws.len(),
            forall|k: int| 0 <= k < ws.len() ==> #[trigger] entry_views(entries@)[k] == listed_entry(m, ws[k]),
            byte_sorted(ws.map_values(|w: Seq<char>| encode_utf8(w))),
            blob@ == blob_of(m, ws.take(i as int)),
            fst_builder_entries(builder) == entries_of(m, ws).take(i as int),
        decreases entries.len() - i,
    {
        assert(entry_views(entries@)[i as int] == listed_entry(m, ws[i as int]));
        let offset = blob.len();
        let jb = entries[i].1.as_str().as_bytes();
        append_bytes(&mut blob, jb);
        let value = pack_range(offset, jb.len());
        proof {
            let t = ws.take(i + 1);
            assert(t.drop_last() =~= ws.take(i as int));
            assert(t.last() == ws[i as int]);
            assert(blob@ == blob_of(m, t));
            assert forall|x: int| 0 <= x < fst_builder_entries(builder).len() implies bytes_lt(
                #[trigger] fst_builder_entries(builder)[x].0,
                entries@[i as int].0@,
            ) by {
                assert(fst_builder_entries(builder)[x] == entries_of(m, ws)[x]);
                assert(ws.map_values(|w: Seq<char>| encode_utf8(w))[x] == encode_utf8(ws[x]));
                assert(ws.map_values(|w: Seq<char>| encode_utf8(w))[i as int] == encode_utf8(ws[i as int]));
            }
        }
        let _ = fst_builder_insert(&mut builder, entries[i].0.as_slice(), value);
        proof {
            let es = entries_of(m, ws);
            assert(es[i as int] == (entries@[i as int].0@, value));
            assert(es.take(i + 1) =~= es.take(i as int).push(es[i as int]));
        }
        i += 1;
    }
    assert(ws.take(ws.len() as int) =~= ws);
    assert(entries_of(m, ws).take(ws.len() as int) =~= entries_of(m, ws));
    let fst_bytes = match fst_builder_into_bytes(builder) {
        Ok(v) => v,
        Err(_) => {
            assert(false);
            Vec::new()
        },
    };
    let out = assemble_compiled(&fst_bytes, &blob);
    proof {
        assert(fst_bytes@.len() == fst_bytes.len());
        lemma_compiled_parts_image(fst_bytes@, blob@);
        if within_format_limits(DictModel::Parsed(m)) {
            assert forall|w: Seq<char>| #[trigger] m.contains_key(w) implies m[w].len() > 0 && sep_free(m[w], ',') by {
                assert(valid_morae(strings_view(map@[w]@)));
                assert(m[w] == strings_view(map@[w]@));
                assert forall|k: int, c: int| 0 <= k < m[w].len() && 0 <= c < m[w][k].len() implies #[trigger] m[w][k][c] != ',' by {
                    assert(is_romaji(m[w][k]));
                    assert('a' <= m[w][k][c]);
                }
            }
            lemma_compiled_lookup(m, ws, fst_bytes@);
            assert forall|w: Seq<char>| #[trigger] model_lookup(DictModel::Compiled(fst_bytes@, blob@), w) == model_lookup(DictModel::Parsed(m), w) by {
                assert(blob_lookup(fst_get(fst_bytes@, encode_utf8(w)), blob_of(m, ws)) == (if m.contains_key(w) {
                    Some(m[w])
                } else {
                    None
                }));
            }
        }
    }
    out
}

/// Whether the header fields of the FST part of compiled bytes (when the bytes
/// split into parts) fit a `usize`.
fn compiled_fst_header_fits(bytes: &[u8]) -> (r: bool)
    requires
        compiled_parts(bytes@) is Some,
    ensures
        compiled_parts(bytes@) matches Some((f, _)) && r == fst_header_fits(f),
{
    let header = read_u64_le(bytes);
    let fst_len = header as usize;
    assert(fst_len as int == ((le_value(bytes@.take(8)) as u64) as usize) as int);
    assert(bytes@.skip(8).len() >= fst_len);
    assert(bytes@.len() == bytes.len());
    let f = copy_bytes(bytes, 8, 8 + fst_len);
    assert(bytes@.skip(8).take(fst_len as int) =~= f@);
    if f.len() < 36 {
        return true;
    }
    let version = read_u64_le(f.as_slice());
    if version < 1 || version > 3 {
        return true;
    }
    let end = if version <= 2 {
        f.len()
    } else {
        f.len() - 4
    };
    let count_bytes = copy_bytes(f.as_slice(), end - 16, end - 8);
    let root_bytes = copy_bytes(f.as_slice(), end - 8, end);
    assert(count_bytes@.take(8) =~= count_bytes@);
    assert(root_bytes@.take(8) =~= root_bytes@);
    let count = read_u64_le(count_bytes.as_slice());
    let root = read_u64_le(root_bytes.as_slice());
    count <= usize::MAX as u64 && root <= usize::MAX as u64
}

/// The mora list that a packed range value (if any) picks out of the blob.
fn blob_morae(value: Option<u64>, blob: &Vec<u8>) -> (r: Option<Vec<String>>)
    ensures
        match r {
            Some(ms) => blob_lookup(value, blob@) == Some(strings_view(ms@)),
            None => blob_lookup(value, blob@) is None,
        },
{
    let v = match value {
        Some(v) => v,
        None => return None,
    };
    let (offset, blob_len) = unpack_range(v);
    assert(blob@.len() == blob.len());
    let range_end = match offset.checked_add(blob_len) {
        Some(e) => e,
        None => return None,
    };
    assert(blob@.len() == blob.len());
    if range_end > blob.len() {
        return None;
    }
    let slice = copy_bytes(blob.as_slice(), offset, range_end);
    match str_from_utf8(slice.as_slice()) {
        Some(joined) => Some(split_morae(joined)),
        None => None,
    }
}

} // verus!
