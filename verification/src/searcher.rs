//! Romaji-mora index search. Text registered via `add_item` has its reading
//! pre-computed into a mora list; `search` matches a romaji query against that
//! list as a contiguous subsequence, so multi-mora queries can match kanji
//! (e.g. "gen" -> 言) the way single-mora queries always could.

use vstd::prelude::*;
use crate::dictionary::SkkDictionary;
use crate::romaji::{
    hiragana_to_morae_with_spans, kana_spans, kata_to_hira, katakana_to_hiragana,
    lemma_kana_spans_within, query_morae_spec, query_to_morae, spans_view, spans_within, MoraSpan,
};
use crate::text::{
    char_lowercase, char_to_lowercase, char_to_string, str_chars, str_lowercase,
    str_to_lowercase, string_from_chars, strings_view,
};

verus! {

// ---------------------------------------------------------------------------
// Specification
// ---------------------------------------------------------------------------

/// The script class of a char, as far as indexing is concerned.
#[derive(Clone, Copy, PartialEq, Eq, Structural)]
pub enum CharKind {
    Ascii,
    Hiragana,
    Katakana,
    Kanji,
    Other,
}

/// The class of `c`; the long vowel mark (ー) belongs to whichever run it
/// extends (katakana when it starts the text).
pub open spec fn classify_spec(c: char, prev: Option<CharKind>) -> CharKind {
    if c == 'ー' {
        match prev {
            Some(k) => k,
            None => CharKind::Katakana,
        }
    } else if (c as u32) < 0x80 {
        CharKind::Ascii
    } else if 0x3041 <= (c as u32) <= 0x309F {
        CharKind::Hiragana
    } else if 0x30A1 <= (c as u32) <= 0x30FF {
        CharKind::Katakana
    } else if 0x4E00 <= (c as u32) <= 0x9FFF {
        CharKind::Kanji
    } else {
        CharKind::Other
    }
}

/// The end of the run of `kind` that continues at `j`.
pub open spec fn run_end_from(chars: Seq<char>, j: int, kind: CharKind) -> int
    decreases chars.len() - j,
{
    if j < 0 || j >= chars.len() {
        chars.len() as int
    } else if classify_spec(chars[j], Some(kind)) != kind {
        j
    } else {
        run_end_from(chars, j + 1, kind)
    }
}

/// A mora list being built, with its segments `(char start, char end, number of morae)`.
pub type Index = (Seq<Seq<char>>, Seq<(int, int, int)>);

/// The index of a kanji run `[i, end)` appended to `acc`: repeatedly the
/// longest dictionary word at `i` with its morae as one segment; a char that
/// starts no dictionary word is skipped and stays unsearchable.
pub open spec fn kanji_run(d: SkkDictionary, chars: Seq<char>, i: int, end: int, acc: Index) -> Index
    decreases end - i,
{
    if i < 0 || i >= end || end > chars.len() {
        acc
    } else {
        proof {
            d.lemma_longest_from_bounds(chars.subrange(i, end), end - i);
        }
        match d.longest_match_spec(chars.subrange(i, end)) {
            Some((len, wm)) => kanji_run(
                d,
                chars,
                i + len,
                end,
                (acc.0 + wm, acc.1.push((i, i + len, wm.len() as int))),
            ),
            None => kanji_run(d, chars, i + 1, end, acc),
        }
    }
}

/// The morae of a list of spans.
pub open spec fn span_morae(spans: Seq<MoraSpan>) -> Seq<Seq<char>> {
    spans.map_values(|t: MoraSpan| t.2)
}

/// The segments of a list of spans of a run starting at char `i`: one mora each.
pub open spec fn span_segments(spans: Seq<MoraSpan>, i: int) -> Seq<(int, int, int)> {
    spans.map_values(|t: MoraSpan| (i + t.0, i + t.1, 1int))
}

/// Each char as a one-char mora.
pub open spec fn char_morae(cs: Seq<char>) -> Seq<Seq<char>> {
    cs.map_values(|c: char| seq![c])
}

/// The index of a kana run `[i, end)` appended to `acc`: its hiragana form's
/// morae, one segment each.
pub open spec fn kana_run(chars: Seq<char>, i: int, end: int, kind: CharKind, acc: Index) -> Index {
    let run = chars.subrange(i, end);
    let hira = if kind == CharKind::Katakana {
        kata_to_hira(run)
    } else {
        run
    };
    let spans = kana_spans(hira);
    (acc.0 + span_morae(spans), acc.1 + span_segments(spans, i))
}

/// The index of the other chars `[i, end)` appended to `acc`: for each char,
/// each char of its lowercase form as a mora, and one segment of that char
/// counting those morae.
pub open spec fn plain_run(chars: Seq<char>, i: int, end: int, acc: Index) -> Index
    decreases end - i,
{
    if i < 0 || i >= end || end > chars.len() {
        acc
    } else {
        plain_run(
            chars,
            i + 1,
            end,
            (
                acc.0 + char_morae(char_lowercase(chars[i])),
                acc.1.push((i, i + 1, char_lowercase(chars[i]).len() as int)),
            ),
        )
    }
}

/// The index of `chars` from `i` on, appended to `acc`, where `prev` is the
/// class of the run before `i`.
pub open spec fn index_from(d: SkkDictionary, chars: Seq<char>, i: int, prev: Option<CharKind>, acc: Index) -> Index
    decreases chars.len() - i,
{
    if i < 0 || i >= chars.len() {
        acc
    } else {
        let kind = classify_spec(chars[i], prev);
        let end = run_end_from(chars, i + 1, kind);
        proof {
            lemma_run_end_bounds(chars, i + 1, kind);
        }
        let acc2 = match kind {
            CharKind::Kanji => kanji_run(d, chars, i, end, acc),
            CharKind::Hiragana | CharKind::Katakana => kana_run(chars, i, end, kind, acc),
            _ => plain_run(chars, i, end, acc),
        };
        index_from(d, chars, end, Some(kind), acc2)
    }
}

/// The mora list and segments that indexing `text` with `d` gives.
pub open spec fn index_text(d: SkkDictionary, text: Seq<char>) -> Index {
    index_from(d, text, 0, None, (seq![], seq![]))
}

/// A run ends after its first char and within the text.
pub proof fn lemma_run_end_bounds(chars: Seq<char>, j: int, kind: CharKind)
    requires
        0 <= j <= chars.len(),
    ensures
        j <= run_end_from(chars, j, kind) <= chars.len(),
        forall|k: int| j <= k < run_end_from(chars, j, kind) ==> classify_spec(#[trigger] chars[k], Some(kind)) == kind,
        run_end_from(chars, j, kind) < chars.len() ==> classify_spec(chars[run_end_from(chars, j, kind)], Some(kind)) != kind,
    decreases chars.len() - j,
{
    if j < chars.len() && classify_spec(chars[j], Some(kind)) == kind {
        lemma_run_end_bounds(chars, j + 1, kind);
    }
}

/// The first position at or after `i` where `needle` occurs in `hay`.
pub open spec fn first_window<T>(hay: Seq<T>, needle: Seq<T>, i: int) -> Option<int>
    decreases hay.len() + 1 - i,
{
    if i < 0 || i + needle.len() > hay.len() {
        None
    } else if hay.subrange(i, i + needle.len() as int) == needle {
        Some(i)
    } else {
        first_window(hay, needle, i + 1)
    }
}

/// Where a nonempty query mora list first occurs contiguously in an item's.
pub open spec fn mora_window(item: Seq<Seq<char>>, query: Seq<Seq<char>>) -> Option<int> {
    if query.len() == 0 || query.len() > item.len() {
        None
    } else {
        first_window(item, query, 0)
    }
}

/// The chars `[a, b)` as positions.
pub open spec fn range_positions(a: int, b: int) -> Seq<int> {
    Seq::new(if b > a { (b - a) as nat } else { 0 }, |k: int| a + k)
}

/// The char positions of the segments (from the `k`-th on, the first of which
/// starts at mora `cursor`) that overlap the morae `[start, end)`.
pub open spec fn highlight_from(segs: Seq<(int, int, int)>, k: int, cursor: int, start: int, end: int) -> Seq<int>
    decreases segs.len() - k,
{
    if k < 0 || k >= segs.len() {
        seq![]
    } else {
        let seg_end = cursor + segs[k].2;
        let here = if seg_end > start && cursor < end {
            range_positions(segs[k].0, segs[k].1)
        } else {
            seq![]
        };
        here + highlight_from(segs, k + 1, seg_end, start, end)
    }
}

/// The score of a match of `matched` units starting at unit `start` of `total`:
/// longer matches first, then earlier ones (saturating at `i64::MAX`).
pub open spec fn score_spec(matched: int, start: int, total: int) -> int {
    let s = matched * 100 + if total - start > 0 { total - start } else { 0 };
    if s > i64::MAX {
        i64::MAX as int
    } else {
        s
    }
}

/// Highlight positions and score of `text` against a query, if it matches:
/// as a contiguous mora subsequence, or else as a plain case-insensitive
/// substring.
pub open spec fn match_text(d: SkkDictionary, text: Seq<char>, query: Seq<char>) -> Option<(Seq<int>, int)> {
    let idx = index_text(d, text);
    let qm = query_morae_spec(query);
    let ql = str_lowercase(query);
    match mora_window(idx.0, qm) {
        Some(start) => Some(
            (
                highlight_from(idx.1, 0, 0, start, start + qm.len()),
                score_spec(qm.len() as int, start, idx.0.len() as int),
            ),
        ),
        None => {
            let lower = str_lowercase(text);
            if ql.len() > 0 && ql.len() <= lower.len() && first_window(lower, ql, 0) is Some {
                let start = first_window(lower, ql, 0)->0;
                Some(
                    (
                        range_positions(start, start + ql.len()).filter(|p: int| p < text.len()),
                        score_spec(ql.len() as int, start, text.len() as int),
                    ),
                )
            } else {
                None
            }
        },
    }
}

/// The hits among `texts` from the `k`-th on: index, highlight, score.
pub open spec fn search_from(d: SkkDictionary, texts: Seq<Seq<char>>, query: Seq<char>, k: int) -> Seq<(int, Seq<int>, int)>
    decreases texts.len() - k,
{
    if k < 0 || k >= texts.len() {
        seq![]
    } else {
        let rest = search_from(d, texts, query, k + 1);
        match match_text(d, texts[k], query) {
            Some((h, s)) => seq![(k, h, s)] + rest,
            None => rest,
        }
    }
}

/// Every hit names one of the texts searched, from the `k`-th on.
pub proof fn lemma_search_from_indices(d: SkkDictionary, texts: Seq<Seq<char>>, query: Seq<char>, k: int)
    requires
        0 <= k,
    ensures
        forall|j: int|
            0 <= j < search_from(d, texts, query, k).len() ==> k <= #[trigger] search_from(d, texts, query, k)[j].0
                < texts.len(),
    decreases texts.len() - k,
{
    if k < texts.len() {
        lemma_search_from_indices(d, texts, query, k + 1);
        let rest = search_from(d, texts, query, k + 1);
        let all = search_from(d, texts, query, k);
        match match_text(d, texts[k], query) {
            Some((h, sc)) => {
                assert forall|j: int| 0 <= j < all.len() implies k <= #[trigger] all[j].0 < texts.len() by {
                    if j > 0 {
                        assert(all[j] == rest[j - 1]);
                    }
                }
            },
            None => {},
        }
    }
}

// ---------------------------------------------------------------------------
// Laws
// ---------------------------------------------------------------------------

/// Segments lie within the first `n` chars.
pub open spec fn segs_within(segs: Seq<(int, int, int)>, n: int) -> bool {
    forall|k: int| 0 <= k < segs.len() ==> 0 <= #[trigger] segs[k].0 && segs[k].1 <= n
}

proof fn lemma_kanji_run_within(d: SkkDictionary, chars: Seq<char>, i: int, end: int, acc: Index)
    requires
        segs_within(acc.1, chars.len() as int),
        end <= chars.len(),
    ensures
        segs_within(kanji_run(d, chars, i, end, acc).1, chars.len() as int),
    decreases end - i,
{
    if !(i < 0 || i >= end || end > chars.len()) {
        d.lemma_longest_from_bounds(chars.subrange(i, end), end - i);
        match d.longest_match_spec(chars.subrange(i, end)) {
            Some((len, wm)) => {
                let next = (acc.0 + wm, acc.1.push((i, i + len, wm.len() as int)));
                assert(segs_within(next.1, chars.len() as int)) by {
                    assert forall|k: int| 0 <= k < next.1.len() implies 0 <= #[trigger] next.1[k].0 && next.1[k].1
                        <= chars.len() by {
                        if k < acc.1.len() {
                            assert(next.1[k] == acc.1[k]);
                        }
                    }
                }
                lemma_kanji_run_within(d, chars, i + len, end, next);
            },
            None => {
                lemma_kanji_run_within(d, chars, i + 1, end, acc);
            },
        }
    }
}

proof fn lemma_plain_run_within(chars: Seq<char>, i: int, end: int, acc: Index)
    requires
        segs_within(acc.1, chars.len() as int),
    ensures
        segs_within(plain_run(chars, i, end, acc).1, chars.len() as int),
    decreases end - i,
{
    if !(i < 0 || i >= end || end > chars.len()) {
        let next = (
            acc.0 + char_morae(char_lowercase(chars[i])),
            acc.1.push((i, i + 1, char_lowercase(chars[i]).len() as int)),
        );
        assert(segs_within(next.1, chars.len() as int)) by {
            assert forall|k: int| 0 <= k < next.1.len() implies 0 <= #[trigger] next.1[k].0 && next.1[k].1
                <= chars.len() by {
                if k < acc.1.len() {
                    assert(next.1[k] == acc.1[k]);
                }
            }
        }
        lemma_plain_run_within(chars, i + 1, end, next);
    }
}

proof fn lemma_kana_run_within(chars: Seq<char>, i: int, end: int, kind: CharKind, acc: Index)
    requires
        segs_within(acc.1, chars.len() as int),
        0 <= i <= end <= chars.len(),
    ensures
        segs_within(kana_run(chars, i, end, kind, acc).1, chars.len() as int),
{
    let run = chars.subrange(i, end);
    let hira = if kind == CharKind::Katakana {
        kata_to_hira(run)
    } else {
        run
    };
    assert(hira.len() == end - i);
    let spans = kana_spans(hira);
    lemma_kana_spans_within(hira);
    let segs = acc.1 + span_segments(spans, i);
    assert forall|k: int| 0 <= k < segs.len() implies 0 <= #[trigger] segs[k].0 && segs[k].1 <= chars.len() by {
        if k < acc.1.len() {
            assert(segs[k] == acc.1[k]);
        } else {
            let t = spans[k - acc.1.len()];
            assert(segs[k] == (i + t.0, i + t.1, 1int));
        }
    }
}

proof fn lemma_index_from_within(d: SkkDictionary, chars: Seq<char>, i: int, prev: Option<CharKind>, acc: Index)
    requires
        segs_within(acc.1, chars.len() as int),
    ensures
        segs_within(index_from(d, chars, i, prev, acc).1, chars.len() as int),
    decreases chars.len() - i,
{
    if !(i < 0 || i >= chars.len()) {
        let kind = classify_spec(chars[i], prev);
        let end = run_end_from(chars, i + 1, kind);
        lemma_run_end_bounds(chars, i + 1, kind);
        let acc2 = match kind {
            CharKind::Kanji => kanji_run(d, chars, i, end, acc),
            CharKind::Hiragana | CharKind::Katakana => kana_run(chars, i, end, kind, acc),
            _ => plain_run(chars, i, end, acc),
        };
        match kind {
            CharKind::Kanji => lemma_kanji_run_within(d, chars, i, end, acc),
            CharKind::Hiragana | CharKind::Katakana => lemma_kana_run_within(chars, i, end, kind, acc),
            _ => lemma_plain_run_within(chars, i, end, acc),
        }
        lemma_index_from_within(d, chars, end, Some(kind), acc2);
    }
}

/// The number of morae that a list of segments accounts for.
pub open spec fn seg_morae_total(segs: Seq<(int, int, int)>) -> int
    decreases segs.len(),
{
    if segs.len() == 0 {
        0
    } else {
        seg_morae_total(segs.drop_last()) + segs.last().2
    }
}

/// An index whose segments account for exactly its morae.
pub open spec fn index_counted(acc: Index) -> bool {
    seg_morae_total(acc.1) == acc.0.len()
}

proof fn lemma_total_append_ones(a: Seq<(int, int, int)>, ss: Seq<(int, int, int)>)
    requires
        forall|k: int| 0 <= k < ss.len() ==> (#[trigger] ss[k]).2 == 1,
    ensures
        seg_morae_total(a + ss) == seg_morae_total(a) + ss.len(),
    decreases ss.len(),
{
    if ss.len() > 0 {
        lemma_total_append_ones(a, ss.drop_last());
        assert((a + ss).drop_last() =~= a + ss.drop_last());
        assert(ss[ss.len() - 1].2 == 1);
    } else {
        assert(a + ss =~= a);
    }
}

proof fn lemma_kanji_run_counted(d: SkkDictionary, chars: Seq<char>, i: int, end: int, acc: Index)
    requires
        index_counted(acc),
    ensures
        index_counted(kanji_run(d, chars, i, end, acc)),
    decreases end - i,
{
    if !(i < 0 || i >= end || end > chars.len()) {
        d.lemma_longest_from_bounds(chars.subrange(i, end), end - i);
        match d.longest_match_spec(chars.subrange(i, end)) {
            Some((len, wm)) => {
                let next = (acc.0 + wm, acc.1.push((i, i + len, wm.len() as int)));
                assert(next.1.drop_last() =~= acc.1);
                lemma_kanji_run_counted(d, chars, i + len, end, next);
            },
            None => {
                lemma_kanji_run_counted(d, chars, i + 1, end, acc);
            },
        }
    }
}

proof fn lemma_plain_run_counted(chars: Seq<char>, i: int, end: int, acc: Index)
    requires
        index_counted(acc),
    ensures
        index_counted(plain_run(chars, i, end, acc)),
    decreases end - i,
{
    if !(i < 0 || i >= end || end > chars.len()) {
        let lc = char_lowercase(chars[i]);
        let next = (acc.0 + char_morae(lc), acc.1.push((i, i + 1, lc.len() as int)));
        assert(next.1.drop_last() =~= acc.1);
        lemma_plain_run_counted(chars, i + 1, end, next);
    }
}

proof fn lemma_kana_run_counted(chars: Seq<char>, i: int, end: int, kind: CharKind, acc: Index)
    requires
        index_counted(acc),
    ensures
        index_counted(kana_run(chars, i, end, kind, acc)),
{
    let run = chars.subrange(i, end);
    let hira = if kind == CharKind::Katakana {
        kata_to_hira(run)
    } else {
        run
    };
    let spans = kana_spans(hira);
    let ss = span_segments(spans, i);
    assert forall|k: int| 0 <= k < ss.len() implies (#[trigger] ss[k]).2 == 1 by {}
    lemma_total_append_ones(acc.1, ss);
}

proof fn lemma_index_from_counted(d: SkkDictionary, chars: Seq<char>, i: int, prev: Option<CharKind>, acc: Index)
    requires
        index_counted(acc),
    ensures
        index_counted(index_from(d, chars, i, prev, acc)),
    decreases chars.len() - i,
{
    if !(i < 0 || i >= chars.len()) {
        let kind = classify_spec(chars[i], prev);
        let end = run_end_from(chars, i + 1, kind);
        lemma_run_end_bounds(chars, i + 1, kind);
        let acc2 = match kind {
            CharKind::Kanji => kanji_run(d, chars, i, end, acc),
            CharKind::Hiragana | CharKind::Katakana => kana_run(chars, i, end, kind, acc),
            _ => plain_run(chars, i, end, acc),
        };
        match kind {
            CharKind::Kanji => lemma_kanji_run_counted(d, chars, i, end, acc),
            CharKind::Hiragana | CharKind::Katakana => lemma_kana_run_counted(chars, i, end, kind, acc),
            _ => lemma_plain_run_counted(chars, i, end, acc),
        }
        lemma_index_from_counted(d, chars, end, Some(kind), acc2);
    }
}

/// The segments of an indexed text account for all of its morae: their mora
/// counts add up to the length of its mora list, so a matched mora range maps
/// back to the chars that produced it.
pub proof fn lemma_index_segments_count_morae(d: SkkDictionary, text: Seq<char>)
    ensures
        seg_morae_total(index_text(d, text).1) == index_text(d, text).0.len(),
{
    let empty: Index = (seq![], seq![]);
    assert(index_counted(empty));
    lemma_index_from_counted(d, text, 0, None, empty);
}

proof fn lemma_highlight_from_within(segs: Seq<(int, int, int)>, k: int, cursor: int, start: int, end: int, n: int)
    requires
        segs_within(segs, n),
    ensures
        forall|j: int|
            0 <= j < highlight_from(segs, k, cursor, start, end).len() ==> 0 <= #[trigger] highlight_from(
                segs,
                k,
                cursor,
                start,
                end,
            )[j] < n,
    decreases segs.len() - k,
{
    if !(k < 0 || k >= segs.len()) {
        let seg_end = cursor + segs[k].2;
        lemma_highlight_from_within(segs, k + 1, seg_end, start, end, n);
        let here = if seg_end > start && cursor < end {
            range_positions(segs[k].0, segs[k].1)
        } else {
            seq![]
        };
        let all = highlight_from(segs, k, cursor, start, end);
        let rest = highlight_from(segs, k + 1, seg_end, start, end);
        assert(all == here + rest);
        assert forall|j: int| 0 <= j < all.len() implies 0 <= #[trigger] all[j] < n by {
            if j < here.len() {
                assert(here[j] == segs[k].0 + j);
            } else {
                assert(all[j] == rest[j - here.len()]);
            }
        }
    }
}

/// The positions a match highlights are positions of the text.
pub proof fn lemma_match_positions_within(d: SkkDictionary, text: Seq<char>, query: Seq<char>)
    ensures
        match_text(d, text, query) matches Some((h, _)) ==> forall|j: int|
            0 <= j < h.len() ==> 0 <= #[trigger] h[j] < text.len(),
{
    lemma_index_from_within(d, text, 0, None, (seq![], seq![]));
    let idx = index_text(d, text);
    let qm = query_morae_spec(query);
    match mora_window(idx.0, qm) {
        Some(start) => {
            lemma_highlight_from_within(idx.1, 0, 0, start, start + qm.len(), text.len() as int);
        },
        None => {
            let ql = str_lowercase(query);
            let lower = str_lowercase(text);
            if ql.len() > 0 && ql.len() <= lower.len() && first_window(lower, ql, 0) is Some {
                let st = first_window(lower, ql, 0)->0;
                let h = range_positions(st, st + ql.len()).filter(|p: int| p < text.len());
                let src = range_positions(st, st + ql.len());
                let pred = |p: int| p < text.len();
                lemma_first_window_bounds(lower, ql, 0);
                assert forall|j: int| 0 <= j < h.len() implies 0 <= #[trigger] h[j] < text.len() by {
                    src.lemma_filter_pred(pred, j);
                    assert(h.contains(h[j]));
                    src.lemma_filter_contains_rev(pred, h[j]);
                    let k = choose|k: int| 0 <= k < src.len() && src[k] == h[j];
                    assert(src[k] == st + k);
                }
            }
        },
    }
}

/// Positions in strictly increasing order.
pub open spec fn increasing(s: Seq<int>) -> bool {
    forall|i: int, j: int| 0 <= i < j < s.len() ==> s[i] < s[j]
}

/// Segments within `[0, n]`, each covering at least one char, each ending
/// before the next one starts.
pub open spec fn segs_ordered(segs: Seq<(int, int, int)>, n: int) -> bool {
    &&& forall|k: int| 0 <= k < segs.len() ==> 0 <= #[trigger] segs[k].0 < segs[k].1 <= n
    &&& forall|k: int, l: int| 0 <= k < l < segs.len() ==> #[trigger] segs[k].1 <= #[trigger] segs[l].0
}

proof fn lemma_segs_ordered_widen(segs: Seq<(int, int, int)>, n: int, m: int)
    requires
        segs_ordered(segs, n),
        n <= m,
    ensures
        segs_ordered(segs, m),
{
}

proof fn lemma_segs_ordered_push(segs: Seq<(int, int, int)>, n: int, seg: (int, int, int), m: int)
    requires
        segs_ordered(segs, n),
        0 <= n <= seg.0 < seg.1 <= m,
    ensures
        segs_ordered(segs.push(seg), m),
{
    let t = segs.push(seg);
    assert forall|k: int, l: int| 0 <= k < l < t.len() implies #[trigger] t[k].1 <= #[trigger] t[l].0 by {
        if l < segs.len() {
            assert(t[k] == segs[k] && t[l] == segs[l]);
        } else {
            assert(t[k] == segs[k] && t[l] == seg);
            assert(0 <= segs[k].0 < segs[k].1 <= n);
        }
    }
    assert forall|k: int| 0 <= k < t.len() implies 0 <= #[trigger] t[k].0 < t[k].1 <= m by {
        if k < segs.len() {
            assert(t[k] == segs[k]);
            assert(0 <= segs[k].0 < segs[k].1 <= n);
        } else {
            assert(t[k] == seg);
        }
    }
}

proof fn lemma_kanji_run_ordered(d: SkkDictionary, chars: Seq<char>, i: int, end: int, acc: Index)
    requires
        segs_ordered(acc.1, i),
        0 <= i <= end <= chars.len(),
    ensures
        segs_ordered(kanji_run(d, chars, i, end, acc).1, end),
    decreases end - i,
{
    if i < end {
        d.lemma_longest_from_bounds(chars.subrange(i, end), end - i);
        match d.longest_match_spec(chars.subrange(i, end)) {
            Some((len, wm)) => {
                let next = (acc.0 + wm, acc.1.push((i, i + len, wm.len() as int)));
                lemma_segs_ordered_push(acc.1, i, (i, i + len, wm.len() as int), i + len);
                lemma_kanji_run_ordered(d, chars, i + len, end, next);
            },
            None => {
                lemma_segs_ordered_widen(acc.1, i, i + 1);
                lemma_kanji_run_ordered(d, chars, i + 1, end, acc);
            },
        }
    }
}

proof fn lemma_plain_run_ordered(chars: Seq<char>, i: int, end: int, acc: Index)
    requires
        segs_ordered(acc.1, i),
        0 <= i <= end <= chars.len(),
    ensures
        segs_ordered(plain_run(chars, i, end, acc).1, end),
    decreases end - i,
{
    if i < end {
        let lc = char_lowercase(chars[i]);
        let next = (acc.0 + char_morae(lc), acc.1.push((i, i + 1, lc.len() as int)));
        lemma_segs_ordered_push(acc.1, i, (i, i + 1, lc.len() as int), i + 1);
        lemma_plain_run_ordered(chars, i + 1, end, next);
    }
}

proof fn lemma_spans_pairwise(spans: Seq<MoraSpan>, lo: int, hi: int, k: int, l: int)
    requires
        spans_within(spans, lo, hi),
        0 <= k < l < spans.len(),
    ensures
        spans[k].1 <= spans[l].0,
    decreases l - k,
{
    if k + 1 < l {
        lemma_spans_pairwise(spans, lo, hi, k, l - 1);
        assert(spans[l - 1].0 < spans[l - 1].1);
        assert(spans[l - 1].1 <= spans[l].0);
    } else {
        assert(spans[l - 1].1 <= spans[l].0);
    }
}

proof fn lemma_kana_run_ordered(chars: Seq<char>, i: int, end: int, kind: CharKind, acc: Index)
    requires
        segs_ordered(acc.1, i),
        0 <= i <= end <= chars.len(),
    ensures
        segs_ordered(kana_run(chars, i, end, kind, acc).1, end),
{
    let run = chars.subrange(i, end);
    let hira = if kind == CharKind::Katakana {
        kata_to_hira(run)
    } else {
        run
    };
    assert(hira.len() == end - i);
    let spans = kana_spans(hira);
    lemma_kana_spans_within(hira);
    let ss = span_segments(spans, i);
    let segs = acc.1 + ss;
    assert forall|k: int| 0 <= k < segs.len() implies 0 <= #[trigger] segs[k].0 < segs[k].1 <= end by {
        if k < acc.1.len() {
            assert(segs[k] == acc.1[k]);
            assert(0 <= acc.1[k].0 < acc.1[k].1 <= i);
        } else {
            let t = spans[k - acc.1.len()];
            assert(segs[k] == (i + t.0, i + t.1, 1int));
            assert(0 <= t.0 < t.1 <= hira.len());
        }
    }
    assert forall|k: int, l: int| 0 <= k < l < segs.len() implies #[trigger] segs[k].1 <= #[trigger] segs[l].0 by {
        let a = acc.1.len() as int;
        if l < a {
            assert(segs[k] == acc.1[k] && segs[l] == acc.1[l]);
        } else if k < a {
            assert(segs[k] == acc.1[k]);
            assert(0 <= acc.1[k].0 < acc.1[k].1 <= i);
            let t = spans[l - a];
            assert(segs[l] == (i + t.0, i + t.1, 1int));
            assert(0 <= t.0 < t.1 <= hira.len());
        } else {
            assert(segs[k] == (i + spans[k - a].0, i + spans[k - a].1, 1int));
            assert(segs[l] == (i + spans[l - a].0, i + spans[l - a].1, 1int));
            lemma_spans_pairwise(spans, 0, hira.len() as int, k - a, l - a);
        }
    }
}

proof fn lemma_index_from_ordered(d: SkkDictionary, chars: Seq<char>, i: int, prev: Option<CharKind>, acc: Index)
    requires
        segs_ordered(acc.1, i),
        0 <= i <= chars.len(),
    ensures
        segs_ordered(index_from(d, chars, i, prev, acc).1, chars.len() as int),
    decreases chars.len() - i,
{
    if i < chars.len() {
        let kind = classify_spec(chars[i], prev);
        let end = run_end_from(chars, i + 1, kind);
        lemma_run_end_bounds(chars, i + 1, kind);
        let acc2 = match kind {
            CharKind::Kanji => kanji_run(d, chars, i, end, acc),
            CharKind::Hiragana | CharKind::Katakana => kana_run(chars, i, end, kind, acc),
            _ => plain_run(chars, i, end, acc),
        };
        match kind {
            CharKind::Kanji => lemma_kanji_run_ordered(d, chars, i, end, acc),
            CharKind::Hiragana | CharKind::Katakana => lemma_kana_run_ordered(chars, i, end, kind, acc),
            _ => lemma_plain_run_ordered(chars, i, end, acc),
        }
        lemma_index_from_ordered(d, chars, end, Some(kind), acc2);
    }
}

/// The segments of an indexed text lie within it, each covering at least one
/// char, in increasing order without overlapping.
pub proof fn lemma_index_segments_ordered(d: SkkDictionary, text: Seq<char>)
    ensures
        segs_ordered(index_text(d, text).1, text.len() as int),
{
    let empty: Index = (seq![], seq![]);
    lemma_index_from_ordered(d, text, 0, None, empty);
}

proof fn lemma_highlight_from_increasing(segs: Seq<(int, int, int)>, k: int, cursor: int, start: int, end: int, n: int)
    requires
        segs_ordered(segs, n),
        0 <= k,
    ensures
        increasing(highlight_from(segs, k, cursor, start, end)),
        k < segs.len() ==> forall|j: int|
            0 <= j < highlight_from(segs, k, cursor, start, end).len() ==> segs[k].0 <= #[trigger] highlight_from(
                segs,
                k,
                cursor,
                start,
                end,
            )[j],
    decreases segs.len() - k,
{
    if k < segs.len() {
        let seg_end = cursor + segs[k].2;
        let here = if seg_end > start && cursor < end {
            range_positions(segs[k].0, segs[k].1)
        } else {
            seq![]
        };
        let rest = highlight_from(segs, k + 1, seg_end, start, end);
        lemma_highlight_from_increasing(segs, k + 1, seg_end, start, end, n);
        let h = here + rest;
        assert(h == highlight_from(segs, k, cursor, start, end));
        assert forall|j: int| 0 <= j < rest.len() implies segs[k].1 <= #[trigger] rest[j] by {
            assert(k + 1 < segs.len());
            assert(segs[k].1 <= segs[k + 1].0);
        }
        assert forall|j: int| 0 <= j < here.len() implies segs[k].0 <= #[trigger] here[j] && here[j] < segs[k].1 by {}
        assert forall|a: int, b: int| 0 <= a < b < h.len() implies h[a] < h[b] by {
            if b < here.len() {
            } else if a < here.len() {
                assert(h[a] == here[a] && h[b] == rest[b - here.len()]);
            } else {
                assert(h[a] == rest[a - here.len()] && h[b] == rest[b - here.len()]);
            }
        }
        assert forall|j: int| 0 <= j < h.len() implies segs[k].0 <= #[trigger] h[j] by {
            if j >= here.len() {
                assert(h[j] == rest[j - here.len()]);
            }
        }
    }
}

proof fn lemma_filter_increasing(s: Seq<int>, pred: spec_fn(int) -> bool)
    requires
        increasing(s),
    ensures
        increasing(s.filter(pred)),
    decreases s.len(),
{
    reveal(Seq::filter);
    if s.len() > 0 {
        let d = s.drop_last();
        lemma_filter_increasing(d, pred);
        let f = d.filter(pred);
        if pred(s.last()) {
            let g = f.push(s.last());
            assert forall|a: int, b: int| 0 <= a < b < g.len() implies g[a] < g[b] by {
                if b == f.len() {
                    assert(f.contains(f[a]));
                    d.lemma_filter_contains_rev(pred, f[a]);
                    let k = choose|k: int| 0 <= k < d.len() && d[k] == f[a];
                    assert(s[k] == d[k]);
                    assert(s[k] < s[s.len() - 1]);
                } else {
                    assert(g[a] == f[a] && g[b] == f[b]);
                }
            }
        }
    }
}

/// The positions a match highlights come in strictly increasing order.
pub proof fn lemma_match_positions_increasing(d: SkkDictionary, text: Seq<char>, query: Seq<char>)
    ensures
        match_text(d, text, query) matches Some((h, _)) ==> increasing(h),
{
    let empty: Index = (seq![], seq![]);
    lemma_index_from_ordered(d, text, 0, None, empty);
    let idx = index_text(d, text);
    let qm = query_morae_spec(query);
    match mora_window(idx.0, qm) {
        Some(start) => {
            lemma_highlight_from_increasing(idx.1, 0, 0, start, start + qm.len(), text.len() as int);
        },
        None => {
            let ql = str_lowercase(query);
            let lower = str_lowercase(text);
            if ql.len() > 0 && ql.len() <= lower.len() && first_window(lower, ql, 0) is Some {
                let st = first_window(lower, ql, 0)->0;
                let src = range_positions(st, st + ql.len());
                assert(increasing(src));
                lemma_filter_increasing(src, |p: int| p < text.len());
            }
        },
    }
}

proof fn lemma_highlight_covers(segs: Seq<(int, int, int)>, k: int, s: int, e: int)
    requires
        0 <= k <= segs.len(),
        seg_morae_total(segs.take(k)) <= s < seg_morae_total(segs),
        s < e,
    ensures
        exists|j: int|
            #![trigger segs[j]]
            k <= j < segs.len() && seg_morae_total(segs.take(j)) <= s < seg_morae_total(segs.take(j + 1))
                && forall|p: int|
                segs[j].0 <= p < segs[j].1 ==> #[trigger] highlight_from(
                    segs,
                    k,
                    seg_morae_total(segs.take(k)),
                    s,
                    e,
                ).contains(p),
    decreases segs.len() - k,
{
    assert(segs.take(segs.len() as int) =~= segs);
    assert(k < segs.len());
    let c = seg_morae_total(segs.take(k));
    assert(segs.take(k + 1).drop_last() =~= segs.take(k));
    let c1 = seg_morae_total(segs.take(k + 1));
    assert(c1 == c + segs[k].2);
    let here = if c1 > s && c < e {
        range_positions(segs[k].0, segs[k].1)
    } else {
        seq![]
    };
    let rest = highlight_from(segs, k + 1, c1, s, e);
    let h = highlight_from(segs, k, c, s, e);
    assert(h == here + rest);
    if s < c1 {
        assert forall|p: int| segs[k].0 <= p < segs[k].1 implies #[trigger] h.contains(p) by {
            assert(here[p - segs[k].0] == p);
            assert(h[p - segs[k].0] == p);
        }
    } else {
        lemma_highlight_covers(segs, k + 1, s, e);
        let j = choose|j: int|
            #![trigger segs[j]]
            k + 1 <= j < segs.len() && seg_morae_total(segs.take(j)) <= s < seg_morae_total(segs.take(j + 1))
                && forall|p: int| segs[j].0 <= p < segs[j].1 ==> #[trigger] rest.contains(p);
        assert forall|p: int| segs[j].0 <= p < segs[j].1 implies #[trigger] h.contains(p) by {
            assert(rest.contains(p));
            let q = choose|q: int| 0 <= q < rest.len() && rest[q] == p;
            assert(h[here.len() + q] == p);
        }
    }
}

/// A mora match highlights every char of the segment (the kanji word, kana
/// or other char) that its first matched mora comes from, even where the
/// query matches that segment's reading only in part (`jin` in 人事 reads
/// じんじ): the highlight of a mora match is never empty.
pub proof fn lemma_mora_match_highlights_segment(d: SkkDictionary, text: Seq<char>, query: Seq<char>)
    requires
        mora_window(index_text(d, text).0, query_morae_spec(query)) is Some,
    ensures
        match_text(d, text, query) matches Some((h, _)) && h.len() > 0 && exists|j: int|
            #![trigger index_text(d, text).1[j]]
            0 <= j < index_text(d, text).1.len() && seg_morae_total(index_text(d, text).1.take(j)) <= mora_window(
                index_text(d, text).0,
                query_morae_spec(query),
            )->0 < seg_morae_total(index_text(d, text).1.take(j + 1)) && forall|p: int|
                index_text(d, text).1[j].0 <= p < index_text(d, text).1[j].1 ==> #[trigger] h.contains(p),
{
    let idx = index_text(d, text);
    let segs = idx.1;
    let qm = query_morae_spec(query);
    let st = mora_window(idx.0, qm)->0;
    lemma_first_window_bounds(idx.0, qm, 0);
    lemma_index_segments_count_morae(d, text);
    lemma_index_segments_ordered(d, text);
    assert(segs.take(0) =~= Seq::<(int, int, int)>::empty());
    lemma_highlight_covers(segs, 0, st, st + qm.len());
    let h = highlight_from(segs, 0, 0, st, st + qm.len());
    let j = choose|j: int|
        #![trigger segs[j]]
        0 <= j < segs.len() && seg_morae_total(segs.take(j)) <= st < seg_morae_total(segs.take(j + 1)) && forall|p: int|
            segs[j].0 <= p < segs[j].1 ==> #[trigger] h.contains(p);
    assert(segs[j].0 < segs[j].1);
    assert(h.contains(segs[j].0));
}

/// A window found by `first_window` lies within the haystack, from `i` on.
pub proof fn lemma_first_window_bounds<T>(hay: Seq<T>, needle: Seq<T>, i: int)
    ensures
        first_window(hay, needle, i) matches Some(w) ==> i <= w && 0 <= w && w + needle.len() <= hay.len(),
    decreases hay.len() + 1 - i,
{
    if !(i < 0 || i + needle.len() > hay.len()) && hay.subrange(i, i + needle.len() as int) != needle {
        lemma_first_window_bounds(hay, needle, i + 1);
    }
}

/// Each search hit is a matching text with its own highlight and score, in
/// order of registration, and every matching text is hit.
pub proof fn lemma_search_hits(d: SkkDictionary, texts: Seq<Seq<char>>, query: Seq<char>, k: int)
    requires
        0 <= k,
    ensures
        forall|j: int|
            0 <= j < search_from(d, texts, query, k).len() ==> {
                let h = #[trigger] search_from(d, texts, query, k)[j];
                &&& k <= h.0 < texts.len()
                &&& match_text(d, texts[h.0], query) == Some((h.1, h.2))
            },
        forall|a: int, b: int|
            0 <= a < b < search_from(d, texts, query, k).len() ==> #[trigger] search_from(d, texts, query, k)[a].0
                < #[trigger] search_from(d, texts, query, k)[b].0,
        forall|x: int|
            k <= x < texts.len() && #[trigger] match_text(d, texts[x], query) is Some ==> exists|j: int|
                0 <= j < search_from(d, texts, query, k).len() && search_from(d, texts, query, k)[j].0 == x,
    decreases texts.len() - k,
{
    if k < texts.len() {
        lemma_search_hits(d, texts, query, k + 1);
        let rest = search_from(d, texts, query, k + 1);
        let all = search_from(d, texts, query, k);
        match match_text(d, texts[k], query) {
            Some((h, sc)) => {
                assert(all == seq![(k, h, sc)] + rest);
                assert forall|j: int| 0 < j < all.len() implies all[j] == rest[j - 1] by {}
                assert forall|x: int|
                    k <= x < texts.len() && #[trigger] match_text(d, texts[x], query) is Some implies exists|j: int|
                        0 <= j < all.len() && all[j].0 == x by {
                    if x == k {
                        assert(all[0].0 == x);
                    } else {
                        let j = choose|j: int| 0 <= j < rest.len() && rest[j].0 == x;
                        assert(all[j + 1].0 == x);
                    }
                }
            },
            None => {
                assert(all == rest);
            },
        }
    }
}

/// Registering one more text adds its hit, if any, after the others.
pub proof fn lemma_search_after_add(d: SkkDictionary, texts: Seq<Seq<char>>, t: Seq<char>, query: Seq<char>, k: int)
    requires
        0 <= k <= texts.len(),
    ensures
        search_from(d, texts.push(t), query, k) == search_from(d, texts, query, k) + match match_text(d, t, query) {
            Some((h, sc)) => seq![(texts.len() as int, h, sc)],
            None => Seq::<(int, Seq<int>, int)>::empty(),
        },
    decreases texts.len() - k,
{
    let tail = match match_text(d, t, query) {
        Some((h, sc)) => seq![(texts.len() as int, h, sc)],
        None => Seq::<(int, Seq<int>, int)>::empty(),
    };
    let ext = texts.push(t);
    if k == texts.len() {
        assert(ext[k] == t);
        assert(search_from(d, ext, query, k + 1) =~= Seq::<(int, Seq<int>, int)>::empty());
        assert(search_from(d, texts, query, k) =~= Seq::<(int, Seq<int>, int)>::empty());
        assert(search_from(d, ext, query, k) =~= Seq::<(int, Seq<int>, int)>::empty() + tail);
    } else {
        lemma_search_after_add(d, texts, t, query, k + 1);
        assert(ext[k] == texts[k]);
        match match_text(d, texts[k], query) {
            Some((h, sc)) => {
                assert(seq![(k, h, sc)] + (search_from(d, texts, query, k + 1) + tail) =~= (seq![(k, h, sc)]
                    + search_from(d, texts, query, k + 1)) + tail);
            },
            None => {},
        }
    }
}

/// The hits without the one on text `i`, those after it renumbered one down.
pub open spec fn hits_without(hits: Seq<(int, Seq<int>, int)>, i: int) -> Seq<(int, Seq<int>, int)>
    decreases hits.len(),
{
    if hits.len() == 0 {
        seq![]
    } else {
        let h = hits[0];
        let rest = hits_without(hits.drop_first(), i);
        if h.0 == i {
            rest
        } else if h.0 > i {
            seq![(h.0 - 1, h.1, h.2)] + rest
        } else {
            seq![h] + rest
        }
    }
}

proof fn lemma_search_after_remove_tail(d: SkkDictionary, texts: Seq<Seq<char>>, i: int, query: Seq<char>, k: int)
    requires
        0 <= i < texts.len(),
        i <= k <= texts.len() - 1,
    ensures
        search_from(d, texts.remove(i), query, k) == hits_without(search_from(d, texts, query, k + 1), i),
    decreases texts.len() - k,
{
    let rm = texts.remove(i);
    let rest = search_from(d, texts, query, k + 2);
    if k == texts.len() - 1 {
        assert(search_from(d, rm, query, k) =~= Seq::<(int, Seq<int>, int)>::empty());
        assert(search_from(d, texts, query, k + 1) =~= Seq::<(int, Seq<int>, int)>::empty());
    } else {
        lemma_search_after_remove_tail(d, texts, i, query, k + 1);
        assert(rm[k] == texts[k + 1]);
        match match_text(d, texts[k + 1], query) {
            Some((h, sc)) => {
                let all = search_from(d, texts, query, k + 1);
                assert(all == seq![(k + 1, h, sc)] + rest);
                assert(all[0] == (k + 1, h, sc));
                assert(all.drop_first() =~= rest);
            },
            None => {},
        }
    }
}

proof fn lemma_search_after_remove_head(d: SkkDictionary, texts: Seq<Seq<char>>, i: int, query: Seq<char>, k: int)
    requires
        0 <= i < texts.len(),
        0 <= k <= i,
    ensures
        search_from(d, texts.remove(i), query, k) == hits_without(search_from(d, texts, query, k), i),
    decreases i - k,
{
    let rm = texts.remove(i);
    if k == i {
        lemma_search_after_remove_tail(d, texts, i, query, k);
        let all = search_from(d, texts, query, k);
        let rest = search_from(d, texts, query, k + 1);
        match match_text(d, texts[k], query) {
            Some((h, sc)) => {
                assert(all == seq![(k, h, sc)] + rest);
                assert(all[0] == (k, h, sc));
                assert(all.drop_first() =~= rest);
            },
            None => {},
        }
    } else {
        lemma_search_after_remove_head(d, texts, i, query, k + 1);
        assert(rm[k] == texts[k]);
        let all = search_from(d, texts, query, k);
        let rest = search_from(d, texts, query, k + 1);
        match match_text(d, texts[k], query) {
            Some((h, sc)) => {
                assert(all == seq![(k, h, sc)] + rest);
                assert(all[0] == (k, h, sc));
                assert(all.drop_first() =~= rest);
            },
            None => {},
        }
    }
}

/// Dropping the text at `i` drops its hit and renumbers the later hits one
/// down, as `Vec::remove` renumbers the items.
pub proof fn lemma_search_after_remove(d: SkkDictionary, texts: Seq<Seq<char>>, i: int, query: Seq<char>)
    requires
        0 <= i < texts.len(),
    ensures
        search_from(d, texts.remove(i), query, 0) == hits_without(search_from(d, texts, query, 0), i),
{
    lemma_search_after_remove_head(d, texts, i, query, 0);
}

/// Among matches of the same number of units in texts of the same length, the
/// one starting earlier scores at least as high (strictly, below saturation);
/// among matches at the same place, the longer one scores at least as high.
pub proof fn lemma_score_order(m1: int, s1: int, m2: int, s2: int, total: int)
    requires
        0 <= m1,
        0 <= m2,
        0 <= s1,
        0 <= s2,
    ensures
        m1 == m2 && s1 <= s2 ==> score_spec(m1, s1, total) >= score_spec(m2, s2, total),
        m1 == m2 && s1 < s2 <= total && score_spec(m1, s1, total) < i64::MAX ==> score_spec(m1, s1, total) > score_spec(
            m2,
            s2,
            total,
        ),
        s1 == s2 && m1 >= m2 ==> score_spec(m1, s1, total) >= score_spec(m2, s2, total),
{
}

// ---------------------------------------------------------------------------
// Implementation
// ---------------------------------------------------------------------------

fn classify(c: char, prev: Option<CharKind>) -> (r: CharKind)
    ensures
        r == classify_spec(c, prev),
{
    // The long vowel mark (ー) belongs to whichever run it extends.
    if c == 'ー' {
        return match prev {
            Some(k) => k,
            None => CharKind::Katakana,
        };
    }
    let v = c as u32;
    if v < 0x80 {
        CharKind::Ascii
    } else if 0x3041 <= v && v <= 0x309F {
        CharKind::Hiragana
    } else if 0x30A1 <= v && v <= 0x30FF {
        CharKind::Katakana
    } else if 0x4E00 <= v && v <= 0x9FFF {
        CharKind::Kanji
    } else {
        CharKind::Other
    }
}

fn run_end(chars: &Vec<char>, start: usize, kind: CharKind) -> (r: usize)
    requires
        start < chars.len(),
    ensures
        r == run_end_from(chars@, start + 1, kind),
        start < r <= chars.len(),
{
    proof {
        lemma_run_end_bounds(chars@, start + 1, kind);
    }
    let mut j = start + 1;
    while j < chars.len() && classify(chars[j], Some(kind)) == kind
        invariant
            start < j <= chars.len(),
            run_end_from(chars@, start + 1, kind) == run_end_from(chars@, j as int, kind),
        decreases chars.len() - j,
    {
        j += 1;
    }
    j
}

/// One contiguous chunk of an indexed item's text, and how many morae (in
/// `IndexedItem::morae`) it contributed. Used to map a matched mora range
/// back to char positions in the item text for highlighting.
struct Segment {
    start: usize,
    end: usize,
    morae_len: usize,
}

/// The segments that a vector of `Segment`s stands for.
spec fn segments_view(v: Seq<Segment>) -> Seq<(int, int, int)> {
    v.map_values(|s: Segment| (s.start as int, s.end as int, s.morae_len as int))
}

struct IndexedItem {
    text: String,
    morae: Vec<String>,
    segments: Vec<Segment>,
}

/// A search hit: the index the item was registered at (via `add_item`), the
/// char positions in its text that should be highlighted, and a relevance
/// score (higher is better) usable for ranking and for fusing with other
/// search signals.
#[derive(Debug, Clone)]
pub struct SearchResult {
    pub index: usize,
    pub highlight: Vec<usize>,
    pub score: i64,
}

/// The positions that a vector of char positions stands for.
pub open spec fn positions_view(v: Seq<usize>) -> Seq<int> {
    v.map_values(|p: usize| p as int)
}

/// The hits that a vector of search results stands for.
pub open spec fn results_view(v: Seq<SearchResult>) -> Seq<(int, Seq<int>, int)> {
    v.map_values(|r: SearchResult| (r.index as int, positions_view(r.highlight@), r.score as int))
}

/// The outcome of matching an item against a query: highlight positions plus
/// a relevance score. Longer matches and matches closer to the start of the
/// text score higher.
struct MatchOutcome {
    positions: Vec<usize>,
    score: i64,
}

fn score_match(matched_len: usize, start: usize, total_len: usize) -> (r: i64)
    ensures
        r as int == score_spec(matched_len as int, start as int, total_len as int),
{
    let earliness: u128 = if total_len > start {
        (total_len - start) as u128
    } else {
        0
    };
    let s: u128 = matched_len as u128 * 100 + earliness;
    if s > i64::MAX as u128 {
        i64::MAX
    } else {
        s as i64
    }
}


/// The index of `text` as stored: its mora list and segments.
spec fn indexed(d: SkkDictionary, item: IndexedItem) -> bool {
    &&& strings_view(item.morae@) == index_text(d, item.text@).0
    &&& segments_view(item.segments@) == index_text(d, item.text@).1
}

/// Romaji-mora index search engine. Text registered via `add_item` has its
/// reading pre-computed into a mora list; `search` matches a romaji query
/// against that list as a contiguous subsequence, so multi-mora queries can
/// match kanji the way single-mora queries always could.
pub struct MigemoSearcher {
    dictionary: SkkDictionary,
    items: Vec<IndexedItem>,
}

impl MigemoSearcher {
    #[verifier::type_invariant]
    spec fn inv(self) -> bool {
        forall|k: int| 0 <= k < self.items.len() ==> indexed(self.dictionary, #[trigger] self.items[k])
    }

    /// The dictionary the searcher reads kanji with.
    pub closed spec fn dict(self) -> SkkDictionary {
        self.dictionary
    }

    /// The texts registered so far, in registration order.
    pub closed spec fn texts(self) -> Seq<Seq<char>> {
        self.items@.map_values(|it: IndexedItem| it.text@)
    }

    pub fn new(dictionary: SkkDictionary) -> (r: Self)
        ensures
            r.dict() == dictionary,
            r.texts() == Seq::<Seq<char>>::empty(),
    {
        let r = Self { dictionary, items: Vec::new() };
        assert(r.texts() =~= Seq::<Seq<char>>::empty());
        r
    }

    /// Register a searchable text, computing and storing its mora list.
    pub fn add_item(&mut self, text: &str)
        ensures
            final(self).dict() == old(self).dict(),
            final(self).texts() == old(self).texts().push(text@),
    {
        proof {
            use_type_invariant(&*self);
        }
        let item = build_item(&self.dictionary, text);
        let mut items: Vec<IndexedItem> = Vec::new();
        std::mem::swap(&mut items, &mut self.items);
        items.push(item);
        self.items = items;
        assert(self.texts() =~= old(self).texts().push(text@));
    }

    /// Compute highlight positions for `text` against `query` without
    /// registering it as an item. Useful for UIs that already know the text
    /// (e.g. from a separately stored list) and just need highlight ranges.
    pub fn highlight(&self, text: &str, query: &str) -> (r: Vec<usize>)
        ensures
            positions_view(r@) == match match_text(self.dict(), text@, query@) {
                Some((h, _)) => h,
                None => Seq::<int>::empty(),
            },
    {
        let item = build_item(&self.dictionary, text);
        let query_morae = query_to_morae(query);
        let query_lower = str_to_lowercase(query);
        match match_item(&self.dictionary, &item, &query_morae, query_lower.as_str()) {
            Some(outcome) => outcome.positions,
            None => {
                let r: Vec<usize> = Vec::new();
                assert(positions_view(r@) =~= Seq::<int>::empty());
                r
            },
        }
    }

    /// Drop the item registered at `index`, shifting later indices down by
    /// one (mirrors `Vec::remove`), to keep in sync with an external list.
    pub fn remove_item(&mut self, index: usize)
        ensures
            final(self).dict() == old(self).dict(),
            final(self).texts() == if index < old(self).texts().len() {
                old(self).texts().remove(index as int)
            } else {
                old(self).texts()
            },
    {
        proof {
            use_type_invariant(&*self);
        }
        if index < self.items.len() {
            let mut items: Vec<IndexedItem> = Vec::new();
            std::mem::swap(&mut items, &mut self.items);
            items.remove(index);
            self.items = items;
            assert(self.texts() =~= old(self).texts().remove(index as int));
        }
    }

    /// Search with a romaji query. Matches either as a contiguous mora
    /// subsequence (handles multi-mora kanji queries like "gen" -> 言) or,
    /// failing that, as a plain case-insensitive substring (keeps plain
    /// ASCII search working for latin item text).
    pub fn search(&self, query: &str) -> (r: Vec<SearchResult>)
        ensures
            results_view(r@) == search_from(self.dict(), self.texts(), query@, 0),
    {
        proof {
            use_type_invariant(self);
        }
        let query_morae = query_to_morae(query);
        let query_lower = str_to_lowercase(query);
        let mut results: Vec<SearchResult> = Vec::new();
        let ghost texts = self.texts();
        let mut index: usize = 0;
        while index < self.items.len()
            invariant
                index <= self.items.len(),
                texts == self.texts(),
                texts.len() == self.items.len(),
                strings_view(query_morae@) == query_morae_spec(query@),
                query_lower@ == str_lowercase(query@),
                forall|j: int| 0 <= j < self.items.len() ==> indexed(self.dictionary, #[trigger] self.items[j]),
                search_from(self.dictionary, texts, query@, 0) == results_view(results@) + search_from(
                    self.dictionary,
                    texts,
                    query@,
                    index as int,
                ),
            decreases self.items.len() - index,
        {
            let ghost before = results_view(results@);
            assert(texts[index as int] == self.items[index as int].text@);
            match match_item(&self.dictionary, &self.items[index], &query_morae, query_lower.as_str()) {
                Some(outcome) => {
                    let ghost h = positions_view(outcome.positions@);
                    let ghost sc = outcome.score as int;
                    results.push(SearchResult { index, highlight: outcome.positions, score: outcome.score });
                    assert(results_view(results@) =~= before.push((index as int, h, sc)));
                    assert(before + (seq![(index as int, h, sc)] + search_from(self.dictionary, texts, query@, index + 1))
                        =~= before.push((index as int, h, sc)) + search_from(self.dictionary, texts, query@, index + 1));
                },
                None => {},
            }
            index += 1;
        }
        assert(search_from(self.dictionary, texts, query@, index as int) =~= seq![]);
        assert(results_view(results@) + seq![] =~= results_view(results@));
        results
    }
}

/// Index `text`: its mora list and the segments mapping morae back to chars.
fn build_item(dictionary: &SkkDictionary, text: &str) -> (item: IndexedItem)
    ensures
        item.text@ == text@,
        indexed(*dictionary, item),
{
    let chars = str_chars(text);
    let mut morae: Vec<String> = Vec::new();
    let mut segments: Vec<Segment> = Vec::new();
    let ghost t = chars@;
    let ghost d = *dictionary;

    let mut i: usize = 0;
    let mut prev_kind: Option<CharKind> = None;
    assert(strings_view(morae@) =~= seq![]);
    assert(segments_view(segments@) =~= seq![]);
    while i < chars.len()
        invariant
            i <= chars.len(),
            t == chars@,
            t == text@,
            d == *dictionary,
            index_text(d, t) == index_from(d, t, i as int, prev_kind, (strings_view(morae@), segments_view(segments@))),
        decreases chars.len() - i,
    {
        let kind = classify(chars[i], prev_kind);
        prev_kind = Some(kind);
        let end = run_end(&chars, i, kind);
        let ghost acc = (strings_view(morae@), segments_view(segments@));
        match kind {
            CharKind::Kanji => {
                let ghost i0 = i as int;
                while i < end
                    invariant
                        i <= end <= chars.len(),
                        t == chars@,
                        d == *dictionary,
                        kanji_run(d, t, i as int, end as int, (strings_view(morae@), segments_view(segments@)))
                            == kanji_run(d, t, i0, end as int, acc),
                    decreases end - i,
                {
                    proof {
                        d.lemma_longest_from_bounds(t.subrange(i as int, end as int), end - i);
                    }
                    let ghost window = t.subrange(i as int, end as int);
                    assert(window.len() == end - i);
                    match dictionary.longest_match_in(&chars, i, end) {
                        Some((len, word_morae)) => {
                            assert(d.longest_match_spec(window) == Some((len as int, strings_view(word_morae@))));
                            assert(1 <= len <= end - i);
                            let morae_len = word_morae.len();
                            let ghost wm = strings_view(word_morae@);
                            let ghost m0 = strings_view(morae@);
                            let ghost s0 = segments_view(segments@);
                            let mut word_morae = word_morae;
                            morae.append(&mut word_morae);
                            segments.push(Segment { start: i, end: i + len, morae_len });
                            assert(strings_view(morae@) =~= m0 + wm);
                            assert(segments_view(segments@) =~= s0.push((i as int, i + len, wm.len() as int)));
                            i += len;
                        },
                        None => {
                            // Word not in dictionary: skip, this char stays unsearchable.
                            i += 1;
                        },
                    }
                }
            },
            CharKind::Hiragana | CharKind::Katakana => {
                let run = string_from_chars(&chars, i, end);
                let hira = if kind == CharKind::Katakana {
                    katakana_to_hiragana(run.as_str())
                } else {
                    run
                };
                let spans = hiragana_to_morae_with_spans(hira.as_str());
                proof {
                    lemma_kana_spans_within(hira@);
                }
                let ghost sp = kana_spans(hira@);
                assert(hira@.len() == end - i);
                let mut k: usize = 0;
                while k < spans.len()
                    invariant
                        k <= spans.len(),
                        i < end <= chars.len(),
                        spans_view(spans@) == sp,
                        spans_within(sp, 0, end - i),
                        strings_view(morae@) == acc.0 + span_morae(sp.take(k as int)),
                        segments_view(segments@) == acc.1 + span_segments(sp.take(k as int), i as int),
                    decreases spans.len() - k,
                {
                    let s = spans[k].0;
                    let e = spans[k].1;
                    let mora = spans[k].2.clone();
                    assert(sp[k as int] == (s as int, e as int, mora@));
                    assert(0 <= sp[k as int].0 < sp[k as int].1 <= end - i);
                    let ghost m0 = strings_view(morae@);
                    let ghost s0 = segments_view(segments@);
                    morae.push(mora);
                    segments.push(Segment { start: i + s, end: i + e, morae_len: 1 });
                    k += 1;
                    assert(sp.take(k as int) =~= sp.take(k - 1).push(sp[k - 1]));
                    assert(span_morae(sp.take(k as int)) =~= span_morae(sp.take(k - 1)).push(mora@));
                    assert(span_segments(sp.take(k as int), i as int) =~= span_segments(sp.take(k - 1), i as int).push(
                        (i + s, i + e, 1int),
                    ));
                    assert(strings_view(morae@) =~= m0.push(mora@));
                    assert(segments_view(segments@) =~= s0.push((i + s, i + e, 1int)));
                    assert(strings_view(morae@) =~= acc.0 + span_morae(sp.take(k as int)));
                    assert(segments_view(segments@) =~= acc.1 + span_segments(sp.take(k as int), i as int));
                }
                assert(sp.take(spans.len() as int) =~= sp);
                i = end;
            },
            CharKind::Ascii | CharKind::Other => {
                let mut pos = i;
                while pos < end
                    invariant
                        i <= pos <= end <= chars.len(),
                        t == chars@,
                        plain_run(t, pos as int, end as int, (strings_view(morae@), segments_view(segments@)))
                            == plain_run(t, i as int, end as int, acc),
                    decreases end - pos,
                {
                    let c = chars[pos];
                    let lows = char_to_lowercase(c);
                    let ghost m0 = strings_view(morae@);
                    let mut j: usize = 0;
                    while j < lows.len()
                        invariant
                            j <= lows.len(),
                            strings_view(morae@) == m0 + char_morae(lows@.take(j as int)),
                        decreases lows.len() - j,
                    {
                        let ghost before = strings_view(morae@);
                        let one = char_to_string(lows[j]);
                        morae.push(one);
                        j += 1;
                        assert(lows@.take(j as int) =~= lows@.take(j - 1).push(lows@[j - 1]));
                        assert(char_morae(lows@.take(j as int)) =~= char_morae(lows@.take(j - 1)).push(seq![lows@[j - 1]]));
                        assert(strings_view(morae@) =~= before.push(seq![lows@[j - 1]]));
                        assert(strings_view(morae@) =~= m0 + char_morae(lows@.take(j as int)));
                    }
                    assert(lows@.take(lows.len() as int) =~= lows@);
                    let ghost s0 = segments_view(segments@);
                    segments.push(Segment { start: pos, end: pos + 1, morae_len: lows.len() });
                    assert(segments_view(segments@) =~= s0.push((pos as int, pos + 1, lows@.len() as int)));
                    pos += 1;
                }
                i = end;
            },
        }
    }
    IndexedItem { text: text.to_owned(), morae, segments }
}


/// Match a single already-indexed item against a decomposed query, returning
/// its highlight positions and a relevance score on a hit. Shared by
/// `search` (over stored items) and `highlight` (over a freshly-built,
/// unstored item).
fn match_item(
    dictionary: &SkkDictionary,
    item: &IndexedItem,
    query_morae: &Vec<String>,
    query_lower: &str,
) -> (r: Option<MatchOutcome>)
    requires
        indexed(*dictionary, *item),
        exists|q: Seq<char>|
            strings_view(query_morae@) == query_morae_spec(q) && query_lower@ == str_lowercase(q),
    ensures
        forall|q: Seq<char>|
            strings_view(query_morae@) == query_morae_spec(q) && query_lower@ == str_lowercase(q)
                ==> match (r, match_text(*dictionary, item.text@, q)) {
                (Some(o), Some((h, s))) => positions_view(o.positions@) == h && o.score as int == s,
                (None, None) => true,
                _ => false,
            },
{
    let ghost idx = index_text(*dictionary, item.text@);
    let ghost qm = strings_view(query_morae@);
    let _n = item.morae.len();
    if let Some(start) = find_mora_window(&item.morae, query_morae) {
        let end = start + query_morae.len();
        return Some(
            MatchOutcome {
                positions: highlight_positions(item, start, end),
                score: score_match(query_morae.len(), start, item.morae.len()),
            },
        );
    }
    let ql = str_chars(query_lower);
    if ql.len() > 0 {
        if let Some(start) = plain_match_start(item, query_lower) {
            let query_len = ql.len();
            let text_len = str_chars(item.text.as_str()).len();
            return Some(
                MatchOutcome {
                    positions: plain_highlight_positions(item, query_lower),
                    score: score_match(query_len, start, text_len),
                },
            );
        }
    }
    None
}

/// Where `needle` first occurs in `hay` (both mora lists), if it is nonempty.
fn find_mora_window(item_morae: &Vec<String>, query_morae: &Vec<String>) -> (r: Option<usize>)
    ensures
        match r {
            Some(i) => mora_window(strings_view(item_morae@), strings_view(query_morae@)) == Some(i as int)
                && i + query_morae@.len() <= item_morae@.len(),
            None => mora_window(strings_view(item_morae@), strings_view(query_morae@)) is None,
        },
{
    let ghost hay = strings_view(item_morae@);
    let ghost needle = strings_view(query_morae@);
    if query_morae.len() == 0 || query_morae.len() > item_morae.len() {
        return None;
    }
    let m = query_morae.len();
    let mut i: usize = 0;
    while i <= item_morae.len() - m
        invariant
            0 < m <= item_morae.len(),
            m == needle.len(),
            hay == strings_view(item_morae@),
            needle == strings_view(query_morae@),
            i <= item_morae.len() - m + 1,
            first_window(hay, needle, 0) == first_window(hay, needle, i as int),
        decreases item_morae.len() - m + 1 - i,
    {
        let mut j: usize = 0;
        let mut same = true;
        while j < m
            invariant
                j <= m,
                i + m <= item_morae.len(),
                m == query_morae.len(),
                same ==> forall|k: int| 0 <= k < j ==> #[trigger] item_morae@[i + k]@ == query_morae@[k]@,
                !same ==> hay.subrange(i as int, i + m) != needle,
                hay == strings_view(item_morae@),
                needle == strings_view(query_morae@),
            decreases m - j,
        {
            if same && item_morae[i + j] != query_morae[j] {
                same = false;
                assert(hay.subrange(i as int, i + m)[j as int] != needle[j as int]);
            }
            j += 1;
        }
        if same {
            assert forall|k: int| 0 <= k < m implies #[trigger] hay.subrange(i as int, i + m)[k] == needle[k] by {
                assert(item_morae@[i + k]@ == query_morae@[k]@);
            }
            assert(hay.subrange(i as int, i + m) =~= needle);
            return Some(i);
        }
        i += 1;
    }
    None
}

/// Where `needle` first occurs in `hay`, if it is nonempty and not longer.
pub(crate) fn find_char_window(hay: &Vec<char>, needle: &Vec<char>) -> (r: Option<usize>)
    ensures
        match r {
            Some(i) => needle@.len() > 0 && needle@.len() <= hay@.len() && first_window(hay@, needle@, 0) == Some(i as int)
                && i + needle@.len() <= hay@.len(),
            None => needle@.len() == 0 || needle@.len() > hay@.len() || first_window(hay@, needle@, 0) is None,
        },
{
    if needle.len() == 0 || needle.len() > hay.len() {
        return None;
    }
    let m = needle.len();
    let mut i: usize = 0;
    while i <= hay.len() - m
        invariant
            0 < m <= hay.len(),
            m == needle.len(),
            i <= hay.len() - m + 1,
            first_window(hay@, needle@, 0) == first_window(hay@, needle@, i as int),
        decreases hay.len() - m + 1 - i,
    {
        let mut j: usize = 0;
        let mut same = true;
        while j < m
            invariant
                j <= m,
                i + m <= hay.len(),
                m == needle.len(),
                same ==> forall|k: int| 0 <= k < j ==> #[trigger] hay@[i + k] == needle@[k],
                !same ==> hay@.subrange(i as int, i + m) != needle@,
            decreases m - j,
        {
            if same && hay[i + j] != needle[j] {
                same = false;
                assert(hay@.subrange(i as int, i + m)[j as int] != needle@[j as int]);
            }
            j += 1;
        }
        if same {
            assert forall|k: int| 0 <= k < m implies #[trigger] hay@.subrange(i as int, i + m)[k] == needle@[k] by {
                assert(hay@[i + k] == needle@[k]);
            }
            assert(hay@.subrange(i as int, i + m) =~= needle@);
            return Some(i);
        }
        i += 1;
    }
    None
}

/// Once the mora cursor has passed the matched range, no later segment overlaps it.
proof fn lemma_highlight_tail_empty(segs: Seq<(int, int, int)>, k: int, cursor: int, start: int, end: int)
    requires
        cursor >= end,
        forall|j: int| 0 <= j < segs.len() ==> #[trigger] segs[j].2 >= 0,
    ensures
        highlight_from(segs, k, cursor, start, end) == Seq::<int>::empty(),
    decreases segs.len() - k,
{
    if 0 <= k < segs.len() {
        lemma_highlight_tail_empty(segs, k + 1, cursor + segs[k].2, start, end);
        assert(Seq::<int>::empty() + Seq::<int>::empty() =~= Seq::<int>::empty());
    }
}

fn highlight_positions(item: &IndexedItem, mora_start: usize, mora_end: usize) -> (r: Vec<usize>)
    ensures
        positions_view(r@) == highlight_from(segments_view(item.segments@), 0, 0, mora_start as int, mora_end as int),
{
    let ghost segs = segments_view(item.segments@);
    let mut positions: Vec<usize> = Vec::new();
    let mut cursor: u128 = 0;
    let mut k: usize = 0;
    assert(positions_view(positions@) =~= seq![]);
    while k < item.segments.len()
        invariant
            k <= item.segments.len(),
            segs == segments_view(item.segments@),
            cursor <= 2 * (usize::MAX as u128),
            highlight_from(segs, 0, 0, mora_start as int, mora_end as int)
                == positions_view(positions@) + highlight_from(segs, k as int, cursor as int, mora_start as int, mora_end as int),
        decreases item.segments.len() - k,
    {
        if cursor >= mora_end as u128 {
            proof {
                lemma_highlight_tail_empty(segs, k as int, cursor as int, mora_start as int, mora_end as int);
            }
            assert(positions_view(positions@) + Seq::<int>::empty() =~= positions_view(positions@));
            return positions;
        }
        let segment = &item.segments[k];
        let seg_start = cursor;
        let seg_end = cursor + segment.morae_len as u128;
        let ghost p0 = positions_view(positions@);
        let ghost here = if seg_end > mora_start as u128 && seg_start < mora_end as u128 {
            range_positions(segment.start as int, segment.end as int)
        } else {
            Seq::<int>::empty()
        };
        if seg_end > mora_start as u128 && seg_start < mora_end as u128 {
            let mut p = segment.start;
            while p < segment.end
                invariant
                    segment.start <= p,
                    p <= segment.end || p == segment.start,
                    positions_view(positions@) == p0 + range_positions(segment.start as int, p as int),
                decreases segment.end - p,
            {
                let ghost r0 = range_positions(segment.start as int, p as int);
                let ghost pv0 = positions_view(positions@);
                positions.push(p);
                p += 1;
                assert(positions_view(positions@) =~= pv0.push(p - 1));
                assert(range_positions(segment.start as int, p as int) =~= r0.push(p - 1));
                assert(positions_view(positions@) =~= p0 + range_positions(segment.start as int, p as int));
            }
            assert(positions_view(positions@) =~= p0 + range_positions(segment.start as int, segment.end as int)) by {
                if p == segment.start {
                    assert(range_positions(segment.start as int, segment.end as int) =~= range_positions(segment.start as int, p as int));
                }
            }
        }
        assert(positions_view(positions@) =~= p0 + here) by {
            if !(seg_end > mora_start as u128 && seg_start < mora_end as u128) {
                assert(positions_view(positions@) =~= p0);
            } else if segment.end <= segment.start {
                assert(range_positions(segment.start as int, segment.end as int) =~= range_positions(segment.start as int, segment.start as int));
            }
        }
        assert(p0 + (here + highlight_from(segs, k + 1, seg_end as int, mora_start as int, mora_end as int))
            =~= (p0 + here) + highlight_from(segs, k + 1, seg_end as int, mora_start as int, mora_end as int));
        cursor = seg_end;
        k += 1;
    }
    assert(positions_view(positions@) + Seq::<int>::empty() =~= positions_view(positions@));
    positions
}

fn plain_match_start(item: &IndexedItem, query_lower: &str) -> (r: Option<usize>)
    ensures
        match r {
            Some(i) => query_lower@.len() > 0 && query_lower@.len() <= str_lowercase(item.text@).len()
                && first_window(str_lowercase(item.text@), query_lower@, 0) == Some(i as int)
                && i + query_lower@.len() <= usize::MAX,
            None => query_lower@.len() == 0 || query_lower@.len() > str_lowercase(item.text@).len()
                || first_window(str_lowercase(item.text@), query_lower@, 0) is None,
        },
{
    let lower = str_to_lowercase(item.text.as_str());
    let lower_chars = str_chars(lower.as_str());
    let query_chars = str_chars(query_lower);
    let _n = lower_chars.len();
    find_char_window(&lower_chars, &query_chars)
}

fn plain_highlight_positions(item: &IndexedItem, query_lower: &str) -> (r: Vec<usize>)
    ensures
        positions_view(r@) == match plain_match_start_spec(item.text@, query_lower@) {
            Some(start) => range_positions(start, start + query_lower@.len()).filter(|p: int| p < item.text@.len()),
            None => Seq::<int>::empty(),
        },
{
    let query_len = str_chars(query_lower).len();
    let text_len = str_chars(item.text.as_str()).len();
    let mut positions: Vec<usize> = Vec::new();
    match plain_match_start(item, query_lower) {
        Some(start) => {
            let ghost full = range_positions(start as int, start + query_len);
            let mut p = start;
            let end = start + query_len;
            assert(positions_view(positions@) =~= full.take(0).filter(|p: int| p < text_len));
            while p < end
                invariant
                    start <= p <= end,
                    end == start + query_len,
                    full == range_positions(start as int, end as int),
                    positions_view(positions@) == full.take(p - start).filter(|q: int| q < text_len),
                decreases end - p,
            {
                let ghost before = full.take(p - start);
                if p < text_len {
                    positions.push(p);
                }
                p += 1;
                assert(full.take(p - start) =~= before.push(p - 1));
                assert(before.push(p - 1).filter(|q: int| q < text_len) == if p - 1 < text_len {
                    before.filter(|q: int| q < text_len).push(p - 1)
                } else {
                    before.filter(|q: int| q < text_len)
                }) by {
                    before.lemma_filter_push(p - 1, |q: int| q < text_len);
                }
                assert(positions_view(positions@) =~= full.take(p - start).filter(|q: int| q < text_len));
            }
            assert(full.take(query_len as int) =~= full);
            positions
        },
        None => {
            assert(positions_view(positions@) =~= Seq::<int>::empty());
            positions
        },
    }
}

/// Where a nonempty lowercase query first occurs in a text's lowercase form.
pub open spec fn plain_match_start_spec(text: Seq<char>, query_lower: Seq<char>) -> Option<int> {
    let lower = str_lowercase(text);
    if query_lower.len() > 0 && query_lower.len() <= lower.len() {
        first_window(lower, query_lower, 0)
    } else {
        None
    }
}

} // verus!
