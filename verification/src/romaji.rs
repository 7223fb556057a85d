//! Hiragana / katakana / romaji-mora conversion.
//!
//! A "mora" is the romaji spelling of one Japanese sound unit (e.g. "ge", "n",
//! "kya"). Item text is converted kana -> mora list when it is indexed; user
//! queries are converted ASCII romaji -> mora list when they are searched. Both
//! sides use the same canonical spellings, so equality of mora lists finds
//! matches.

use vstd::prelude::*;
use crate::mora_table::{
    lemma_single_mora_reads_back, lemma_youon_mora_reads_back, opt_str_view, plain_token1, plain_token1_spec,
    plain_token2, plain_token2_spec, plain_token3, plain_token3_spec, plain_token_spec, single_mora,
    single_mora_spec, youon_mora, youon_mora_spec,
};
use crate::text::{
    char_from_u32, char_to_string, opt_string_view, str_chars, str_lowercase, str_to_lowercase,
    string_append, string_push, strings_view,
};

verus! {

broadcast use vstd::utf8::char_u32_cast;

// ---------------------------------------------------------------------------
// Specification
// ---------------------------------------------------------------------------

/// Katakana U+30A1..=U+30F6 maps to the hiragana 0x60 below it; every other
/// char is left as it is.
pub open spec fn kata_to_hira_char(c: char) -> char {
    if 0x30A1 <= (c as u32) <= 0x30F6 {
        (((c as u32) - 0x60) as u32) as char
    } else {
        c
    }
}

/// The katakana-to-hiragana conversion of a whole string.
pub open spec fn kata_to_hira(s: Seq<char>) -> Seq<char> {
    s.map_values(|c: char| kata_to_hira_char(c))
}

/// A mora together with the char range `[start, end)` of the kana that
/// produced it.
pub type MoraSpan = (int, int, Seq<char>);

/// The kana unit starting at `i`: a digraph when the two chars there form one,
/// otherwise the single kana. Gives the number of chars read and the romaji.
pub open spec fn kana_unit(chars: Seq<char>, i: int) -> (int, Option<Seq<char>>) {
    if i + 1 < chars.len() && youon_mora_spec(chars[i], chars[i + 1]) is Some {
        (2, youon_mora_spec(chars[i], chars[i + 1]))
    } else {
        (1, single_mora_spec(chars[i]))
    }
}

/// A sokuon-doubled mora: its first letter repeated (`ka` -> `kka`).
pub open spec fn doubled_spec(base: Seq<char>) -> Seq<char> {
    if base.len() > 0 {
        seq![base[0]] + base
    } else {
        base
    }
}

/// The char a long vowel mark repeats: the last letter of the previous mora.
pub open spec fn last_vowel_spec(mora: Seq<char>) -> char {
    if mora.len() > 0 {
        mora.last()
    } else {
        'a'
    }
}

/// The mora spans of `chars` from position `i` on, appended to `acc`.
///
/// A long vowel mark repeats the last letter of the previous mora (and is
/// dropped when nothing precedes it); a sokuon doubles the first letter of the
/// next unit's mora and covers that unit (and is dropped when no known unit
/// follows); every other known unit yields its mora; unknown chars are skipped.
pub open spec fn spans_from(chars: Seq<char>, i: int, acc: Seq<MoraSpan>) -> Seq<MoraSpan>
    decreases chars.len() - i,
{
    if i < 0 || i >= chars.len() {
        acc
    } else if chars[i] == 'ー' {
        let next = if acc.len() > 0 {
            acc.push((i, i + 1, seq![last_vowel_spec(acc.last().2)]))
        } else {
            acc
        };
        spans_from(chars, i + 1, next)
    } else if chars[i] == 'っ' {
        if i + 1 < chars.len() && kana_unit(chars, i + 1).1 is Some {
            let u = kana_unit(chars, i + 1);
            spans_from(chars, i + 1 + u.0, acc.push((i, i + 1 + u.0, doubled_spec(u.1->0))))
        } else {
            spans_from(chars, i + 1, acc)
        }
    } else {
        let u = kana_unit(chars, i);
        let next = match u.1 {
            Some(m) => acc.push((i, i + u.0, m)),
            None => acc,
        };
        spans_from(chars, i + u.0, next)
    }
}

/// The mora spans of a hiragana string.
pub open spec fn kana_spans(s: Seq<char>) -> Seq<MoraSpan> {
    spans_from(s, 0, seq![])
}

/// The mora list of a hiragana string.
pub open spec fn kana_morae(s: Seq<char>) -> Seq<Seq<char>> {
    kana_spans(s).map_values(|t: MoraSpan| t.2)
}

/// The canonical mora of the query token of `len` letters at `pos`, if the
/// letters there form one.
pub open spec fn token_at(chars: Seq<char>, pos: int, len: int) -> Option<Seq<char>> {
    if 0 <= pos && pos + len <= chars.len() {
        plain_token_spec(chars.subrange(pos, pos + len))
    } else {
        None
    }
}

/// The query token at `pos`: the longest plain token (four letters down to
/// one), or else a doubled consonant (other than `n`) followed by a plain
/// token, read as the sokuon-doubled mora. Gives the letters read and the
/// canonical mora.
pub open spec fn match_token_spec(chars: Seq<char>, pos: int) -> Option<(int, Seq<char>)> {
    if token_at(chars, pos, 4) is Some {
        Some((4, token_at(chars, pos, 4)->0))
    } else if token_at(chars, pos, 3) is Some {
        Some((3, token_at(chars, pos, 3)->0))
    } else if token_at(chars, pos, 2) is Some {
        Some((2, token_at(chars, pos, 2)->0))
    } else if token_at(chars, pos, 1) is Some {
        Some((1, token_at(chars, pos, 1)->0))
    } else if 0 <= pos && pos + 1 < chars.len() && chars[pos] == chars[pos + 1] && chars[pos]
        != 'n' {
        if token_at(chars, pos + 1, 3) is Some {
            Some((4, doubled_spec(token_at(chars, pos + 1, 3)->0)))
        } else if token_at(chars, pos + 1, 2) is Some {
            Some((3, doubled_spec(token_at(chars, pos + 1, 2)->0)))
        } else if token_at(chars, pos + 1, 1) is Some {
            Some((2, doubled_spec(token_at(chars, pos + 1, 1)->0)))
        } else {
            None
        }
    } else {
        None
    }
}

/// The morae of a (lowercased) query from position `i` on, stopping at the
/// first fragment that is no token.
pub open spec fn tokens_from(chars: Seq<char>, i: int) -> Seq<Seq<char>>
    decreases chars.len() - i,
{
    if 0 <= i < chars.len() {
        match match_token_spec(chars, i) {
            Some((l, m)) => seq![m] + tokens_from(chars, i + l),
            None => seq![],
        }
    } else {
        seq![]
    }
}

/// The mora list of a user query: its lowercase form read token by token.
pub open spec fn query_morae_spec(query: Seq<char>) -> Seq<Seq<char>> {
    tokens_from(str_lowercase(query), 0)
}

/// The spans that a vector of `(start, end, mora)` triples stands for.
pub open spec fn spans_view(v: Seq<(usize, usize, String)>) -> Seq<MoraSpan> {
    v.map_values(|t: (usize, usize, String)| (t.0 as int, t.1 as int, t.2@))
}

/// A mora spelling: one or more lowercase ASCII letters.
pub open spec fn is_romaji(m: Seq<char>) -> bool {
    m.len() > 0 && forall|i: int| 0 <= i < m.len() ==> 'a' <= #[trigger] m[i] && m[i] <= 'z'
}

/// Every kana of the tables is spelled in lowercase ASCII letters.
pub proof fn lemma_tables_romaji(c: char, a: char, b: char)
    ensures
        single_mora_spec(c) matches Some(m) ==> is_romaji(m),
        youon_mora_spec(a, b) matches Some(m) ==> is_romaji(m),
{
}

/// The units a kana unit reads are spelled in lowercase ASCII letters.
proof fn lemma_kana_unit_romaji(chars: Seq<char>, i: int)
    requires
        0 <= i < chars.len(),
    ensures
        kana_unit(chars, i).1 matches Some(m) ==> is_romaji(m),
        1 <= kana_unit(chars, i).0 <= chars.len() - i,
{
    lemma_tables_romaji(chars[i], chars[i], chars[i]);
    if i + 1 < chars.len() {
        lemma_tables_romaji(chars[i], chars[i], chars[i + 1]);
    }
}

/// Conversion only ever appends lowercase-letter morae.
pub proof fn lemma_spans_romaji(chars: Seq<char>, i: int, acc: Seq<MoraSpan>)
    requires
        forall|k: int| 0 <= k < acc.len() ==> is_romaji(#[trigger] acc[k].2),
    ensures
        forall|k: int|
            0 <= k < spans_from(chars, i, acc).len() ==> is_romaji(
                #[trigger] spans_from(chars, i, acc)[k].2,
            ),
    decreases chars.len() - i,
{
    if i < 0 || i >= chars.len() {
    } else if chars[i] == 'ー' {
        let next = if acc.len() > 0 {
            acc.push((i, i + 1, seq![last_vowel_spec(acc.last().2)]))
        } else {
            acc
        };
        if acc.len() > 0 {
            let lv = last_vowel_spec(acc.last().2);
            assert(is_romaji(acc[acc.len() - 1].2));
            assert(is_romaji(seq![lv]));
        }
        assert forall|k: int| 0 <= k < next.len() implies is_romaji(#[trigger] next[k].2) by {
            if k < acc.len() {
                assert(next[k] == acc[k]);
            }
        }
        lemma_spans_romaji(chars, i + 1, next);
        assert(spans_from(chars, i, acc) == spans_from(chars, i + 1, next));
    } else if chars[i] == 'っ' {
        if i + 1 < chars.len() && kana_unit(chars, i + 1).1 is Some {
            let u = kana_unit(chars, i + 1);
            lemma_kana_unit_romaji(chars, i + 1);
            let d = doubled_spec(u.1->0);
            assert(is_romaji(d)) by {
                assert forall|j: int| 0 <= j < d.len() implies 'a' <= #[trigger] d[j] && d[j] <= 'z' by {
                    if j > 0 {
                        assert(d[j] == (u.1->0)[j - 1]);
                    }
                }
            }
            let next = acc.push((i, i + 1 + u.0, d));
            assert forall|k: int| 0 <= k < next.len() implies is_romaji(#[trigger] next[k].2) by {
                if k < acc.len() {
                    assert(next[k] == acc[k]);
                }
            }
            lemma_spans_romaji(chars, i + 1 + u.0, next);
            assert(spans_from(chars, i, acc) == spans_from(chars, i + 1 + u.0, next));
        } else {
            lemma_spans_romaji(chars, i + 1, acc);
            assert(spans_from(chars, i, acc) == spans_from(chars, i + 1, acc));
        }
    } else {
        let u = kana_unit(chars, i);
        lemma_kana_unit_romaji(chars, i);
        let next = match u.1 {
            Some(m) => acc.push((i, i + u.0, m)),
            None => acc,
        };
        assert forall|k: int| 0 <= k < next.len() implies is_romaji(#[trigger] next[k].2) by {
            if k < acc.len() {
                assert(next[k] == acc[k]);
            }
        }
        lemma_spans_romaji(chars, i + u.0, next);
        assert(spans_from(chars, i, acc) == spans_from(chars, i + u.0, next));
    }
}

/// Every mora of a converted kana string is spelled in lowercase ASCII letters.
pub proof fn lemma_kana_morae_romaji(s: Seq<char>)
    ensures
        forall|k: int| 0 <= k < kana_morae(s).len() ==> is_romaji(#[trigger] kana_morae(s)[k]),
{
    lemma_spans_romaji(s, 0, seq![]);
    assert forall|k: int| 0 <= k < kana_morae(s).len() implies is_romaji(#[trigger] kana_morae(s)[k]) by {
        assert(kana_morae(s)[k] == kana_spans(s)[k].2);
    }
}

/// Whether a mora's letters start with a consonant other than `n`: the morae
/// whose sokuon-doubled spelling a query can type (a doubled vowel reads as
/// two vowels, and `nn` as two `n`, in the query and in the original table).
pub open spec fn doubles_in_query(m: Seq<char>) -> bool {
    m.len() > 0 && m[0] != 'a' && m[0] != 'i' && m[0] != 'u' && m[0] != 'e' && m[0] != 'o' && m[0] != 'n'
}

/// Whether a query typed as the sokuon-doubled spelling of `m` reads as
/// exactly that one mora.
pub open spec fn doubled_reads_back(m: Seq<char>) -> bool {
    tokens_from(doubled_spec(m), 0) == seq![doubled_spec(m)]
}

proof fn lemma_no_doubled_letter_token(x: char, y: char)
    ensures
        plain_token2_spec(x, x) is None,
        plain_token3_spec(x, x, y) is None,
{
}

/// A query typed as a canonical mora with its first letter (a consonant other
/// than `n`) doubled reads as that one doubled mora: no token starts with a
/// doubled letter, so the reading falls to the sokuon rule.
proof fn lemma_doubled_token_reads(m: Seq<char>)
    requires
        plain_token_spec(m) == Some(m),
        doubles_in_query(m),
    ensures
        doubled_reads_back(m),
{
    let d = doubled_spec(m);
    let x = m[0];
    assert(m.len() >= 2) by {
        if m.len() == 1 {
            assert(plain_token1_spec(x) is None);
        }
    }
    assert(m.len() <= 3);
    lemma_no_doubled_letter_token(x, m[1]);
    assert(d.len() == m.len() + 1);
    assert(d[0] == x && d[1] == x && d[2] == m[1]);
    assert(d.subrange(0, 1) =~= seq![x]);
    assert(d.subrange(0, 2) =~= seq![x, x]);
    assert(d.subrange(0, 3) =~= seq![x, x, m[1]]);
    assert(token_at(d, 0, 4) is None);
    assert(token_at(d, 0, 3) is None);
    assert(token_at(d, 0, 2) is None);
    assert(token_at(d, 0, 1) is None);
    assert(d.subrange(1, 1 + m.len() as int) =~= m);
    if m.len() == 3 {
        assert(token_at(d, 1, 3) == Some(m));
    } else {
        assert(token_at(d, 1, 3) is None);
        assert(token_at(d, 1, 2) == Some(m));
    }
    assert(match_token_spec(d, 0) == Some((d.len() as int, d)));
    assert(tokens_from(d, d.len() as int) == Seq::<Seq<char>>::empty());
    assert(tokens_from(d, 0) =~= seq![d]);
}

/// The query side reads back every sokuon mora the kana side makes: for a
/// kana whose romaji starts with a consonant other than `n`, typing that
/// romaji with its first letter doubled (っし -> `sshi`, っか -> `kka`) reads
/// as exactly the one doubled mora that the kana side gives the sokuon and
/// the kana.
pub proof fn lemma_query_reads_sokuon_single(c: char)
    requires
        single_mora_spec(c) is Some,
        doubles_in_query(single_mora_spec(c)->0),
    ensures
        tokens_from(doubled_spec(single_mora_spec(c)->0), 0) == seq![doubled_spec(single_mora_spec(c)->0)],
{
    lemma_single_mora_reads_back(c);
    lemma_doubled_token_reads(single_mora_spec(c)->0);
}

/// The same for kana digraphs: `ssho` (っしょ), `kkya` (っきゃ), `cchu` (っちゅ)
/// each read as the one doubled mora.
pub proof fn lemma_query_reads_sokuon_digraph(a: char, b: char)
    requires
        youon_mora_spec(a, b) is Some,
        doubles_in_query(youon_mora_spec(a, b)->0),
    ensures
        tokens_from(doubled_spec(youon_mora_spec(a, b)->0), 0) == seq![doubled_spec(youon_mora_spec(a, b)->0)],
{
    lemma_youon_mora_reads_back(a, b);
    lemma_doubled_token_reads(youon_mora_spec(a, b)->0);
}

/// A long vowel mark after a kana repeats the last letter (the vowel) of
/// that kana's mora (かー -> [`ka`, `a`]); a long vowel mark or a sokuon with
/// nothing before or after it to apply to gives no mora.
pub proof fn lemma_long_vowel_repeats(c: char)
    requires
        single_mora_spec(c) is Some,
    ensures
        kana_morae(seq![c, 'ー']) == seq![single_mora_spec(c)->0, seq![(single_mora_spec(c)->0).last()]],
        kana_morae(seq!['ー']) == Seq::<Seq<char>>::empty(),
        kana_morae(seq!['っ']) == Seq::<Seq<char>>::empty(),
{
    let m = single_mora_spec(c)->0;
    let s = seq![c, 'ー'];
    assert(s[0] == c && s[1] == 'ー');
    assert(c != 'ー' && c != 'っ');
    assert(kana_unit(s, 0) == (1int, single_mora_spec(c))) by {
        assert(youon_mora_spec(c, 'ー') is None);
    }
    let a1 = seq![].push((0int, 1int, m));
    let a2 = a1.push((1int, 2int, seq![last_vowel_spec(m)]));
    assert(spans_from(s, 2, a2) == a2);
    assert(spans_from(s, 1, a1) == spans_from(s, 2, a2));
    assert(spans_from(s, 0, seq![]) == spans_from(s, 1, a1));
    assert(m.len() > 0) by {
        lemma_tables_romaji(c, c, c);
    }
    assert(kana_morae(s) =~= seq![m, seq![m.last()]]);
    let t = seq!['ー'];
    assert(spans_from(t, 1, seq![]) == Seq::<MoraSpan>::empty());
    assert(kana_morae(t) =~= Seq::<Seq<char>>::empty());
    let u = seq!['っ'];
    assert(spans_from(u, 1, seq![]) == Seq::<MoraSpan>::empty());
    assert(kana_morae(u) =~= Seq::<Seq<char>>::empty());
}

/// A sokuon before a kana digraph gives one mora, the digraph's romaji with
/// its first letter doubled, covering all three kana (っしょ -> `ssho`); the
/// conversion goes on after the digraph.
pub proof fn lemma_sokuon_before_digraph(chars: Seq<char>, i: int, acc: Seq<MoraSpan>)
    requires
        0 <= i,
        i + 2 < chars.len(),
        chars[i] == 'っ',
        youon_mora_spec(chars[i + 1], chars[i + 2]) is Some,
    ensures
        spans_from(chars, i, acc) == spans_from(
            chars,
            i + 3,
            acc.push((i, i + 3, doubled_spec(youon_mora_spec(chars[i + 1], chars[i + 2])->0))),
        ),
{
}

/// A kana digraph gives one mora covering both kana: the small ゃ, ゅ, ょ (or
/// other small kana) after a kana it combines with is never a mora of its own.
pub proof fn lemma_digraph_one_mora(chars: Seq<char>, i: int, acc: Seq<MoraSpan>)
    requires
        0 <= i,
        i + 1 < chars.len(),
        chars[i] != 'っ',
        chars[i] != 'ー',
        youon_mora_spec(chars[i], chars[i + 1]) is Some,
    ensures
        spans_from(chars, i, acc) == spans_from(
            chars,
            i + 2,
            acc.push((i, i + 2, youon_mora_spec(chars[i], chars[i + 1])->0)),
        ),
{
}

/// The three kana of a sokuon and a digraph alone make exactly one mora
/// (`っしょ` -> [`ssho`], `っきゃ` -> [`kkya`]), and a digraph alone its romaji.
pub proof fn lemma_sokuon_digraph_morae(a: char, b: char)
    requires
        youon_mora_spec(a, b) is Some,
    ensures
        kana_morae(seq!['っ', a, b]) == seq![doubled_spec(youon_mora_spec(a, b)->0)],
        kana_morae(seq![a, b]) == seq![youon_mora_spec(a, b)->0],
{
    let s = seq!['っ', a, b];
    lemma_sokuon_before_digraph(s, 0, seq![]);
    assert(kana_spans(s) == seq![(0int, 3int, doubled_spec(youon_mora_spec(a, b)->0))]) by {
        assert(seq![].push((0int, 3int, doubled_spec(youon_mora_spec(a, b)->0))) =~= seq![
            (0int, 3int, doubled_spec(youon_mora_spec(a, b)->0)),
        ]);
    }
    assert(kana_morae(s) =~= seq![doubled_spec(youon_mora_spec(a, b)->0)]);
    let t = seq![a, b];
    assert(a != 'っ' && a != 'ー') by {
        assert(youon_mora_spec('っ', b) is None);
        assert(youon_mora_spec('ー', b) is None);
    }
    lemma_digraph_one_mora(t, 0, seq![]);
    assert(seq![].push((0int, 2int, youon_mora_spec(a, b)->0)) =~= seq![(0int, 2int, youon_mora_spec(a, b)->0)]);
    assert(kana_morae(t) =~= seq![youon_mora_spec(a, b)->0]);
}

/// A sokuon before a single kana gives one mora, its romaji with the first
/// letter doubled (`っか` -> [`kka`]).
pub proof fn lemma_sokuon_single_morae(c: char)
    requires
        single_mora_spec(c) is Some,
    ensures
        kana_morae(seq!['っ', c]) == seq![doubled_spec(single_mora_spec(c)->0)],
{
    let s = seq!['っ', c];
    assert(s[0] == 'っ' && s[1] == c);
    assert(kana_unit(s, 1) == (1int, single_mora_spec(c)));
    let x = seq![].push((0int, 2int, doubled_spec(single_mora_spec(c)->0)));
    assert(spans_from(s, 2, x) == x);
    assert(spans_from(s, 0, seq![]) == spans_from(s, 2, x));
    assert(kana_spans(s) == seq![(0int, 2int, doubled_spec(single_mora_spec(c)->0))]) by {
        assert(seq![].push((0int, 2int, doubled_spec(single_mora_spec(c)->0))) =~= seq![
            (0int, 2int, doubled_spec(single_mora_spec(c)->0)),
        ]);
    }
    assert(kana_morae(s) =~= seq![doubled_spec(single_mora_spec(c)->0)]);
}

/// Every span lies within the converted string and covers at least one char;
/// spans come in order without overlapping.
pub open spec fn spans_within(spans: Seq<MoraSpan>, lo: int, hi: int) -> bool {
    &&& forall|k: int| 0 <= k < spans.len() ==> lo <= #[trigger] spans[k].0 < spans[k].1 <= hi
    &&& forall|k: int| 0 < k < spans.len() ==> spans[k - 1].1 <= #[trigger] spans[k].0
}

/// Conversion from position `i` appends spans within `[i, chars.len()]`, in order.
pub proof fn lemma_spans_within(chars: Seq<char>, i: int, acc: Seq<MoraSpan>)
    requires
        0 <= i <= chars.len(),
        spans_within(acc, 0, i),
    ensures
        spans_within(spans_from(chars, i, acc), 0, chars.len() as int),
        acc.len() <= spans_from(chars, i, acc).len(),
        forall|k: int| 0 <= k < acc.len() ==> #[trigger] spans_from(chars, i, acc)[k] == acc[k],
    decreases chars.len() - i,
{
    if i >= chars.len() {
    } else if chars[i] == 'ー' {
        let next = if acc.len() > 0 {
            acc.push((i, i + 1, seq![last_vowel_spec(acc.last().2)]))
        } else {
            acc
        };
        assert(spans_within(next, 0, i + 1)) by {
            assert forall|k: int| 0 <= k < next.len() implies 0 <= #[trigger] next[k].0 < next[k].1 <= i + 1 by {
                if k < acc.len() {
                    assert(next[k] == acc[k]);
                }
            }
            assert forall|k: int| 0 < k < next.len() implies next[k - 1].1 <= #[trigger] next[k].0 by {
                if k < acc.len() {
                    assert(next[k] == acc[k]);
                    assert(next[k - 1] == acc[k - 1]);
                } else {
                    assert(next[k - 1] == acc[k - 1]);
                    assert(acc[k - 1].0 < acc[k - 1].1);
                }
            }
        }
        lemma_spans_within(chars, i + 1, next);
        assert(spans_from(chars, i, acc) == spans_from(chars, i + 1, next));
        assert forall|k: int| 0 <= k < acc.len() implies #[trigger] spans_from(chars, i, acc)[k] == acc[k] by {
            assert(next[k] == acc[k]);
        }
    } else if chars[i] == 'っ' {
        if i + 1 < chars.len() && kana_unit(chars, i + 1).1 is Some {
            let u = kana_unit(chars, i + 1);
            lemma_kana_unit_romaji(chars, i + 1);
            let next = acc.push((i, i + 1 + u.0, doubled_spec(u.1->0)));
            assert(spans_within(next, 0, i + 1 + u.0)) by {
                assert forall|k: int| 0 <= k < next.len() implies 0 <= #[trigger] next[k].0 < next[k].1 <= i + 1 + u.0 by {
                    if k < acc.len() {
                        assert(next[k] == acc[k]);
                    }
                }
                assert forall|k: int| 0 < k < next.len() implies next[k - 1].1 <= #[trigger] next[k].0 by {
                    if k < acc.len() {
                        assert(next[k] == acc[k]);
                        assert(next[k - 1] == acc[k - 1]);
                    } else {
                        assert(next[k - 1] == acc[k - 1]);
                        assert(acc[k - 1].0 < acc[k - 1].1);
                    }
                }
            }
            lemma_spans_within(chars, i + 1 + u.0, next);
            assert(spans_from(chars, i, acc) == spans_from(chars, i + 1 + u.0, next));
            assert forall|k: int| 0 <= k < acc.len() implies #[trigger] spans_from(chars, i, acc)[k] == acc[k] by {
                assert(next[k] == acc[k]);
            }
        } else {
            lemma_spans_within(chars, i + 1, acc);
            assert(spans_from(chars, i, acc) == spans_from(chars, i + 1, acc));
        }
    } else {
        let u = kana_unit(chars, i);
        lemma_kana_unit_romaji(chars, i);
        let next = match u.1 {
            Some(m) => acc.push((i, i + u.0, m)),
            None => acc,
        };
        assert(spans_within(next, 0, i + u.0)) by {
            assert forall|k: int| 0 <= k < next.len() implies 0 <= #[trigger] next[k].0 < next[k].1 <= i + u.0 by {
                if k < acc.len() {
                    assert(next[k] == acc[k]);
                }
            }
            assert forall|k: int| 0 < k < next.len() implies next[k - 1].1 <= #[trigger] next[k].0 by {
                if k < acc.len() {
                    assert(next[k] == acc[k]);
                    assert(next[k - 1] == acc[k - 1]);
                } else {
                    assert(next[k - 1] == acc[k - 1]);
                    assert(acc[k - 1].0 < acc[k - 1].1);
                }
            }
        }
        lemma_spans_within(chars, i + u.0, next);
        assert(spans_from(chars, i, acc) == spans_from(chars, i + u.0, next));
        assert forall|k: int| 0 <= k < acc.len() implies #[trigger] spans_from(chars, i, acc)[k] == acc[k] by {
            assert(next[k] == acc[k]);
        }
    }
}

/// The spans of a kana string lie within it, in order.
pub proof fn lemma_kana_spans_within(s: Seq<char>)
    ensures
        spans_within(kana_spans(s), 0, s.len() as int),
{
    lemma_spans_within(s, 0, seq![]);
}

// ---------------------------------------------------------------------------
// Implementation
// ---------------------------------------------------------------------------

/// Convert katakana characters to their hiragana equivalents; everything else is untouched.
pub fn katakana_to_hiragana(s: &str) -> (r: String)
    ensures
        r@ == kata_to_hira(s@),
{
    let chars = str_chars(s);
    let mut out = String::new();
    let mut i: usize = 0;
    while i < chars.len()
        invariant
            i <= chars.len(),
            chars@ == s@,
            out@ == kata_to_hira(chars@.take(i as int)),
        decreases chars.len() - i,
    {
        let c = chars[i];
        let v = c as u32;
        let h = if 0x30A1 <= v && v <= 0x30F6 {
            match char_from_u32(v - 0x60) {
                Some(h) => h,
                None => c,
            }
        } else {
            c
        };
        proof {
            if 0x30A1 <= v && v <= 0x30F6 {
                vstd::utf8::char_u32_cast(h, (v - 0x60) as u32);
            }
        }
        assert(h == kata_to_hira_char(c));
        string_push(&mut out, h);
        i += 1;
        assert(kata_to_hira(chars@.take(i as int)) =~= kata_to_hira(chars@.take(i - 1)).push(
            kata_to_hira_char(chars@[i - 1]),
        ));
    }
    assert(chars@.take(chars.len() as int) =~= chars@);
    out
}

/// Convert a hiragana string into its mora list, expanding sokuon (っ) and
/// the long vowel mark (ー) along the way.
pub fn hiragana_to_morae(s: &str) -> (r: Vec<String>)
    ensures
        strings_view(r@) == kana_morae(s@),
{
    let spans = hiragana_to_morae_with_spans(s);
    let mut r: Vec<String> = Vec::new();
    let mut k: usize = 0;
    while k < spans.len()
        invariant
            k <= spans.len(),
            spans_view(spans@) == kana_spans(s@),
            r.len() == k,
            forall|j: int| 0 <= j < k ==> #[trigger] r@[j]@ == spans@[j].2@,
        decreases spans.len() - k,
    {
        r.push(spans[k].2.clone());
        k += 1;
    }
    assert(strings_view(r@) =~= kana_morae(s@));
    r
}

/// Same as [`hiragana_to_morae`] but also returns, for each mora, the char
/// range (in `s`) of the kana that produced it. Used to map a matched mora
/// back to the source text for highlighting.
pub fn hiragana_to_morae_with_spans(s: &str) -> (r: Vec<(usize, usize, String)>)
    ensures
        spans_view(r@) == kana_spans(s@),
{
    let chars = str_chars(s);
    let mut result: Vec<(usize, usize, String)> = Vec::new();
    let mut i: usize = 0;
    assert(spans_view(result@) =~= seq![]);
    while i < chars.len()
        invariant
            i <= chars.len(),
            chars@ == s@,
            spans_from(chars@, 0, seq![]) == spans_from(chars@, i as int, spans_view(result@)),
        decreases chars.len() - i,
    {
        let ghost before = spans_view(result@);
        let c = chars[i];
        if c == 'ー' {
            if result.len() > 0 {
                let last = result.len() - 1;
                let vowel = last_vowel(result[last].2.as_str());
                result.push((i, i + 1, char_to_string(vowel)));
                assert(spans_view(result@) =~= before.push(
                    (i as int, i + 1, seq![last_vowel_spec(before.last().2)]),
                ));
            }
            i += 1;
            continue;
        }
        if c == 'っ' {
            if i + 1 < chars.len() {
                let (unit_len, unit_mora) = next_hiragana_unit(&chars, i + 1);
                if let Some(base) = unit_mora {
                    let doubled = double_leading_consonant(base.as_str());
                    result.push((i, i + 1 + unit_len, doubled));
                    assert(spans_view(result@) =~= before.push(
                        (i as int, i + 1 + unit_len, doubled_spec(base@)),
                    ));
                    i += 1 + unit_len;
                    continue;
                }
            }
            i += 1;
            continue;
        }
        let (unit_len, unit_mora) = next_hiragana_unit(&chars, i);
        if let Some(m) = unit_mora {
            let ghost mv = m@;
            result.push((i, i + unit_len, m));
            assert(spans_view(result@) =~= before.push((i as int, i + unit_len, mv)));
        }
        i += unit_len;
    }
    result
}

/// Read one kana unit (a youon digraph or a single kana) starting at `i`.
/// Returns the number of chars consumed and its romaji, if known.
fn next_hiragana_unit(chars: &Vec<char>, i: usize) -> (r: (usize, Option<String>))
    requires
        i < chars.len(),
    ensures
        r.0 == kana_unit(chars@, i as int).0,
        opt_string_view(r.1) == kana_unit(chars@, i as int).1,
{
    if i + 1 < chars.len() {
        if let Some(m) = youon_mora(chars[i], chars[i + 1]) {
            return (2, Some(m.to_owned()));
        }
    }
    match single_mora(chars[i]) {
        Some(m) => (1, Some(m.to_owned())),
        None => (1, None),
    }
}

/// The mora with its first letter doubled, as a sokuon before it sounds.
fn double_leading_consonant(base: &str) -> (r: String)
    ensures
        r@ == doubled_spec(base@),
{
    let chars = str_chars(base);
    if chars.len() > 0 {
        let mut out = char_to_string(chars[0]);
        string_append(&mut out, base);
        out
    } else {
        base.to_owned()
    }
}

/// The vowel a long vowel mark after `mora` stands for: its last letter.
fn last_vowel(mora: &str) -> (r: char)
    ensures
        r == last_vowel_spec(mora@),
{
    let chars = str_chars(mora);
    if chars.len() > 0 {
        chars[chars.len() - 1]
    } else {
        'a'
    }
}

/// Look up a plain (non-doubled) romaji token, the `len` chars at `start`,
/// normalizing common spelling fluctuations (si -> shi, ti -> chi, ...) to the
/// canonical mora used by [`hiragana_to_morae`].
fn lookup_plain_token(chars: &Vec<char>, start: usize, len: usize) -> (r: Option<&'static str>)
    requires
        start + len <= chars.len(),
    ensures
        opt_str_view(r) == plain_token_spec(chars@.subrange(start as int, start + len)),
{
    let ghost t = chars@.subrange(start as int, start + len);
    if len == 1 {
        plain_token1(chars[start])
    } else if len == 2 {
        plain_token2(chars[start], chars[start + 1])
    } else if len == 3 {
        plain_token3(chars[start], chars[start + 1], chars[start + 2])
    } else {
        None
    }
}

/// The plain token of `len` chars at `pos`, if those chars exist and form one.
fn token_at_exec(chars: &Vec<char>, pos: usize, len: usize) -> (r: Option<&'static str>)
    requires
        pos <= chars.len(),
    ensures
        opt_str_view(r) == token_at(chars@, pos as int, len as int),
{
    if len <= chars.len() - pos {
        lookup_plain_token(chars, pos, len)
    } else {
        None
    }
}

/// Try to match one mora token at `chars[pos..]`, either a plain token (up to 4
/// chars, longest match first) or a sokuon-doubled consonant (e.g. "kka").
/// Returns the number of chars consumed and the canonical mora string.
fn match_token(chars: &Vec<char>, pos: usize) -> (r: Option<(usize, String)>)
    requires
        pos < chars.len(),
    ensures
        match r {
            Some((l, m)) => match_token_spec(chars@, pos as int) == Some((l as int, m@)),
            None => match_token_spec(chars@, pos as int) is None,
        },
{
    let mut len: usize = 4;
    while len >= 1
        invariant
            1 <= len + 1 <= 5,
            pos < chars.len(),
            forall|l: int| len < l <= 4 ==> #[trigger] token_at(chars@, pos as int, l) is None,
        decreases len,
    {
        if let Some(canon) = token_at_exec(chars, pos, len) {
            return Some((len, canon.to_owned()));
        }
        len -= 1;
    }
    assert(token_at(chars@, pos as int, 4) is None);
    assert(token_at(chars@, pos as int, 3) is None);
    assert(token_at(chars@, pos as int, 2) is None);
    assert(token_at(chars@, pos as int, 1) is None);
    if pos + 1 < chars.len() && chars[pos] == chars[pos + 1] && chars[pos] != 'n' {
        let mut len: usize = 3;
        while len >= 1
            invariant
                1 <= len + 1 <= 4,
                pos + 1 < chars.len(),
                forall|l: int| len < l <= 3 ==> #[trigger] token_at(chars@, pos + 1, l) is None,
                token_at(chars@, pos as int, 4) is None,
                token_at(chars@, pos as int, 3) is None,
                token_at(chars@, pos as int, 2) is None,
                token_at(chars@, pos as int, 1) is None,
                chars[pos as int] == chars[pos + 1],
                chars[pos as int] != 'n',
            decreases len,
        {
            if let Some(canon) = token_at_exec(chars, pos + 1, len) {
                let doubled = double_leading_consonant(canon);
                return Some((1 + len, doubled));
            }
            len -= 1;
        }
        assert(token_at(chars@, pos + 1, 3) is None);
        assert(token_at(chars@, pos + 1, 2) is None);
        assert(token_at(chars@, pos + 1, 1) is None);
    }
    None
}

/// Decompose a user-typed romaji query into a mora list, stopping (dropping the
/// rest) as soon as an unrecognized/incomplete fragment is hit. For example
/// "geng" -> ["ge", "n"], the trailing "g" is dropped rather than guessed at.
pub fn query_to_morae(query: &str) -> (r: Vec<String>)
    ensures
        strings_view(r@) == query_morae_spec(query@),
{
    let lower = str_to_lowercase(query);
    let chars = str_chars(lower.as_str());
    let mut morae: Vec<String> = Vec::new();
    let mut i: usize = 0;
    assert(strings_view(morae@) =~= seq![]);
    while i < chars.len()
        invariant
            i <= chars.len(),
            chars@ == str_lowercase(query@),
            tokens_from(chars@, 0) == strings_view(morae@) + tokens_from(chars@, i as int),
        decreases chars.len() - i,
    {
        match match_token(&chars, i) {
            Some((len, mora)) => {
                let ghost before = strings_view(morae@);
                let ghost mv = mora@;
                morae.push(mora);
                assert(strings_view(morae@) =~= before.push(mv));
                assert(before + (seq![mv] + tokens_from(chars@, i + len)) =~= before.push(mv)
                    + tokens_from(chars@, i + len));
                i += len;
            },
            None => {
                assert(strings_view(morae@) + tokens_from(chars@, i as int) =~= strings_view(morae@));
                return morae;
            },
        }
    }
    assert(strings_view(morae@) + tokens_from(chars@, i as int) =~= strings_view(morae@));
    morae
}

} // verus!
