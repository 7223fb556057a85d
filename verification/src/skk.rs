//! What an SKK-JISYO dictionary text means: its lines, the entries of its
//! "okuri-nasi" section, and the word -> mora-list map built from them with
//! the first-seen reading of each word.

use vstd::prelude::*;
use crate::romaji::kana_morae;
use crate::text::{find_from, lemma_find_from_bounds};

verus! {

/// The word -> mora-list map of a dictionary.
pub type DictMap = Map<Seq<char>, Seq<Seq<char>>>;

/// A line with one trailing carriage return removed.
pub open spec fn strip_cr(line: Seq<char>) -> Seq<char> {
    if line.len() > 0 && line.last() == '\r' {
        line.drop_last()
    } else {
        line
    }
}

/// The lines of `t` from position `i` on, as `str::lines` gives them: split at
/// `\n`, a `\r` right before a `\n` dropped, no empty line after a final `\n`.
pub open spec fn lines_from(t: Seq<char>, i: int) -> Seq<Seq<char>>
    decreases t.len() - i,
{
    if 0 <= i < t.len() {
        let j = find_from(t, '\n', i);
        proof {
            lemma_find_from_bounds(t, '\n', i);
        }
        if j < t.len() {
            seq![strip_cr(t.subrange(i, j))] + lines_from(t, j + 1)
        } else {
            seq![t.subrange(i, t.len() as int)]
        }
    } else {
        seq![]
    }
}

/// The lines of a text.
pub open spec fn text_lines(t: Seq<char>) -> Seq<Seq<char>> {
    lines_from(t, 0)
}

/// The pieces of `s` between occurrences of `sep`, as `str::split` gives
/// them (empty pieces included; an empty string has one empty piece).
pub open spec fn split_on(s: Seq<char>, sep: char) -> Seq<Seq<char>>
    decreases s.len(),
{
    let j = find_from(s, sep, 0);
    proof {
        lemma_find_from_bounds(s, sep, 0);
    }
    if j < s.len() {
        seq![s.take(j)] + split_on(s.skip(j + 1), sep)
    } else {
        seq![s]
    }
}

/// Whether `s` begins with `prefix`.
pub open spec fn starts_with(s: Seq<char>, prefix: Seq<char>) -> bool {
    prefix.len() <= s.len() && s.take(prefix.len() as int) == prefix
}

/// The line that opens the section of entries without okurigana.
pub open spec fn okuri_nasi_marker() -> Seq<char> {
    ";; okuri-nasi entries"@
}

/// The word a candidate field names: the text before its first `;`
/// (annotations follow it). Empty fields, numeric placeholders (`#...`) and
/// empty words name none.
pub open spec fn candidate_word(field: Seq<char>) -> Option<Seq<char>> {
    if field.len() == 0 || field[0] == '#' {
        None
    } else {
        let w = field.take(find_from(field, ';', 0));
        if w.len() == 0 {
            None
        } else {
            Some(w)
        }
    }
}

/// The words that a sequence of candidate fields names, in order.
pub open spec fn candidate_words(fields: Seq<Seq<char>>) -> Seq<Seq<char>>
    decreases fields.len(),
{
    if fields.len() == 0 {
        seq![]
    } else {
        let rest = candidate_words(fields.drop_first());
        match candidate_word(fields[0]) {
            Some(w) => seq![w] + rest,
            None => rest,
        }
    }
}

/// The reading of an entry line (the text before its first space), if the
/// line has a space.
pub open spec fn line_reading(line: Seq<char>) -> Option<Seq<char>> {
    let sp = find_from(line, ' ', 0);
    if sp < line.len() {
        Some(line.take(sp))
    } else {
        None
    }
}

/// The candidate fields of an entry line: the text after its first space, one
/// leading `/` removed, split at `/`.
pub open spec fn line_fields(line: Seq<char>) -> Seq<Seq<char>> {
    let rest = line.skip(find_from(line, ' ', 0) + 1);
    let cands = if rest.len() > 0 && rest[0] == '/' {
        rest.skip(1)
    } else {
        rest
    };
    split_on(cands, '/')
}

/// The words an entry line gives a reading to, with that reading's mora list:
/// none when the line has no space or its reading converts to no mora.
pub open spec fn line_entries(line: Seq<char>) -> (Seq<Seq<char>>, Seq<Seq<char>>) {
    match line_reading(line) {
        Some(reading) => {
            let morae = kana_morae(reading);
            if morae.len() == 0 {
                (seq![], morae)
            } else {
                (candidate_words(line_fields(line)), morae)
            }
        },
        None => (seq![], seq![]),
    }
}

/// `m` with each of `words` mapped to `morae`, unless the word already has a
/// mora list (the first-seen reading wins).
pub open spec fn add_first_seen(m: DictMap, words: Seq<Seq<char>>, morae: Seq<Seq<char>>) -> DictMap
    decreases words.len(),
{
    if words.len() == 0 {
        m
    } else {
        let m1 = if m.contains_key(words[0]) {
            m
        } else {
            m.insert(words[0], morae)
        };
        add_first_seen(m1, words.drop_first(), morae)
    }
}

/// The dictionary built from `lines` onwards, given whether the okuri-nasi
/// section has begun and the map so far. Before the section every line is
/// skipped (the marker line opens it); inside it, comment (`;`) and empty
/// lines are skipped and every other line adds its entries.
pub open spec fn fold_lines(lines: Seq<Seq<char>>, in_section: bool, m: DictMap) -> DictMap
    decreases lines.len(),
{
    if lines.len() == 0 {
        m
    } else {
        let line = lines[0];
        let rest = lines.drop_first();
        if !in_section {
            fold_lines(rest, starts_with(line, okuri_nasi_marker()), m)
        } else if line.len() == 0 || line[0] == ';' {
            fold_lines(rest, true, m)
        } else {
            let (words, morae) = line_entries(line);
            fold_lines(rest, true, add_first_seen(m, words, morae))
        }
    }
}

/// The dictionary that an SKK-JISYO text describes.
pub open spec fn skk_model(text: Seq<char>) -> DictMap {
    fold_lines(text_lines(text), false, Map::empty())
}

} // verus!
