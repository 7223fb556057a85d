//! Shell completion of path tokens against directory entries: the token is
//! split into the directory prefix kept verbatim and the leaf fragment, the
//! entries are filtered by kind and ranked against the fragment with the
//! romaji-mora searcher, and each candidate is formatted back into a path.
//! Also the command line of the completion helper.

use vstd::prelude::*;
use vstd::utf8::{decode_utf8, encode_utf8};
use crate::dictionary::SkkDictionary;
use crate::searcher::{results_view, search_from, MigemoSearcher};
use crate::text::{
    lemma_encode_utf8_push_len, lemma_encode_utf8_split, opt_string_view, str_chars, str_eq, string_append,
    string_push, strings_view, utf8_width,
};

verus! {

broadcast use vstd::string::group_string_axioms;

/// Which directory entries a completion offers.
#[derive(Debug, Clone, Copy, PartialEq, Eq, Structural)]
pub enum Kind {
    Dir,
    File,
    Any,
}

/// The kind a command-line word names, if any.
pub open spec fn kind_named(s: Seq<char>) -> Option<Kind> {
    if s == "dir"@ {
        Some(Kind::Dir)
    } else if s == "file"@ {
        Some(Kind::File)
    } else if s == "any"@ {
        Some(Kind::Any)
    } else {
        None
    }
}

/// Whether an entry is offered for a kind.
pub open spec fn kind_admits(kind: Kind, is_dir: bool) -> bool {
    match kind {
        Kind::Dir => is_dir,
        Kind::File => !is_dir,
        Kind::Any => true,
    }
}

impl Kind {
    /// The kind named `dir`, `file` or `any`.
    pub fn parse(s: &str) -> (r: Option<Self>)
        ensures
            r == kind_named(s@),
    {
        if str_eq(s, "dir") {
            Some(Kind::Dir)
        } else if str_eq(s, "file") {
            Some(Kind::File)
        } else if str_eq(s, "any") {
            Some(Kind::Any)
        } else {
            None
        }
    }
}

/// One directory entry as seen by the shell, decoupled from the file system
/// so that callers can supply fixtures.
#[derive(Debug, Clone)]
pub struct Entry {
    pub name: String,
    pub is_dir: bool,
}

// ---------------------------------------------------------------------------
// Splitting a token
// ---------------------------------------------------------------------------

/// `/` and `\` separate path segments.
pub open spec fn is_path_separator(c: char) -> bool {
    c == '/' || c == '\\'
}

/// The position just after the last separator among the first `i` chars, or 0.
pub open spec fn last_separator_end(s: Seq<char>, i: int) -> int
    decreases i,
{
    if i <= 0 {
        0
    } else if is_path_separator(s[i - 1]) {
        i
    } else {
        last_separator_end(s, i - 1)
    }
}

/// Where a token splits: just after its last separator, or at its start.
pub open spec fn split_point(s: Seq<char>) -> int {
    last_separator_end(s, s.len() as int)
}

/// The split point is the start or just after a separator, and no separator
/// follows it.
pub proof fn lemma_split_point(s: Seq<char>, i: int)
    requires
        0 <= i <= s.len(),
        forall|k: int| i <= k < s.len() ==> !is_path_separator(#[trigger] s[k]),
    ensures
        0 <= last_separator_end(s, i) <= i,
        last_separator_end(s, i) == 0 || is_path_separator(s[last_separator_end(s, i) - 1]),
        forall|k: int| last_separator_end(s, i) <= k < s.len() ==> !is_path_separator(#[trigger] s[k]),
    decreases i,
{
    if i > 0 && !is_path_separator(s[i - 1]) {
        lemma_split_point(s, i - 1);
    }
}

/// Split a raw completion token (as typed by the user, e.g. `"Documents/ap"`)
/// into the directory prefix to keep verbatim (`"Documents/"`) and the leaf
/// fragment to match against entry names (`"ap"`). A token with no separator
/// has an empty prefix.
pub fn split_token(token: &str) -> (r: (&str, &str))
    ensures
        r.0@ == token@.take(split_point(token@)),
        r.1@ == token@.skip(split_point(token@)),
        r.0@ + r.1@ == token@,
        r.0@.len() == 0 || is_path_separator(r.0@.last()),
        forall|k: int| 0 <= k < r.1@.len() ==> !is_path_separator(#[trigger] r.1@[k]),
{
    broadcast use vstd::utf8::encode_utf8_decode_utf8;

    let chars = str_chars(token);
    let mut i = chars.len();
    while i > 0 && !(chars[i - 1] == '/' || chars[i - 1] == '\\')
        invariant
            i <= chars.len(),
            chars@ == token@,
            split_point(token@) == last_separator_end(chars@, i as int),
        decreases i,
    {
        i -= 1;
    }
    assert(last_separator_end(chars@, i as int) == i);
    let total = token.as_bytes().len();
    let mut b: usize = 0;
    let mut k: usize = 0;
    assert(chars@.take(0) =~= Seq::<char>::empty());
    while k < i
        invariant
            k <= i <= chars.len(),
            chars@ == token@,
            b == encode_utf8(chars@.take(k as int)).len(),
            total == encode_utf8(chars@).len(),
        decreases i - k,
    {
        proof {
            lemma_encode_utf8_push_len(chars@, k as int);
            lemma_encode_utf8_split(chars@, k + 1);
        }
        b = b + utf8_width(chars[k]);
        k += 1;
    }
    proof {
        lemma_encode_utf8_split(token@, i as int);
        let bytes = encode_utf8(token@);
        assert(bytes.subrange(0, b as int) =~= encode_utf8(token@.take(i as int)));
        assert(bytes.subrange(b as int, bytes.len() as int) =~= encode_utf8(token@.skip(i as int)));
    }
    let r = token.split_at(b);
    proof {
        lemma_split_point(token@, token@.len() as int);
        assert(token@.take(i as int) + token@.skip(i as int) =~= token@);
        assert forall|k: int| 0 <= k < token@.skip(i as int).len() implies !is_path_separator(
            #[trigger] token@.skip(i as int)[k],
        ) by {
            assert(token@.skip(i as int)[k] == token@[i + k]);
        }
        assert(decode_utf8(encode_utf8(r.0@)) == r.0@);
        assert(decode_utf8(encode_utf8(token@.take(i as int))) == token@.take(i as int));
        assert(decode_utf8(encode_utf8(r.1@)) == r.1@);
        assert(decode_utf8(encode_utf8(token@.skip(i as int))) == token@.skip(i as int));
    }
    r
}

/// Combine the verbatim directory prefix with a matched entry name, adding a
/// trailing separator for directories so the shell can chain another Tab
/// press straight into the next path segment.
pub fn format_candidate(dir_prefix: &str, entry: &Entry) -> (r: String)
    ensures
        r@ == dir_prefix@ + entry.name@ + (if entry.is_dir {
            seq!['/']
        } else {
            Seq::<char>::empty()
        }),
{
    let mut out = dir_prefix.to_owned();
    string_append(&mut out, entry.name.as_str());
    if entry.is_dir {
        string_push(&mut out, '/');
    } else {
        assert(out@ + Seq::<char>::empty() =~= out@);
    }
    out
}

// ---------------------------------------------------------------------------
// Ranking candidates
// ---------------------------------------------------------------------------

/// The names of the entries offered for `kind`, in order.
pub open spec fn admitted_names(es: Seq<Entry>, kind: Kind) -> Seq<Seq<char>>
    decreases es.len(),
{
    if es.len() == 0 {
        seq![]
    } else {
        let rest = admitted_names(es.drop_last(), kind);
        if kind_admits(kind, es.last().is_dir) {
            rest.push(es.last().name@)
        } else {
            rest
        }
    }
}

/// Lexicographic order of char sequences by code point (the order of `Ord`
/// on strings): `a` comes strictly before `b`.
pub open spec fn chars_lt(a: Seq<char>, b: Seq<char>) -> bool
    decreases a.len(),
{
    if a.len() == 0 {
        b.len() > 0
    } else if b.len() == 0 {
        false
    } else if a[0] != b[0] {
        a[0] < b[0]
    } else {
        chars_lt(a.drop_first(), b.drop_first())
    }
}

/// A candidate ranks before another: a higher score, or the same score and an
/// alphabetically earlier name.
pub open spec fn ranks_before(a: (int, Seq<char>), b: (int, Seq<char>)) -> bool {
    a.0 > b.0 || (a.0 == b.0 && chars_lt(a.1, b.1))
}

/// `x` inserted into `s` before the first candidate it ranks before.
pub open spec fn insert_ranked(x: (int, Seq<char>), s: Seq<(int, Seq<char>)>) -> Seq<(int, Seq<char>)>
    decreases s.len(),
{
    if s.len() == 0 {
        seq![x]
    } else if ranks_before(x, s[0]) {
        seq![x] + s
    } else {
        seq![s[0]] + insert_ranked(x, s.drop_first())
    }
}

/// The candidates in rank order; candidates that rank alike keep their order.
pub open spec fn sort_ranked(s: Seq<(int, Seq<char>)>) -> Seq<(int, Seq<char>)>
    decreases s.len(),
{
    if s.len() == 0 {
        seq![]
    } else {
        insert_ranked(s.last(), sort_ranked(s.drop_last()))
    }
}

/// The names of candidates in rank order.
pub open spec fn ranked_names(s: Seq<(int, Seq<char>)>) -> Seq<Seq<char>> {
    sort_ranked(s).map_values(|p: (int, Seq<char>)| p.1)
}

/// The completion candidates: the names of the entries offered for `kind`; all
/// of them alphabetically for an empty query, else those the searcher hits,
/// by score, highest first, and alphabetically among equal scores.
pub open spec fn rank_spec(entries: Seq<Entry>, query: Seq<char>, kind: Kind, dict: SkkDictionary) -> Seq<Seq<char>> {
    let names = admitted_names(entries, kind);
    if query.len() == 0 {
        ranked_names(names.map_values(|n: Seq<char>| (0int, n)))
    } else {
        ranked_names(
            search_from(dict, names, query, 0).map_values(|h: (int, Seq<int>, int)| (h.2, names[h.0])),
        )
    }
}

/// `chars_lt` is a strict total order.
pub proof fn lemma_chars_lt_order(a: Seq<char>, b: Seq<char>, c: Seq<char>)
    ensures
        !chars_lt(a, a),
        chars_lt(a, b) ==> !chars_lt(b, a),
        a != b ==> chars_lt(a, b) || chars_lt(b, a),
        chars_lt(a, b) && chars_lt(b, c) ==> chars_lt(a, c),
    decreases a.len(),
{
    if a.len() > 0 && b.len() > 0 && c.len() > 0 {
        lemma_chars_lt_order(a.drop_first(), b.drop_first(), c.drop_first());
    } else if a.len() > 0 && b.len() > 0 {
        lemma_chars_lt_order(a.drop_first(), b.drop_first(), b.drop_first());
    } else if a.len() > 0 {
        lemma_chars_lt_order(a.drop_first(), a.drop_first(), a.drop_first());
    }
    if a.len() == 0 && b.len() == 0 {
        assert(a =~= b);
    }
    if a.len() > 0 && b.len() > 0 && a[0] == b[0] && a != b {
        assert(a.drop_first() != b.drop_first()) by {
            if a.drop_first() == b.drop_first() {
                assert(a =~= seq![a[0]] + a.drop_first());
                assert(b =~= seq![b[0]] + b.drop_first());
            }
        }
    }
}

/// `chars_lt` is the lexicographic order by code point, as `Ord` on strings
/// orders them: `a` comes before `b` exactly when `a` is a proper prefix of
/// `b`, or at the first place where they differ `a` has the smaller char.
pub proof fn lemma_chars_lt_lexicographic(a: Seq<char>, b: Seq<char>)
    ensures
        chars_lt(a, b) <==> ((a.len() < b.len() && b.take(a.len() as int) == a) || exists|k: int|
            0 <= k < a.len() && k < b.len() && a.take(k) == b.take(k) && #[trigger] a[k] < #[trigger] b[k]),
    decreases a.len(),
{
    if a.len() == 0 {
        assert(b.take(0) =~= a);
    } else if b.len() == 0 {
    } else if a[0] != b[0] {
        if a[0] < b[0] {
            assert(a.take(0) =~= b.take(0));
            assert(0 < a.len() && 0 < b.len() && a.take(0) == b.take(0) && a[0] < b[0]);
        }
        if exists|k: int| 0 <= k < a.len() && k < b.len() && a.take(k) == b.take(k) && #[trigger] a[k] < #[trigger] b[k] {
            let k = choose|k: int| 0 <= k < a.len() && k < b.len() && a.take(k) == b.take(k) && #[trigger] a[k] < #[trigger] b[k];
            if k > 0 {
                assert(a.take(k)[0] == b.take(k)[0]);
            }
        }
        if a.len() < b.len() && b.take(a.len() as int) == a {
            assert(b.take(a.len() as int)[0] == b[0]);
        }
    } else {
        let a1 = a.drop_first();
        let b1 = b.drop_first();
        lemma_chars_lt_lexicographic(a1, b1);
        assert((a.len() < b.len() && b.take(a.len() as int) == a) <==> (a1.len() < b1.len() && b1.take(
            a1.len() as int,
        ) == a1)) by {
            if a.len() < b.len() {
                if b.take(a.len() as int) == a {
                    assert(b1.take(a1.len() as int) =~= b.take(a.len() as int).drop_first());
                }
                if b1.take(a1.len() as int) == a1 {
                    assert forall|i: int| 0 <= i < a.len() implies b.take(a.len() as int)[i] == a[i] by {
                        if i > 0 {
                            assert(b1.take(a1.len() as int)[i - 1] == a1[i - 1]);
                        }
                    }
                    assert(b.take(a.len() as int) =~= a);
                }
            }
        }
        if exists|k: int| 0 <= k < a.len() && k < b.len() && a.take(k) == b.take(k) && #[trigger] a[k] < #[trigger] b[k] {
            let k = choose|k: int| 0 <= k < a.len() && k < b.len() && a.take(k) == b.take(k) && #[trigger] a[k] < #[trigger] b[k];
            assert(k > 0);
            assert(a1.take(k - 1) =~= a.take(k).drop_first());
            assert(b1.take(k - 1) =~= b.take(k).drop_first());
            assert(a1[k - 1] == a[k] && b1[k - 1] == b[k]);
        }
        if exists|k: int| 0 <= k < a1.len() && k < b1.len() && a1.take(k) == b1.take(k) && #[trigger] a1[k] < #[trigger] b1[k] {
            let k = choose|k: int| 0 <= k < a1.len() && k < b1.len() && a1.take(k) == b1.take(k) && #[trigger] a1[k] < #[trigger] b1[k];
            assert(a.take(k + 1) =~= seq![a[0]] + a1.take(k));
            assert(b.take(k + 1) =~= seq![b[0]] + b1.take(k));
            assert(a[k + 1] == a1[k] && b[k + 1] == b1[k]);
        }
    }
}

/// A name comes alphabetically before every longer name it is a prefix of
/// (`app` before `apple`, `test` before `tests`), and never after it.
pub proof fn lemma_chars_lt_prefix_first(a: Seq<char>, s: Seq<char>)
    requires
        s.len() > 0,
    ensures
        chars_lt(a, a + s),
        !chars_lt(a + s, a),
{
    lemma_chars_lt_lexicographic(a, a + s);
    assert((a + s).take(a.len() as int) =~= a);
    lemma_chars_lt_order(a, a + s, a);
}

/// `ranks_before` is irreflexive and transitive.
proof fn lemma_ranks_before_order(a: (int, Seq<char>), b: (int, Seq<char>), c: (int, Seq<char>))
    ensures
        !ranks_before(a, a),
        ranks_before(a, b) && ranks_before(b, c) ==> ranks_before(a, c),
{
    lemma_chars_lt_order(a.1, b.1, c.1);
}

/// Inserting `x` puts it right before the first candidate it ranks before.
proof fn lemma_insert_ranked_at(x: (int, Seq<char>), s: Seq<(int, Seq<char>)>, p: int)
    requires
        0 <= p <= s.len(),
        forall|k: int| 0 <= k < p ==> !ranks_before(x, #[trigger] s[k]),
        p < s.len() ==> ranks_before(x, s[p]),
    ensures
        insert_ranked(x, s) == s.take(p) + seq![x] + s.skip(p),
    decreases p,
{
    if p == 0 {
        if s.len() == 0 {
            assert(s.take(0) + seq![x] + s.skip(0) =~= seq![x]);
        } else {
            assert(s.take(0) + seq![x] + s.skip(0) =~= seq![x] + s);
        }
    } else {
        let t = s.drop_first();
        assert forall|k: int| 0 <= k < p - 1 implies !ranks_before(x, #[trigger] t[k]) by {
            assert(t[k] == s[k + 1]);
        }
        lemma_insert_ranked_at(x, t, p - 1);
        assert(seq![s[0]] + (t.take(p - 1) + seq![x] + t.skip(p - 1)) =~= s.take(p) + seq![x] + s.skip(p));
    }
}

/// Inserting into candidates in rank order keeps them in rank order and adds
/// exactly the inserted one.
proof fn lemma_insert_ranked(x: (int, Seq<char>), s: Seq<(int, Seq<char>)>)
    requires
        forall|i: int, j: int| 0 <= i < j < s.len() ==> !ranks_before(#[trigger] s[j], #[trigger] s[i]),
    ensures
        insert_ranked(x, s).to_multiset() == s.to_multiset().insert(x),
        forall|i: int, j: int|
            0 <= i < j < insert_ranked(x, s).len() ==> !ranks_before(
                #[trigger] insert_ranked(x, s)[j],
                #[trigger] insert_ranked(x, s)[i],
            ),
    decreases s.len(),
{
    broadcast use vstd::seq_lib::group_to_multiset_ensures;

    let r = insert_ranked(x, s);
    if s.len() == 0 {
        assert(r =~= seq![x]);
        assert(seq![x] =~= Seq::<(int, Seq<char>)>::empty().push(x));
    } else if ranks_before(x, s[0]) {
        vstd::seq_lib::lemma_multiset_commutative(seq![x], s);
        assert(seq![x] =~= Seq::<(int, Seq<char>)>::empty().push(x));
        assert forall|i: int, j: int| 0 <= i < j < r.len() implies !ranks_before(#[trigger] r[j], #[trigger] r[i]) by {
            if i == 0 {
                assert(r[j] == s[j - 1]);
                if j - 1 > 0 {
                    assert(!ranks_before(s[j - 1], s[0]));
                }
                lemma_ranks_before_order(s[j - 1], x, s[0]);
            } else {
                assert(r[i] == s[i - 1] && r[j] == s[j - 1]);
            }
        }
    } else {
        let t = s.drop_first();
        assert forall|i: int, j: int| 0 <= i < j < t.len() implies !ranks_before(#[trigger] t[j], #[trigger] t[i]) by {
            assert(t[i] == s[i + 1] && t[j] == s[j + 1]);
        }
        lemma_insert_ranked(x, t);
        let it = insert_ranked(x, t);
        vstd::seq_lib::lemma_multiset_commutative(seq![s[0]], it);
        vstd::seq_lib::lemma_multiset_commutative(seq![s[0]], t);
        assert(s =~= seq![s[0]] + t);
        assert forall|i: int, j: int| 0 <= i < j < r.len() implies !ranks_before(#[trigger] r[j], #[trigger] r[i]) by {
            if i == 0 {
                assert(r[j] == it[j - 1]);
                assert(it.to_multiset().count(it[j - 1]) > 0);
                assert(it.to_multiset().count(r[j]) > 0);
                if r[j] != x {
                    assert(t.to_multiset().count(r[j]) > 0);
                    assert(t.contains(r[j]));
                    let k = choose|k: int| 0 <= k < t.len() && t[k] == r[j];
                    assert(s[k + 1] == r[j]);
                }
            } else {
                assert(r[i] == it[i - 1] && r[j] == it[j - 1]);
            }
        }
    }
}

/// The ranked candidates are the given ones, each listed after none that it
/// ranks before: the highest scores first, then alphabetical.
pub proof fn lemma_sort_ranked(s: Seq<(int, Seq<char>)>)
    ensures
        sort_ranked(s).to_multiset() == s.to_multiset(),
        forall|i: int, j: int|
            0 <= i < j < sort_ranked(s).len() ==> !ranks_before(
                #[trigger] sort_ranked(s)[j],
                #[trigger] sort_ranked(s)[i],
            ),
    decreases s.len(),
{
    broadcast use vstd::seq_lib::group_to_multiset_ensures;

    if s.len() > 0 {
        lemma_sort_ranked(s.drop_last());
        lemma_insert_ranked(s.last(), sort_ranked(s.drop_last()));
        assert(s =~= s.drop_last().push(s.last()));
    } else {
        assert(s.to_multiset() =~= Seq::<(int, Seq<char>)>::empty().to_multiset());
    }
}

/// Whether `a` comes strictly before `b` by code point.
fn chars_less(a: &Vec<char>, b: &Vec<char>) -> (r: bool)
    ensures
        r == chars_lt(a@, b@),
{
    let mut i: usize = 0;
    assert(a@.skip(0) =~= a@);
    assert(b@.skip(0) =~= b@);
    while i < a.len() && i < b.len() && a[i] == b[i]
        invariant
            i <= a.len(),
            i <= b.len(),
            chars_lt(a@, b@) == chars_lt(a@.skip(i as int), b@.skip(i as int)),
        decreases a.len() - i,
    {
        assert(a@.skip(i as int).drop_first() =~= a@.skip(i + 1));
        assert(b@.skip(i as int).drop_first() =~= b@.skip(i + 1));
        i += 1;
    }
    if i == a.len() {
        i < b.len()
    } else if i == b.len() {
        false
    } else {
        a[i] < b[i]
    }
}

/// A candidate being ranked: score, name chars, name.
type RankItem = (i64, Vec<char>, String);

/// The (score, name) views of ranked candidates.
spec fn rank_view(v: Seq<RankItem>) -> Seq<(int, Seq<char>)> {
    v.map_values(|c: RankItem| (c.0 as int, c.2@))
}

/// Each candidate's chars are its name's.
spec fn chars_match(v: Seq<RankItem>) -> bool {
    forall|k: int| 0 <= k < v.len() ==> (#[trigger] v[k]).1@ == v[k].2@
}

/// Inserts a candidate into candidates in rank order.
fn insert_candidate(v: &mut Vec<RankItem>, score: i64, name: String)
    requires
        chars_match(old(v)@),
    ensures
        chars_match(final(v)@),
        rank_view(final(v)@) == insert_ranked((score as int, name@), rank_view(old(v)@)),
{
    let chars = str_chars(name.as_str());
    let ghost x = (score as int, name@);
    let ghost s = rank_view(v@);
    let mut p: usize = 0;
    while p < v.len()
        invariant
            p <= v.len(),
            v@ == old(v)@,
            s == rank_view(v@),
            x == (score as int, name@),
            chars@ == name@,
            chars_match(v@),
            forall|k: int| 0 <= k < p ==> !ranks_before(x, #[trigger] s[k]),
        ensures
            p <= v.len(),
            forall|k: int| 0 <= k < p ==> !ranks_before(x, #[trigger] s[k]),
            p < v.len() ==> ranks_before(x, s[p as int]),
        decreases v.len() - p,
    {
        assert(s[p as int] == (v@[p as int].0 as int, v@[p as int].2@));
        assert(v@[p as int].1@ == v@[p as int].2@);
        let less = chars_less(&chars, &v[p].1);
        let goes_before = score > v[p].0 || (score == v[p].0 && less);
        assert(less == chars_lt(name@, v@[p as int].2@));
        assert(x.0 == score as int);
        assert(x.1 == name@);
        assert(s[p as int].0 == v@[p as int].0 as int);
        assert(s[p as int].1 == v@[p as int].2@);
        assert(goes_before == ranks_before(x, s[p as int]));
        if goes_before {
            break;
        }
        p += 1;
    }
    proof {
        lemma_insert_ranked_at(x, s, p as int);
    }
    v.insert(p, (score, chars, name));
    assert(rank_view(v@) =~= s.take(p as int) + seq![x] + s.skip(p as int));
}

/// Filter `entries` by `kind` and rank them against `leaf_query`.
///
/// An empty query (the user has typed nothing past the directory separator
/// yet) returns every matching entry, alphabetically, matching plain shell
/// completion behavior. Otherwise ranks by `MigemoSearcher` score,
/// highest first, breaking ties alphabetically for determinism.
pub fn rank_candidates(entries: &[Entry], leaf_query: &str, kind: Kind, dict: SkkDictionary) -> (r: Vec<String>)
    ensures
        strings_view(r@) == rank_spec(entries@, leaf_query@, kind, dict),
{
    let ghost d = dict;
    let mut names: Vec<String> = Vec::new();
    let mut i: usize = 0;
    assert(entries@.take(0) =~= Seq::<Entry>::empty());
    while i < entries.len()
        invariant
            i <= entries@.len(),
            strings_view(names@) == admitted_names(entries@.take(i as int), kind),
        decreases entries.len() - i,
    {
        let e = &entries[i];
        let offered = match kind {
            Kind::Dir => e.is_dir,
            Kind::File => !e.is_dir,
            Kind::Any => true,
        };
        let ghost before = strings_view(names@);
        assert(entries@.take(i + 1).drop_last() =~= entries@.take(i as int));
        if offered {
            names.push(e.name.clone());
            assert(strings_view(names@) =~= before.push(e.name@));
        }
        i += 1;
    }
    assert(entries@.take(entries@.len() as int) =~= entries@);
    let ghost nv = strings_view(names@);
    let ghost cands = if leaf_query@.len() == 0 {
        nv.map_values(|n: Seq<char>| (0int, n))
    } else {
        search_from(d, nv, leaf_query@, 0).map_values(|h: (int, Seq<int>, int)| (h.2, nv[h.0]))
    };
    let mut ranked: Vec<RankItem> = Vec::new();
    assert(sort_ranked(Seq::<(int, Seq<char>)>::empty()) =~= rank_view(ranked@));
    if leaf_query.is_empty() {
        let mut k: usize = 0;
        while k < names.len()
            invariant
                k <= names.len(),
                nv == strings_view(names@),
                cands == nv.map_values(|n: Seq<char>| (0int, n)),
                chars_match(ranked@),
                rank_view(ranked@) == sort_ranked(cands.take(k as int)),
            decreases names.len() - k,
        {
            assert(cands.take(k + 1).drop_last() =~= cands.take(k as int));
            assert(cands[k as int] == (0int, names@[k as int]@));
            insert_candidate(&mut ranked, 0, names[k].clone());
            k += 1;
        }
        assert(cands.take(names.len() as int) =~= cands);
    } else {
        let mut searcher = MigemoSearcher::new(dict);
        let mut k: usize = 0;
        while k < names.len()
            invariant
                k <= names.len(),
                nv == strings_view(names@),
                searcher.dict() == d,
                searcher.texts() == nv.take(k as int),
            decreases names.len() - k,
        {
            searcher.add_item(names[k].as_str());
            assert(nv.take(k as int).push(names@[k as int]@) =~= nv.take(k + 1));
            k += 1;
        }
        assert(nv.take(names.len() as int) =~= nv);
        let results = searcher.search(leaf_query);
        let ghost hits = results_view(results@);
        proof {
            crate::searcher::lemma_search_from_indices(d, nv, leaf_query@, 0);
        }
        let mut k: usize = 0;
        while k < results.len()
            invariant
                k <= results.len(),
                nv == strings_view(names@),
                hits == results_view(results@),
                hits == search_from(d, nv, leaf_query@, 0),
                forall|j: int| 0 <= j < hits.len() ==> 0 <= #[trigger] hits[j].0 < nv.len(),
                cands == hits.map_values(|h: (int, Seq<int>, int)| (h.2, nv[h.0])),
                chars_match(ranked@),
                rank_view(ranked@) == sort_ranked(cands.take(k as int)),
            decreases results.len() - k,
        {
            assert(cands.take(k + 1).drop_last() =~= cands.take(k as int));
            let idx = results[k].index;
            assert(hits[k as int].0 == idx);
            assert(cands[k as int] == (results@[k as int].score as int, names@[idx as int]@));
            insert_candidate(&mut ranked, results[k].score, names[idx].clone());
            k += 1;
        }
        assert(cands.take(results.len() as int) =~= cands);
    }
    let mut out: Vec<String> = Vec::new();
    let mut k: usize = 0;
    while k < ranked.len()
        invariant
            k <= ranked.len(),
            strings_view(out@) == rank_view(ranked@).take(k as int).map_values(|p: (int, Seq<char>)| p.1),
        decreases ranked.len() - k,
    {
        let ghost before = strings_view(out@);
        assert(rank_view(ranked@)[k as int].1 == ranked@[k as int].2@);
        out.push(ranked[k].2.clone());
        assert(strings_view(out@) =~= before.push(ranked@[k as int].2@));
        assert(strings_view(out@) =~= rank_view(ranked@).take(k + 1).map_values(|p: (int, Seq<char>)| p.1));
        k += 1;
    }
    assert(rank_view(ranked@).take(ranked.len() as int) =~= rank_view(ranked@));
    assert(rank_view(ranked@) == sort_ranked(cands));
    out
}

// ---------------------------------------------------------------------------
// The command line
// ---------------------------------------------------------------------------

/// The number of candidates printed unless `--limit` says otherwise.
pub const DEFAULT_LIMIT: usize = 50;

/// An ASCII decimal digit.
pub open spec fn is_digit(c: char) -> bool {
    '0' <= c && c <= '9'
}

/// The number that decimal digits spell.
pub open spec fn decimal_value(d: Seq<char>) -> nat
    decreases d.len(),
{
    if d.len() == 0 {
        0
    } else {
        decimal_value(d.drop_last()) * 10 + (d.last() as nat - '0' as nat) as nat
    }
}

/// The digits part of a number: without a leading `+` that has something after it.
pub open spec fn digits_part(s: Seq<char>) -> Seq<char> {
    if s.len() > 1 && s[0] == '+' {
        s.drop_first()
    } else {
        s
    }
}

/// All chars are decimal digits.
pub open spec fn all_digits(d: Seq<char>) -> bool {
    forall|i: int| 0 <= i < d.len() ==> is_digit(#[trigger] d[i])
}

/// What `str::parse::<usize>` gives: an optional `+` (with something after it),
/// then one or more decimal digits spelling a number that fits a `usize`.
pub open spec fn usize_from_str(s: Seq<char>) -> Option<usize> {
    let d = digits_part(s);
    if d.len() > 0 && all_digits(d) && decimal_value(d) <= usize::MAX {
        Some(decimal_value(d) as usize)
    } else {
        None
    }
}

/// A longer run of digits spells at least as much as its prefix.
proof fn lemma_decimal_prefix(d: Seq<char>, k: int)
    requires
        0 <= k <= d.len(),
        forall|i: int| 0 <= i < d.len() ==> is_digit(#[trigger] d[i]),
    ensures
        decimal_value(d.take(k)) <= decimal_value(d),
    decreases d.len() - k,
{
    if k < d.len() {
        let e = d.take(k + 1);
        lemma_decimal_prefix(d, k + 1);
        assert(e.drop_last() =~= d.take(k));
        assert(is_digit(e.last()));
    } else {
        assert(d.take(k) =~= d);
    }
}

/// Parses a `usize` the way `str::parse::<usize>` does.
pub fn parse_usize(s: &str) -> (r: Option<usize>)
    ensures
        r == usize_from_str(s@),
{
    let cs = str_chars(s);
    let start: usize = if cs.len() > 1 && cs[0] == '+' {
        1
    } else {
        0
    };
    let ghost d = digits_part(s@);
    assert(d =~= cs@.skip(start as int));
    if start >= cs.len() {
        return None;
    }
    let mut v: usize = 0;
    let mut i: usize = start;
    assert(cs@.subrange(start as int, start as int) =~= Seq::<char>::empty());
    while i < cs.len()
        invariant
            start <= i <= cs.len(),
            cs@ == s@,
            d == digits_part(s@),
            d == cs@.skip(start as int),
            v as nat == decimal_value(cs@.subrange(start as int, i as int)),
            forall|j: int| start <= j < i ==> is_digit(#[trigger] cs@[j]),
        decreases cs.len() - i,
    {
        let c = cs[i];
        if !('0' <= c && c <= '9') {
            assert(d[i - start] == cs@[i as int]);
            assert(!is_digit(d[i - start]));
            assert(!all_digits(d));
            assert(digits_part(s@) == d);
            assert(!(d.len() > 0 && all_digits(d) && decimal_value(d) <= usize::MAX));
            assert(usize_from_str(s@) is None);
            return None;
        }
        let digit = (c as u32 - '0' as u32) as usize;
        let ghost e = cs@.subrange(start as int, i + 1);
        assert(e.drop_last() =~= cs@.subrange(start as int, i as int));
        assert(decimal_value(e) == v * 10 + digit);
        let next = match v.checked_mul(10) {
            Some(x) => x.checked_add(digit),
            None => None,
        };
        match next {
            Some(n) => {
                v = n;
            },
            None => {
                proof {
                    assert(decimal_value(e) > usize::MAX);
                    if all_digits(d) {
                        lemma_decimal_prefix(d, i + 1 - start);
                        assert(d.take(i + 1 - start) =~= e);
                    }
                    assert(usize_from_str(s@) is None);
                }
                return None;
            },
        }
        i += 1;
    }
    assert(cs@.subrange(start as int, cs.len() as int) =~= d);
    assert forall|j: int| 0 <= j < d.len() implies is_digit(#[trigger] d[j]) by {
        assert(d[j] == cs@[j + start]);
    }
    Some(v)
}

/// The command-line options gathered so far: the working directory, the
/// kind, the limit, the dictionary path and the token.
pub type ScanState = (Option<Seq<char>>, Kind, usize, Option<Seq<char>>, Option<Seq<char>>);

/// Reads the options from the `i`-th argument on: `--cwd`, `--kind`,
/// `--limit` and `--dict` take the next argument as their value, `--` takes
/// the next one (or nothing) as the token; anything else is refused.
pub open spec fn scan_args(args: Seq<Seq<char>>, i: int, st: ScanState) -> Result<ScanState, Seq<char>>
    decreases args.len() - i,
{
    if i < 0 || i >= args.len() {
        Ok(st)
    } else {
        let a = args[i];
        let has_next = i + 1 < args.len();
        if a == "--cwd"@ {
            if has_next {
                scan_args(args, i + 2, (Some(args[i + 1]), st.1, st.2, st.3, st.4))
            } else {
                Err("--cwd requires a value"@)
            }
        } else if a == "--kind"@ {
            if !has_next {
                Err("--kind requires a value"@)
            } else {
                match kind_named(args[i + 1]) {
                    Some(k) => scan_args(args, i + 2, (st.0, k, st.2, st.3, st.4)),
                    None => Err("invalid --kind: "@ + args[i + 1]),
                }
            }
        } else if a == "--limit"@ {
            if !has_next {
                Err("--limit requires a value"@)
            } else {
                match usize_from_str(args[i + 1]) {
                    Some(n) => scan_args(args, i + 2, (st.0, st.1, n, st.3, st.4)),
                    None => Err("invalid --limit: "@ + args[i + 1]),
                }
            }
        } else if a == "--dict"@ {
            if has_next {
                scan_args(args, i + 2, (st.0, st.1, st.2, Some(args[i + 1]), st.4))
            } else {
                Err("--dict requires a value"@)
            }
        } else if a == "--"@ {
            if has_next {
                scan_args(args, i + 2, (st.0, st.1, st.2, st.3, Some(args[i + 1])))
            } else {
                scan_args(args, i + 1, (st.0, st.1, st.2, st.3, Some(Seq::<char>::empty())))
            }
        } else {
            Err("unrecognized argument: "@ + a)
        }
    }
}

/// The options of a command line (the arguments after the program name):
/// the working directory (required), the kind (`any` by default), the limit
/// (`DEFAULT_LIMIT` by default), the dictionary path and the token (empty by
/// default); or the message of the first problem.
pub open spec fn args_spec(args: Seq<Seq<char>>) -> Result<(Seq<char>, Kind, usize, Option<Seq<char>>, Seq<char>), Seq<char>> {
    match scan_args(args, 0, (None, Kind::Any, DEFAULT_LIMIT, None, None)) {
        Err(e) => Err(e),
        Ok(st) => match st.0 {
            None => Err("--cwd is required"@),
            Some(cwd) => Ok(
                (
                    cwd,
                    st.1,
                    st.2,
                    st.3,
                    match st.4 {
                        Some(t) => t,
                        None => Seq::<char>::empty(),
                    },
                ),
            ),
        },
    }
}

/// The options of the completion helper.
pub struct Args {
    pub cwd: String,
    pub kind: Kind,
    pub limit: usize,
    pub dict_path: Option<String>,
    pub token: String,
}

/// The message `head` followed by `tail`.
fn message_with(head: &str, tail: &str) -> (r: String)
    ensures
        r@ == head@ + tail@,
{
    let mut m = head.to_owned();
    string_append(&mut m, tail);
    m
}

/// Parses the arguments of `migemo-complete --cwd <path> [--kind dir|file|any]
/// [--limit N] [--dict <path>] -- <token>` (without the program name).
pub fn parse_args(args: &Vec<String>) -> (r: Result<Args, String>)
    ensures
        match r {
            Ok(a) => args_spec(strings_view(args@)) matches Ok(v) && v == (
                a.cwd@,
                a.kind,
                a.limit,
                opt_string_view(a.dict_path),
                a.token@,
            ),
            Err(e) => args_spec(strings_view(args@)) matches Err(m) && m == e@,
        },
{
    let ghost av = strings_view(args@);
    let mut cwd: Option<String> = None;
    let mut kind = Kind::Any;
    let mut limit: usize = DEFAULT_LIMIT;
    let mut dict_path: Option<String> = None;
    let mut token: Option<String> = None;
    let mut i: usize = 0;
    while i < args.len()
        invariant
            i <= args.len() + 1,
            av == strings_view(args@),
            scan_args(av, 0, (None, Kind::Any, DEFAULT_LIMIT, None, None)) == scan_args(
                av,
                i as int,
                (opt_string_view(cwd), kind, limit, opt_string_view(dict_path), opt_string_view(token)),
            ),
        decreases args.len() + 1 - i,
    {
        let a = args[i].as_str();
        let has_next = i + 1 < args.len();
        assert(av[i as int] == a@);
        if str_eq(a, "--cwd") {
            if !has_next {
                return Err("--cwd requires a value".to_owned());
            }
            cwd = Some(args[i + 1].clone());
            i += 2;
        } else if str_eq(a, "--kind") {
            if !has_next {
                return Err("--kind requires a value".to_owned());
            }
            let raw = args[i + 1].as_str();
            match Kind::parse(raw) {
                Some(k) => {
                    kind = k;
                },
                None => {
                    return Err(message_with("invalid --kind: ", raw));
                },
            }
            i += 2;
        } else if str_eq(a, "--limit") {
            if !has_next {
                return Err("--limit requires a value".to_owned());
            }
            let raw = args[i + 1].as_str();
            match parse_usize(raw) {
                Some(n) => {
                    limit = n;
                },
                None => {
                    return Err(message_with("invalid --limit: ", raw));
                },
            }
            i += 2;
        } else if str_eq(a, "--dict") {
            if !has_next {
                return Err("--dict requires a value".to_owned());
            }
            dict_path = Some(args[i + 1].clone());
            i += 2;
        } else if str_eq(a, "--") {
            if has_next {
                token = Some(args[i + 1].clone());
                i += 2;
            } else {
                token = Some(String::new());
                i += 1;
            }
        } else {
            return Err(message_with("unrecognized argument: ", a));
        }
    }
    match cwd {
        Some(c) => {
            let t = match token {
                Some(t) => t,
                None => String::new(),
            };
            Ok(Args { cwd: c, kind, limit, dict_path, token: t })
        },
        None => Err("--cwd is required".to_owned()),
    }
}


/// Ranking lists the given candidates, as many as given, by nonincreasing
/// score, and among equal scores never a name after one it comes
/// alphabetically before.
pub proof fn lemma_ranked_order(s: Seq<(int, Seq<char>)>)
    ensures
        sort_ranked(s).len() == s.len(),
        forall|i: int| 0 <= i < s.len() ==> s.contains(#[trigger] sort_ranked(s)[i]),
        forall|i: int, j: int|
            0 <= i < j < s.len() ==> (#[trigger] sort_ranked(s)[i]).0 > (#[trigger] sort_ranked(s)[j]).0 || (
            sort_ranked(s)[i].0 == sort_ranked(s)[j].0 && !chars_lt(sort_ranked(s)[j].1, sort_ranked(s)[i].1)),
{
    broadcast use vstd::seq_lib::group_to_multiset_ensures;

    lemma_sort_ranked(s);
    let t = sort_ranked(s);
    assert(t.len() == t.to_multiset().len());
    assert forall|i: int| 0 <= i < s.len() implies s.contains(#[trigger] sort_ranked(s)[i]) by {
        assert(t.to_multiset().count(t[i]) > 0);
        assert(s.to_multiset().count(t[i]) > 0);
    }
    assert forall|i: int, j: int| 0 <= i < j < s.len() implies (#[trigger] sort_ranked(s)[i]).0 > (
    #[trigger] sort_ranked(s)[j]).0 || (sort_ranked(s)[i].0 == sort_ranked(s)[j].0 && !chars_lt(
        sort_ranked(s)[j].1,
        sort_ranked(s)[i].1,
    )) by {
        assert(!ranks_before(t[j], t[i]));
    }
}

/// For an empty query the candidates are the names of the admitted entries,
/// as many, listed alphabetically: no name comes after one it precedes (so
/// `app` before `apple`, by `lemma_chars_lt_prefix_first`).
pub proof fn lemma_empty_query_alphabetical(entries: Seq<Entry>, kind: Kind, dict: SkkDictionary)
    ensures
        rank_spec(entries, seq![], kind, dict).len() == admitted_names(entries, kind).len(),
        forall|i: int|
            0 <= i < rank_spec(entries, seq![], kind, dict).len() ==> admitted_names(entries, kind).contains(
                #[trigger] rank_spec(entries, seq![], kind, dict)[i],
            ),
        forall|i: int, j: int|
            0 <= i < j < rank_spec(entries, seq![], kind, dict).len() ==> !chars_lt(
                #[trigger] rank_spec(entries, seq![], kind, dict)[j],
                #[trigger] rank_spec(entries, seq![], kind, dict)[i],
            ),
{
    let names = admitted_names(entries, kind);
    let s = names.map_values(|n: Seq<char>| (0int, n));
    lemma_ranked_order(s);
    let t = sort_ranked(s);
    let r = rank_spec(entries, seq![], kind, dict);
    assert(r == t.map_values(|p: (int, Seq<char>)| p.1));
    assert forall|i: int| 0 <= i < t.len() implies (#[trigger] t[i]).0 == 0 && names.contains(t[i].1) by {
        assert(s.contains(t[i]));
        let k = choose|k: int| 0 <= k < s.len() && s[k] == t[i];
        assert(names[k] == t[i].1);
    }
    assert forall|i: int| 0 <= i < r.len() implies names.contains(#[trigger] r[i]) by {
        assert(r[i] == t[i].1);
    }
    assert forall|i: int, j: int| 0 <= i < j < r.len() implies !chars_lt(#[trigger] r[j], #[trigger] r[i]) by {
        assert(r[i] == t[i].1 && r[j] == t[j].1);
        assert(t[i].0 == 0 && t[j].0 == 0);
    }
}

} // verus!
