//! The bookmark launcher's state: its entries (bookmarks and applications),
//! what adding, opening and deleting one does to them, and the searches that
//! rank them against a query (fuzzy, romaji-mora, or both).

use vstd::prelude::*;
use crate::compiled::join_on;
use crate::dictionary::SkkDictionary;
use crate::searcher::{
    find_char_window, first_window, lemma_match_positions_increasing, lemma_match_positions_within,
    lemma_search_from_indices, match_text,
    positions_view, results_view, search_from, MigemoSearcher,
};
use crate::text::{
    find_char, find_from, lemma_find_from_bounds, opt_string_view, str_chars, str_eq, string_append,
    string_from_chars, strings_view,
};

verus! {

broadcast use vstd::string::group_string_axioms;

// ---------------------------------------------------------------------------
// Page titles
// ---------------------------------------------------------------------------

/// The chars with the Unicode `White_Space` property (`char::is_whitespace`).
pub open spec fn is_white_space(c: char) -> bool {
    ||| '\u{9}' <= c <= '\u{d}'
    ||| c == ' '
    ||| c == '\u{85}'
    ||| c == '\u{a0}'
    ||| c == '\u{1680}'
    ||| '\u{2000}' <= c <= '\u{200a}'
    ||| c == '\u{2028}'
    ||| c == '\u{2029}'
    ||| c == '\u{202f}'
    ||| c == '\u{205f}'
    ||| c == '\u{3000}'
}

fn is_white_space_char(c: char) -> (r: bool)
    ensures
        r == is_white_space(c),
{
    ('\u{9}' <= c && c <= '\u{d}') || c == ' ' || c == '\u{85}' || c == '\u{a0}' || c == '\u{1680}' || ('\u{2000}'
        <= c && c <= '\u{200a}') || c == '\u{2028}' || c == '\u{2029}' || c == '\u{202f}' || c == '\u{205f}'
        || c == '\u{3000}'
}

/// The number of white-space chars `s` starts with.
pub open spec fn leading_white(s: Seq<char>) -> int
    decreases s.len(),
{
    if s.len() > 0 && is_white_space(s[0]) {
        1 + leading_white(s.drop_first())
    } else {
        0
    }
}

/// The number of white-space chars `s` ends with.
pub open spec fn trailing_white(s: Seq<char>) -> int
    decreases s.len(),
{
    if s.len() > 0 && is_white_space(s.last()) {
        1 + trailing_white(s.drop_last())
    } else {
        0
    }
}

/// `s` without its leading and trailing white space (`str::trim`).
pub open spec fn trim_spec(s: Seq<char>) -> Seq<char> {
    let t = s.skip(leading_white(s));
    t.take(t.len() - trailing_white(t))
}

proof fn lemma_leading_white(s: Seq<char>, i: int)
    requires
        0 <= i <= s.len(),
        forall|k: int| 0 <= k < i ==> is_white_space(#[trigger] s[k]),
    ensures
        leading_white(s) == i + leading_white(s.skip(i)),
        0 <= leading_white(s) <= s.len(),
    decreases i,
{
    lemma_white_bounds(s);
    if i > 0 {
        let t = s.drop_first();
        assert forall|k: int| 0 <= k < i - 1 implies is_white_space(#[trigger] t[k]) by {
            assert(t[k] == s[k + 1]);
        }
        lemma_leading_white(t, i - 1);
        assert(t.skip(i - 1) =~= s.skip(i));
    } else {
        assert(s.skip(0) =~= s);
    }
}

proof fn lemma_white_bounds(s: Seq<char>)
    ensures
        0 <= leading_white(s) <= s.len(),
        0 <= trailing_white(s) <= s.len(),
    decreases s.len(),
{
    if s.len() > 0 {
        lemma_white_bounds(s.drop_first());
        lemma_white_bounds(s.drop_last());
    }
}

proof fn lemma_trailing_white(s: Seq<char>, n: int)
    requires
        0 <= n <= s.len(),
        forall|k: int| s.len() - n <= k < s.len() ==> is_white_space(#[trigger] s[k]),
    ensures
        trailing_white(s) == n + trailing_white(s.take(s.len() - n)),
    decreases n,
{
    if n > 0 {
        let t = s.drop_last();
        assert forall|k: int| t.len() - (n - 1) <= k < t.len() implies is_white_space(#[trigger] t[k]) by {
            assert(t[k] == s[k]);
        }
        lemma_trailing_white(t, n - 1);
        assert(t.take(t.len() - (n - 1)) =~= s.take(s.len() - n));
    } else {
        assert(s.take(s.len() as int) =~= s);
    }
}

/// `s` without its leading and trailing white space.
pub fn trim(s: &str) -> (r: String)
    ensures
        r@ == trim_spec(s@),
{
    let cs = str_chars(s);
    let mut a: usize = 0;
    while a < cs.len() && is_white_space_char(cs[a])
        invariant
            a <= cs.len(),
            cs@ == s@,
            forall|k: int| 0 <= k < a ==> is_white_space(#[trigger] cs@[k]),
        decreases cs.len() - a,
    {
        a += 1;
    }
    proof {
        lemma_leading_white(cs@, a as int);
        if a < cs.len() {
            assert(!is_white_space(cs@.skip(a as int)[0]));
        }
    }
    let ghost t = cs@.skip(a as int);
    assert(leading_white(cs@) == a);
    let mut b: usize = cs.len();
    while b > a && is_white_space_char(cs[b - 1])
        invariant
            a <= b <= cs.len(),
            cs@ == s@,
            t == cs@.skip(a as int),
            forall|k: int| b <= k < cs.len() ==> is_white_space(#[trigger] cs@[k]),
        decreases b,
    {
        b -= 1;
    }
    proof {
        assert forall|k: int| t.len() - (cs.len() - b) <= k < t.len() implies is_white_space(#[trigger] t[k]) by {
            assert(t[k] == cs@[k + a]);
        }
        lemma_trailing_white(t, cs.len() - b);
        let u = t.take(t.len() - (cs.len() - b));
        if u.len() > 0 {
            assert(u.last() == cs@[b - 1]);
        }
        assert(trailing_white(u) == 0);
        assert(u =~= cs@.subrange(a as int, b as int));
    }
    string_from_chars(&cs, a, b)
}

/// What scraper's `Html::parse_document` and the selector `title` find in an
/// HTML document: the text of its first `title` element, if it has one.
pub uninterp spec fn html_title_text(html: Seq<char>) -> Option<Seq<char>>;

/// Parses `html` with scraper and collects the text of the first element that
/// `Selector::parse("title")` selects. Nothing is stated of the HTML parsing.
#[verifier::external_body]
fn first_title_text(html: &str) -> (r: Option<String>)
    ensures
        opt_string_view(r) == html_title_text(html@),
{
    let document = scraper::Html::parse_document(html);
    let selector = scraper::Selector::parse("title").ok()?;
    match document.select(&selector).next() {
        Some(element) => Some(element.text().collect::<String>()),
        None => None,
    }
}

/// The title of a page: the trimmed text of its first `title` element, or
/// nothing.
pub open spec fn page_title_spec(html: Seq<char>) -> Seq<char> {
    match html_title_text(html) {
        Some(t) => trim_spec(t),
        None => Seq::empty(),
    }
}

/// The title of an HTML page: the trimmed text of its first `title`
/// element, empty if it has none.
pub fn page_title_from_html(html: &str) -> (r: String)
    ensures
        r@ == page_title_spec(html@),
{
    match first_title_text(html) {
        Some(t) => trim(t.as_str()),
        None => String::new(),
    }
}

/// A URL's title when its page gives none: what follows `://` up to the
/// first `/` (or, if there is none, the first `?`); the whole URL if it has
/// no `://`.
pub open spec fn url_fallback_title(url: Seq<char>) -> Seq<char> {
    match first_window(url, "://"@, 0) {
        None => url,
        Some(start) => {
            let d = url.skip(start + 3);
            if find_from(d, '/', 0) < d.len() {
                d.take(find_from(d, '/', 0))
            } else if find_from(d, '?', 0) < d.len() {
                d.take(find_from(d, '?', 0))
            } else {
                d
            }
        },
    }
}

/// The title given to a new bookmark for `url`: the title of its page if it
/// was fetched and has a nonempty one, else the URL's host part.
pub open spec fn bookmark_title_spec(url: Seq<char>, page: Option<Seq<char>>) -> Seq<char> {
    match page {
        Some(h) if page_title_spec(h).len() > 0 => page_title_spec(h),
        _ => url_fallback_title(url),
    }
}

/// The title of a bookmark for `url`, given the HTML of its page if fetching
/// it succeeded: the page title if nonempty, else the part after `://` up to
/// the first `/` or `?`, else the whole URL.
pub fn extract_title_from_url(url: &str, page_html: Option<&str>) -> (r: String)
    ensures
        r@ == bookmark_title_spec(url@, match page_html {
            Some(h) => Some(h@),
            None => None,
        }),
{
    if let Some(html) = page_html {
        let title = page_title_from_html(html);
        if !title.as_str().is_empty() {
            return title;
        }
    }
    let chars = str_chars(url);
    let sep = str_chars("://");
    proof {
        reveal_strlit("://");
    }
    assert(sep@.len() == 3);
    match find_char_window(&chars, &sep) {
        None => url.to_owned(),
        Some(start) => {
            assert(start + 3 <= chars@.len());
            assert(chars@.len() == chars.len());
            let from = start + 3;
            let slash = find_char(&chars, '/', from);
            let ghost d = chars@.skip(from as int);
            proof {
                crate::text::lemma_find_skip(chars@, '/', from as int);
                crate::text::lemma_find_skip(chars@, '?', from as int);
                lemma_find_from_bounds(d, '/', 0);
                lemma_find_from_bounds(d, '?', 0);
            }
            if slash < chars.len() {
                assert(d.take(slash - from) =~= chars@.subrange(from as int, slash as int));
                string_from_chars(&chars, from, slash)
            } else {
                let q = find_char(&chars, '?', from);
                if q < chars.len() {
                    assert(d.take(q - from) =~= chars@.subrange(from as int, q as int));
                    string_from_chars(&chars, from, q)
                } else {
                    assert(d =~= chars@.subrange(from as int, chars.len() as int));
                    string_from_chars(&chars, from, chars.len())
                }
            }
        },
    }
}

// ---------------------------------------------------------------------------
// Entries
// ---------------------------------------------------------------------------

/// A launcher entry: a bookmark to open in the browser, or an application to
/// run, each with the number of times it was opened.
#[derive(Clone)]
pub enum Entry {
    Bookmark { title: String, url: String, access_count: u32 },
    App { title: String, command: String, args: Vec<String>, access_count: u32 },
}

impl Entry {
    /// The entry's title.
    pub open spec fn title_view(&self) -> Seq<char> {
        match self {
            Entry::Bookmark { title, .. } => title@,
            Entry::App { title, .. } => title@,
        }
    }

    /// How many times the entry was opened.
    pub open spec fn count_view(&self) -> u32 {
        match self {
            Entry::Bookmark { access_count, .. } => *access_count,
            Entry::App { access_count, .. } => *access_count,
        }
    }

    /// The bookmark's URL, or the application's command.
    pub open spec fn secondary_view(&self) -> Seq<char> {
        match self {
            Entry::Bookmark { url, .. } => url@,
            Entry::App { command, .. } => command@,
        }
    }

    /// The entry with its access count set to `c`.
    pub open spec fn with_count(self, c: u32) -> Entry {
        match self {
            Entry::Bookmark { title, url, .. } => Entry::Bookmark { title, url, access_count: c },
            Entry::App { title, command, args, .. } => Entry::App { title, command, args, access_count: c },
        }
    }

    /// The one-line text of the entry: `title (url)`, or `title (command args...)`.
    pub open spec fn display_view(&self) -> Seq<char> {
        match self {
            Entry::Bookmark { title, url, .. } => title@ + " ("@ + url@ + ")"@,
            Entry::App { title, command, args, .. } => if args@.len() == 0 {
                title@ + " ("@ + command@ + ")"@
            } else {
                title@ + " ("@ + command@ + " "@ + join_on(strings_view(args@), ' ') + ")"@
            },
        }
    }

    pub fn title(&self) -> (r: &str)
        ensures
            r@ == self.title_view(),
    {
        match self {
            Entry::Bookmark { title, .. } => title.as_str(),
            Entry::App { title, .. } => title.as_str(),
        }
    }

    pub fn access_count(&self) -> (r: u32)
        ensures
            r == self.count_view(),
    {
        match self {
            Entry::Bookmark { access_count, .. } => *access_count,
            Entry::App { access_count, .. } => *access_count,
        }
    }

    pub fn secondary_text(&self) -> (r: &str)
        ensures
            r@ == self.secondary_view(),
    {
        match self {
            Entry::Bookmark { url, .. } => url.as_str(),
            Entry::App { command, .. } => command.as_str(),
        }
    }

    pub fn access_count_mut(&mut self) -> (r: &mut u32)
        ensures
            *r == old(self).count_view(),
            *final(self) == old(self).with_count(*final(r)),
    {
        match self {
            Entry::Bookmark { access_count, .. } => access_count,
            Entry::App { access_count, .. } => access_count,
        }
    }

    pub fn display(&self) -> (r: String)
        ensures
            r@ == self.display_view(),
    {
        match self {
            Entry::Bookmark { title, url, .. } => {
                let mut r = title.clone();
                string_append(&mut r, " (");
                string_append(&mut r, url.as_str());
                string_append(&mut r, ")");
                r
            },
            Entry::App { title, command, args, .. } => {
                let mut r = title.clone();
                string_append(&mut r, " (");
                string_append(&mut r, command.as_str());
                if args.len() > 0 {
                    string_append(&mut r, " ");
                    let joined = crate::compiled::join_strings(args, ' ');
                    string_append(&mut r, joined.as_str());
                }
                string_append(&mut r, ")");
                r
            },
        }
    }
}

/// The bookmarks file: its list of entries.
pub struct BookmarkFile {
    pub bookmarks: Vec<Entry>,
}

impl Default for BookmarkFile {
    fn default() -> (r: Self)
        ensures
            r.bookmarks@ == Seq::<Entry>::empty(),
    {
        BookmarkFile { bookmarks: Vec::new() }
    }
}

/// Whether a bookmark among `es` has the URL `url`.
pub open spec fn has_bookmark_url(es: Seq<Entry>, url: Seq<char>) -> bool {
    exists|i: int| 0 <= i < es.len() && (#[trigger] es[i] matches Entry::Bookmark { url: u, .. } && u@ == url)
}

/// No two bookmarks among `es` have the same URL.
pub open spec fn unique_bookmark_urls(es: Seq<Entry>) -> bool {
    forall|i: int, j: int|
        0 <= i < j < es.len() ==> !(#[trigger] es[i] matches Entry::Bookmark { url: a, .. } && #[trigger] es[j] matches Entry::Bookmark { url: b, .. } && a@ == b@)
}

/// The entries of the launcher, in the order of the bookmarks file.
pub struct AppState {
    bookmarks: Vec<Entry>,
}

impl AppState {
    /// The entries held.
    pub closed spec fn entries(&self) -> Seq<Entry> {
        self.bookmarks@
    }

    pub fn new(bookmarks: Vec<Entry>) -> (r: Self)
        ensures
            r.entries() == bookmarks@,
    {
        Self { bookmarks }
    }

    pub fn bookmarks(&self) -> (r: &[Entry])
        ensures
            r@ == self.entries(),
    {
        self.bookmarks.as_slice()
    }

    /// Counts one more opening of the entry at `index`, if there is one;
    /// returns whether it did (and the entries are to be saved).
    pub fn increment_access_count_by_index(&mut self, index: usize) -> (changed: bool)
        requires
            index < old(self).entries().len() ==> old(self).entries()[index as int].count_view() < u32::MAX,
        ensures
            changed == (index < old(self).entries().len()),
            final(self).entries() == if changed {
                old(self).entries().update(
                    index as int,
                    old(self).entries()[index as int].with_count(
                        (old(self).entries()[index as int].count_view() + 1) as u32,
                    ),
                )
            } else {
                old(self).entries()
            },
    {
        if index < self.bookmarks.len() {
            let mut entry = Entry::Bookmark { title: String::new(), url: String::new(), access_count: 0 };
            self.bookmarks.set_and_swap(index, &mut entry);
            let count = entry.access_count_mut();
            *count = *count + 1;
            self.bookmarks.set(index, entry);
            true
        } else {
            false
        }
    }

    /// Deletes the entry at `index`, if there is one; returns whether it did.
    pub fn delete_bookmark_by_index(&mut self, index: usize) -> (changed: bool)
        ensures
            changed == (index < old(self).entries().len()),
            final(self).entries() == if changed {
                old(self).entries().remove(index as int)
            } else {
                old(self).entries()
            },
    {
        if index < self.bookmarks.len() {
            self.bookmarks.remove(index);
            true
        } else {
            false
        }
    }

    /// Whether a bookmark with this URL is held.
    pub fn contains_bookmark_url(&self, url: &str) -> (r: bool)
        ensures
            r == has_bookmark_url(self.entries(), url@),
    {
        let mut i: usize = 0;
        while i < self.bookmarks.len()
            invariant
                i <= self.bookmarks.len(),
                forall|k: int| 0 <= k < i ==> !(#[trigger] self.bookmarks@[k] matches Entry::Bookmark { url: u, .. } && u@ == url@),
            decreases self.bookmarks.len() - i,
        {
            if let Entry::Bookmark { url: u, .. } = &self.bookmarks[i] {
                if str_eq(u.as_str(), url) {
                    return true;
                }
            }
            i += 1;
        }
        false
    }

    /// Adds a bookmark for `url`, unless one with this URL is held, with the
    /// title of its page (`page_html`, if fetching it succeeded) or of the
    /// URL, and no opening counted; returns whether it did.
    pub fn add_bookmark(&mut self, url: String, page_html: Option<String>) -> (changed: bool)
        ensures
            changed == !has_bookmark_url(old(self).entries(), url@),
            !changed ==> final(self).entries() == old(self).entries(),
            changed ==> final(self).entries().len() == old(self).entries().len() + 1,
            changed ==> final(self).entries().drop_last() == old(self).entries(),
            changed ==> (final(self).entries().last() matches Entry::Bookmark { title: t, url: u, access_count: c }
                && t@ == bookmark_title_spec(url@, opt_string_view(page_html)) && u@ == url@ && c == 0),
            unique_bookmark_urls(old(self).entries()) ==> unique_bookmark_urls(final(self).entries()),
    {
        if self.contains_bookmark_url(url.as_str()) {
            return false;
        }
        let title = match &page_html {
            Some(h) => extract_title_from_url(url.as_str(), Some(h.as_str())),
            None => extract_title_from_url(url.as_str(), None),
        };
        let ghost before = self.bookmarks@;
        let ghost u = url@;
        self.bookmarks.push(Entry::Bookmark { title, url, access_count: 0 });
        proof {
            let es = self.bookmarks@;
            if unique_bookmark_urls(before) {
                assert forall|i: int, j: int| 0 <= i < j < es.len() implies !(#[trigger] es[i] matches Entry::Bookmark { url: a, .. }
                    && #[trigger] es[j] matches Entry::Bookmark { url: b, .. } && a@ == b@) by {
                    if j == es.len() - 1 {
                        assert(es[i] == before[i]);
                        match es[i] {
                            Entry::Bookmark { url: a, .. } => {
                                if a@ == u {
                                    assert(has_bookmark_url(before, u));
                                }
                            },
                            _ => {},
                        }
                    } else {
                        assert(es[i] == before[i] && es[j] == before[j]);
                    }
                }
            }
        }
        true
    }
}

// ---------------------------------------------------------------------------
// Fuzzy matching
// ---------------------------------------------------------------------------

/// What `fuzzy_matcher::skim::SkimMatcherV2::default().fuzzy(choice, pattern,
/// with_pos)` returns: the skim fuzzy score of `pattern` in `choice` and, when
/// asked for, the char positions of `choice` it matched.
pub uninterp spec fn skim_fuzzy(choice: Seq<char>, pattern: Seq<char>, with_pos: bool) -> Option<(i64, Seq<usize>)>;

/// `SkimMatcherV2::fuzzy` with the default matcher (smart case). Its source
/// answers an empty pattern with score 0 and no positions, and reports
/// positions inside `choice`, in strictly increasing order (it collects them
/// walking the score matrix backwards and then reverses them); the scoring
/// itself is not stated.
#[verifier::external_body]
fn skim_match(choice: &str, pattern: &str, with_pos: bool) -> (r: Option<(i64, Vec<usize>)>)
    ensures
        match r {
            Some((s, p)) => {
                &&& skim_fuzzy(choice@, pattern@, with_pos) == Some((s, p@))
                &&& forall|k: int| 0 <= k < p@.len() ==> #[trigger] p@[k] < choice@.len()
                &&& forall|a: int, b: int| 0 <= a < b < p@.len() ==> #[trigger] p@[a] < #[trigger] p@[b]
                &&& pattern@.len() == 0 ==> s == 0 && p@.len() == 0
            },
            None => skim_fuzzy(choice@, pattern@, with_pos) is None && pattern@.len() > 0,
        },
{
    fuzzy_matcher::skim::SkimMatcherV2::default().fuzzy(choice, pattern, with_pos)
}

/// The fuzzy score of `pattern` in `choice`, if it matches.
pub open spec fn fuzzy_score(choice: Seq<char>, pattern: Seq<char>) -> Option<int> {
    match skim_fuzzy(choice, pattern, false) {
        Some((s, _)) => Some(s as int),
        None => None,
    }
}

/// A score, or the lowest `i64` for none.
pub open spec fn or_min(o: Option<int>) -> int {
    match o {
        Some(s) => s,
        None => i64::MIN as int,
    }
}

/// The fuzzy score of an entry: the better of its title's and its secondary
/// text's, if either matches.
pub open spec fn entry_fuzzy_score(e: Entry, q: Seq<char>) -> Option<int> {
    let a = fuzzy_score(e.title_view(), q);
    let b = fuzzy_score(e.secondary_view(), q);
    if a is None && b is None {
        None
    } else if or_min(a) >= or_min(b) {
        Some(or_min(a))
    } else {
        Some(or_min(b))
    }
}

fn entry_fuzzy(e: &Entry, q: &str) -> (r: Option<i64>)
    ensures
        match r {
            Some(s) => entry_fuzzy_score(*e, q@) == Some(s as int),
            None => entry_fuzzy_score(*e, q@) is None,
        },
{
    let a = match skim_match(e.title(), q, false) {
        Some((s, _)) => Some(s),
        None => None,
    };
    let b = match skim_match(e.secondary_text(), q, false) {
        Some((s, _)) => Some(s),
        None => None,
    };
    if a.is_none() && b.is_none() {
        return None;
    }
    let x = match a {
        Some(s) => s,
        None => i64::MIN,
    };
    let y = match b {
        Some(s) => s,
        None => i64::MIN,
    };
    if x >= y {
        Some(x)
    } else {
        Some(y)
    }
}

// ---------------------------------------------------------------------------
// Ranking by two keys
// ---------------------------------------------------------------------------

/// A ranked hit: entry index, score, primary key, secondary key.
pub type Keyed = (int, int, int, int);

/// A hit ranks before another: a higher primary key, or the same and a
/// higher secondary key.
pub open spec fn keyed_before(a: Keyed, b: Keyed) -> bool {
    a.2 > b.2 || (a.2 == b.2 && a.3 > b.3)
}

/// `x` inserted into `s` before the first hit it ranks before.
pub open spec fn insert_keyed(x: Keyed, s: Seq<Keyed>) -> Seq<Keyed>
    decreases s.len(),
{
    if s.len() == 0 {
        seq![x]
    } else if keyed_before(x, s[0]) {
        seq![x] + s
    } else {
        seq![s[0]] + insert_keyed(x, s.drop_first())
    }
}

/// The hits in rank order; hits that rank alike keep their order (a stable
/// sort, as `slice::sort_by` is).
pub open spec fn sort_keyed(s: Seq<Keyed>) -> Seq<Keyed>
    decreases s.len(),
{
    if s.len() == 0 {
        seq![]
    } else {
        insert_keyed(s.last(), sort_keyed(s.drop_last()))
    }
}

/// The (index, score) pairs of the hits in rank order.
pub open spec fn ranking(s: Seq<Keyed>) -> Seq<(int, int)> {
    sort_keyed(s).map_values(|k: Keyed| (k.0, k.1))
}

proof fn lemma_insert_keyed_at(x: Keyed, s: Seq<Keyed>, p: int)
    requires
        0 <= p <= s.len(),
        forall|k: int| 0 <= k < p ==> !keyed_before(x, #[trigger] s[k]),
        p < s.len() ==> keyed_before(x, s[p]),
    ensures
        insert_keyed(x, s) == s.take(p) + seq![x] + s.skip(p),
    decreases p,
{
    if p == 0 {
        if s.len() == 0 {
            assert(s.take(0) + seq![x] + s.skip(0) =~= seq![x]);
        } else {
            assert(s.take(0) + seq![x] + s.skip(0) =~= seq![x] + s);
        }
    } else {
        let t = s.drop_first();
        assert forall|k: int| 0 <= k < p - 1 implies !keyed_before(x, #[trigger] t[k]) by {
            assert(t[k] == s[k + 1]);
        }
        lemma_insert_keyed_at(x, t, p - 1);
        assert(seq![s[0]] + (t.take(p - 1) + seq![x] + t.skip(p - 1)) =~= s.take(p) + seq![x] + s.skip(p));
    }
}

proof fn lemma_insert_keyed(x: Keyed, s: Seq<Keyed>)
    requires
        forall|i: int, j: int| 0 <= i < j < s.len() ==> !keyed_before(#[trigger] s[j], #[trigger] s[i]),
    ensures
        insert_keyed(x, s).to_multiset() == s.to_multiset().insert(x),
        forall|i: int, j: int|
            0 <= i < j < insert_keyed(x, s).len() ==> !keyed_before(
                #[trigger] insert_keyed(x, s)[j],
                #[trigger] insert_keyed(x, s)[i],
            ),
    decreases s.len(),
{
    broadcast use vstd::seq_lib::group_to_multiset_ensures;

    let r = insert_keyed(x, s);
    if s.len() == 0 {
        assert(r =~= seq![x]);
        assert(seq![x] =~= Seq::<Keyed>::empty().push(x));
    } else if keyed_before(x, s[0]) {
        vstd::seq_lib::lemma_multiset_commutative(seq![x], s);
        assert(seq![x] =~= Seq::<Keyed>::empty().push(x));
        assert forall|i: int, j: int| 0 <= i < j < r.len() implies !keyed_before(#[trigger] r[j], #[trigger] r[i]) by {
            if i == 0 {
                assert(r[j] == s[j - 1]);
                if j - 1 > 0 {
                    assert(!keyed_before(s[j - 1], s[0]));
                }
            } else {
                assert(r[i] == s[i - 1] && r[j] == s[j - 1]);
            }
        }
    } else {
        let t = s.drop_first();
        assert forall|i: int, j: int| 0 <= i < j < t.len() implies !keyed_before(#[trigger] t[j], #[trigger] t[i]) by {
            assert(t[i] == s[i + 1] && t[j] == s[j + 1]);
        }
        lemma_insert_keyed(x, t);
        let it = insert_keyed(x, t);
        vstd::seq_lib::lemma_multiset_commutative(seq![s[0]], it);
        vstd::seq_lib::lemma_multiset_commutative(seq![s[0]], t);
        assert(s =~= seq![s[0]] + t);
        assert forall|i: int, j: int| 0 <= i < j < r.len() implies !keyed_before(#[trigger] r[j], #[trigger] r[i]) by {
            if i == 0 {
                assert(r[j] == it[j - 1]);
                assert(it.to_multiset().count(it[j - 1]) > 0);
                if r[j] != x {
                    assert(t.to_multiset().count(r[j]) > 0);
                    assert(t.contains(r[j]));
                    let k = choose|k: int| 0 <= k < t.len() && t[k] == r[j];
                    assert(s[k + 1] == r[j]);
                }
            } else {
                assert(r[i] == it[i - 1] && r[j] == it[j - 1]);
            }
        }
    }
}

/// Ranked hits are the given ones, each listed after none that it ranks
/// before: the higher primary key first, then the higher secondary key.
pub proof fn lemma_sort_keyed(s: Seq<Keyed>)
    ensures
        sort_keyed(s).to_multiset() == s.to_multiset(),
        forall|i: int, j: int|
            0 <= i < j < sort_keyed(s).len() ==> !keyed_before(#[trigger] sort_keyed(s)[j], #[trigger] sort_keyed(s)[i]),
    decreases s.len(),
{
    broadcast use vstd::seq_lib::group_to_multiset_ensures;

    if s.len() > 0 {
        lemma_sort_keyed(s.drop_last());
        lemma_insert_keyed(s.last(), sort_keyed(s.drop_last()));
        assert(s =~= s.drop_last().push(s.last()));
    } else {
        assert(s.to_multiset() =~= Seq::<Keyed>::empty().to_multiset());
    }
}

/// A hit being ranked: index, score, primary key, secondary key.
type KeyedItem = (usize, i64, i64, i64);

spec fn keyed_view(v: Seq<KeyedItem>) -> Seq<Keyed> {
    v.map_values(|k: KeyedItem| (k.0 as int, k.1 as int, k.2 as int, k.3 as int))
}

/// The (index, score) pairs of search results.
pub open spec fn pairs_view(v: Seq<(usize, i64)>) -> Seq<(int, int)> {
    v.map_values(|p: (usize, i64)| (p.0 as int, p.1 as int))
}

fn insert_keyed_item(v: &mut Vec<KeyedItem>, x: KeyedItem)
    ensures
        keyed_view(final(v)@) == insert_keyed((x.0 as int, x.1 as int, x.2 as int, x.3 as int), keyed_view(old(v)@)),
{
    let ghost xv = (x.0 as int, x.1 as int, x.2 as int, x.3 as int);
    let ghost s = keyed_view(v@);
    let mut p: usize = 0;
    while p < v.len()
        invariant
            p <= v.len(),
            v@ == old(v)@,
            s == keyed_view(v@),
            xv == (x.0 as int, x.1 as int, x.2 as int, x.3 as int),
            forall|k: int| 0 <= k < p ==> !keyed_before(xv, #[trigger] s[k]),
        ensures
            p <= v.len(),
            forall|k: int| 0 <= k < p ==> !keyed_before(xv, #[trigger] s[k]),
            p < v.len() ==> keyed_before(xv, s[p as int]),
        decreases v.len() - p,
    {
        assert(s[p as int] == (v@[p as int].0 as int, v@[p as int].1 as int, v@[p as int].2 as int, v@[p as int].3 as int));
        if x.2 > v[p].2 || (x.2 == v[p].2 && x.3 > v[p].3) {
            break;
        }
        p += 1;
    }
    proof {
        lemma_insert_keyed_at(xv, s, p as int);
    }
    v.insert(p, x);
    assert(keyed_view(v@) =~= s.take(p as int) + seq![xv] + s.skip(p as int));
}

/// Sorts hits by rank (stably) and keeps their (index, score) pairs.
fn rank_items(items: &Vec<KeyedItem>) -> (r: Vec<(usize, i64)>)
    ensures
        pairs_view(r@) == ranking(keyed_view(items@)),
{
    let mut sorted: Vec<KeyedItem> = Vec::new();
    let mut i: usize = 0;
    assert(keyed_view(items@).take(0) =~= Seq::<Keyed>::empty());
    assert(keyed_view(sorted@) =~= sort_keyed(Seq::<Keyed>::empty()));
    while i < items.len()
        invariant
            i <= items.len(),
            keyed_view(sorted@) == sort_keyed(keyed_view(items@).take(i as int)),
        decreases items.len() - i,
    {
        assert(keyed_view(items@).take(i + 1).drop_last() =~= keyed_view(items@).take(i as int));
        insert_keyed_item(&mut sorted, items[i]);
        i += 1;
    }
    assert(keyed_view(items@).take(items.len() as int) =~= keyed_view(items@));
    let mut r: Vec<(usize, i64)> = Vec::new();
    let mut k: usize = 0;
    while k < sorted.len()
        invariant
            k <= sorted.len(),
            pairs_view(r@) == keyed_view(sorted@).take(k as int).map_values(|q: Keyed| (q.0, q.1)),
        decreases sorted.len() - k,
    {
        let ghost before = pairs_view(r@);
        let ghost kv = keyed_view(sorted@);
        assert(kv[k as int] == (sorted@[k as int].0 as int, sorted@[k as int].1 as int, sorted@[k as int].2 as int, sorted@[k as int].3 as int));
        r.push((sorted[k].0, sorted[k].1));
        assert(pairs_view(r@) =~= before.push((kv[k as int].0, kv[k as int].1)));
        assert(kv.take(k + 1).map_values(|q: Keyed| (q.0, q.1)) =~= kv.take(k as int).map_values(|q: Keyed| (q.0, q.1)).push((kv[k as int].0, kv[k as int].1)));
        k += 1;
    }
    assert(keyed_view(sorted@).take(sorted.len() as int) =~= keyed_view(sorted@));
    r
}

// ---------------------------------------------------------------------------
// The launcher
// ---------------------------------------------------------------------------

/// How a query is matched against the entries.
#[derive(Clone, Copy, Debug, PartialEq, Eq, Structural)]
pub enum SearchMode {
    Fuzzy,
    Migemo,
    /// Fuses fuzzy and migemo matching: an entry is a candidate if either
    /// matches, ranked by a normalized 1:1:1 blend of fuzzy score, migemo
    /// score, and access count. The default.
    Combined,
}

/// How fuzzy hits are ordered.
#[derive(Clone, Copy, Debug, PartialEq, Eq, Structural)]
pub enum SortMode {
    ByCount,
    ByScore,
}

/// The titles of the entries.
pub open spec fn titles(es: Seq<Entry>) -> Seq<Seq<char>> {
    es.map_values(|e: Entry| e.title_view())
}

/// The access count of the `i`-th entry.
pub open spec fn count_of(es: Seq<Entry>, i: int) -> int {
    es[i].count_view() as int
}

/// All entries, keyed by access count alone.
pub open spec fn by_count_keys(es: Seq<Entry>) -> Seq<Keyed> {
    Seq::new(es.len(), |i: int| (i, 0, count_of(es, i), 0))
}

/// The entries that the query fuzzily matches, in order: index and score.
pub open spec fn fuzzy_hits(es: Seq<Entry>, q: Seq<char>) -> Seq<(int, int)>
    decreases es.len(),
{
    if es.len() == 0 {
        seq![]
    } else {
        let rest = fuzzy_hits(es.drop_last(), q);
        match entry_fuzzy_score(es.last(), q) {
            Some(sc) => rest.push((es.len() - 1, sc)),
            None => rest,
        }
    }
}

/// Fuzzy hits keyed for a sort mode: by access count then score, or by
/// score then access count.
pub open spec fn fuzzy_keys(es: Seq<Entry>, hits: Seq<(int, int)>, mode: SortMode) -> Seq<Keyed> {
    hits.map_values(
        |h: (int, int)|
            if mode == SortMode::ByCount {
                (h.0, h.1, count_of(es, h.0), h.1)
            } else {
                (h.0, h.1, h.1, count_of(es, h.0))
            },
    )
}

/// The fuzzy search: every entry by access count for an empty query, else
/// the fuzzy hits ranked by the sort mode.
pub open spec fn fuzzy_search_spec(es: Seq<Entry>, q: Seq<char>, mode: SortMode) -> Seq<(int, int)> {
    if q.len() == 0 {
        ranking(by_count_keys(es))
    } else {
        ranking(fuzzy_keys(es, fuzzy_hits(es, q), mode))
    }
}

/// The migemo search: every entry by access count for an empty query; else,
/// with a dictionary, the entries whose titles the mora searcher hits, by
/// access count (score 0); without one, nothing.
pub open spec fn migemo_search_spec(es: Seq<Entry>, q: Seq<char>, dict: Option<SkkDictionary>) -> Seq<(int, int)> {
    if q.len() == 0 {
        ranking(by_count_keys(es))
    } else {
        match dict {
            None => seq![],
            Some(d) => ranking(
                search_from(d, titles(es), q, 0).map_values(
                    |h: (int, Seq<int>, int)| (h.0, 0int, count_of(es, h.0), 0int),
                ),
            ),
        }
    }
}

/// The score of the last hit on entry `i`, if any.
pub open spec fn hit_score(hits: Seq<(int, Seq<int>, int)>, i: int) -> Option<int>
    decreases hits.len(),
{
    if hits.len() == 0 {
        None
    } else if hits.last().0 == i {
        Some(hits.last().2)
    } else {
        hit_score(hits.drop_last(), i)
    }
}

/// The migemo hits of a query, if the searcher is ready.
pub open spec fn migemo_hits(es: Seq<Entry>, q: Seq<char>, dict: Option<SkkDictionary>) -> Seq<(int, Seq<int>, int)> {
    match dict {
        Some(d) => search_from(d, titles(es), q, 0),
        None => seq![],
    }
}

/// The raw signals of the entries among the first `k` that either matcher
/// hits: index, fuzzy score, migemo score, access count.
pub open spec fn combined_from(es: Seq<Entry>, q: Seq<char>, dict: Option<SkkDictionary>, k: int) -> Seq<
    (int, Option<int>, Option<int>, int),
>
    decreases k,
{
    if k <= 0 {
        seq![]
    } else {
        let rest = combined_from(es, q, dict, k - 1);
        let f = entry_fuzzy_score(es[k - 1], q);
        let m = hit_score(migemo_hits(es, q, dict), k - 1);
        if f is Some || m is Some {
            rest.push((k - 1, f, m, count_of(es, k - 1)))
        } else {
            rest
        }
    }
}

/// One candidate of the combined search: the entry and the raw signals that
/// the blend normalizes.
pub struct CombinedCandidate {
    pub index: usize,
    pub fuzzy: Option<i64>,
    pub migemo: Option<i64>,
    pub access_count: u32,
}

pub open spec fn candidate_view(c: CombinedCandidate) -> (int, Option<int>, Option<int>, int) {
    (
        c.index as int,
        match c.fuzzy {
            Some(s) => Some(s as int),
            None => None,
        },
        match c.migemo {
            Some(s) => Some(s as int),
            None => None,
        },
        c.access_count as int,
    )
}

/// The positions of `title` that the fuzzy matcher matched, none for an empty query.
pub open spec fn fuzzy_positions_spec(title: Seq<char>, q: Seq<char>) -> Seq<int> {
    if q.len() == 0 {
        seq![]
    } else {
        match skim_fuzzy(title, q, true) {
            Some((_, p)) => p.map_values(|x: usize| x as int),
            None => seq![],
        }
    }
}

/// The positions of `title` that the mora searcher highlights, none for an
/// empty query or without a dictionary.
pub open spec fn migemo_positions_spec(title: Seq<char>, q: Seq<char>, dict: Option<SkkDictionary>) -> Seq<int> {
    if q.len() == 0 {
        seq![]
    } else {
        match dict {
            None => seq![],
            Some(d) => match match_text(d, title, q) {
                Some((h, _)) => h,
                None => seq![],
            },
        }
    }
}

/// The positions in strictly increasing order.
pub open spec fn strictly_increasing(s: Seq<int>) -> bool {
    forall|i: int, j: int| 0 <= i < j < s.len() ==> s[i] < s[j]
}

/// The entries and the mora searcher over their titles, kept in step.
struct Catalog {
    state: AppState,
    migemo: Option<MigemoSearcher>,
}

impl Catalog {
    #[verifier::type_invariant]
    spec fn in_step(self) -> bool {
        self.migemo matches Some(m) ==> m.texts() == titles(self.state.entries())
    }

    spec fn dict(self) -> Option<SkkDictionary> {
        match self.migemo {
            Some(m) => Some(m.dict()),
            None => None,
        }
    }
}

/// The launcher: the query being typed, the entries, the search and sort
/// modes, and the mora searcher (when a dictionary was loaded).
pub struct App {
    query: String,
    catalog: Catalog,
    search_mode: SearchMode,
    sort_mode: SortMode,
}

impl App {
    pub closed spec fn query_view(&self) -> Seq<char> {
        self.query@
    }

    pub closed spec fn entries(&self) -> Seq<Entry> {
        self.catalog.state.entries()
    }

    pub closed spec fn mode(&self) -> SearchMode {
        self.search_mode
    }

    pub closed spec fn sort(&self) -> SortMode {
        self.sort_mode
    }

    /// The dictionary of the mora searcher, if one was loaded.
    pub closed spec fn dict(&self) -> Option<SkkDictionary> {
        self.catalog.dict()
    }

    /// Starts with an empty query in combined mode, sorted by score, with a
    /// mora searcher over the titles if a dictionary is given.
    pub fn new(bookmarks: Vec<Entry>, dictionary: Option<SkkDictionary>) -> (r: Self)
        ensures
            r.entries() == bookmarks@,
            r.query_view() == Seq::<char>::empty(),
            r.mode() == SearchMode::Combined,
            r.sort() == SortMode::ByScore,
            r.dict() == dictionary,
    {
        let migemo = match dictionary {
            Some(d) => Some(build_migemo_searcher(&bookmarks, d)),
            None => None,
        };
        App {
            query: String::new(),
            catalog: Catalog { state: AppState::new(bookmarks), migemo },
            search_mode: SearchMode::Combined,
            sort_mode: SortMode::ByScore,
        }
    }

    pub fn query(&self) -> (r: &str)
        ensures
            r@ == self.query_view(),
    {
        self.query.as_str()
    }

    pub fn query_mut(&mut self) -> (r: &mut String)
        ensures
            (*r)@ == old(self).query_view(),
            final(self).query_view() == (*final(r))@,
            final(self).entries() == old(self).entries(),
            final(self).mode() == old(self).mode(),
            final(self).sort() == old(self).sort(),
            final(self).dict() == old(self).dict(),
    {
        &mut self.query
    }

    pub fn bookmarks(&self) -> (r: &[Entry])
        ensures
            r@ == self.entries(),
    {
        self.catalog.state.bookmarks()
    }

    pub fn search_mode(&self) -> (r: SearchMode)
        ensures
            r == self.mode(),
    {
        self.search_mode
    }

    pub fn set_search_mode(&mut self, mode: SearchMode)
        ensures
            final(self).mode() == mode,
            final(self).query_view() == old(self).query_view(),
            final(self).entries() == old(self).entries(),
            final(self).sort() == old(self).sort(),
            final(self).dict() == old(self).dict(),
    {
        self.search_mode = mode;
    }

    pub fn search_mode_label(&self) -> (r: &'static str)
        ensures
            r@ == match self.mode() {
                SearchMode::Fuzzy => "Fuzzy"@,
                SearchMode::Migemo => "Migemo"@,
                SearchMode::Combined => "Fuzzy+Migemo"@,
            },
    {
        match self.search_mode {
            SearchMode::Fuzzy => "Fuzzy",
            SearchMode::Migemo => "Migemo",
            SearchMode::Combined => "Fuzzy+Migemo",
        }
    }

    pub fn toggle_sort_mode(&mut self)
        ensures
            final(self).sort() == match old(self).sort() {
                SortMode::ByCount => SortMode::ByScore,
                SortMode::ByScore => SortMode::ByCount,
            },
            final(self).query_view() == old(self).query_view(),
            final(self).entries() == old(self).entries(),
            final(self).mode() == old(self).mode(),
            final(self).dict() == old(self).dict(),
    {
        self.sort_mode = match self.sort_mode {
            SortMode::ByCount => SortMode::ByScore,
            SortMode::ByScore => SortMode::ByCount,
        };
    }

    pub fn sort_mode_label(&self) -> (r: &'static str)
        ensures
            r@ == match self.sort() {
                SortMode::ByCount => "Count"@,
                SortMode::ByScore => "Score"@,
            },
    {
        match self.sort_mode {
            SortMode::ByCount => "Count",
            SortMode::ByScore => "Score",
        }
    }

    pub fn is_migemo_ready(&self) -> (r: bool)
        ensures
            r == self.dict() is Some,
    {
        self.catalog.migemo.is_some()
    }

    /// Every entry, by access count, highest first (entries with equal counts
    /// keep their order), all with score 0: what an empty query lists.
    pub fn all_by_access_count(&self) -> (r: Vec<(usize, i64)>)
        ensures
            pairs_view(r@) == ranking(by_count_keys(self.entries())),
    {
        let es = self.catalog.state.bookmarks();
        let mut items: Vec<KeyedItem> = Vec::new();
        let mut i: usize = 0;
        while i < es.len()
            invariant
                i <= es@.len(),
                es@ == self.entries(),
                keyed_view(items@) == by_count_keys(es@).take(i as int),
            decreases es.len() - i,
        {
            let ghost before = keyed_view(items@);
            let c = es[i].access_count() as i64;
            items.push((i, 0, c, 0));
            assert(keyed_view(items@) =~= before.push((i as int, 0int, c as int, 0int)));
            assert(by_count_keys(es@).take(i + 1) =~= by_count_keys(es@).take(i as int).push(by_count_keys(es@)[i as int]));
            i += 1;
        }
        assert(by_count_keys(es@).take(es@.len() as int) =~= by_count_keys(es@));
        rank_items(&items)
    }

    /// Fuzzy search over titles and secondary texts, ranked by the sort mode.
    pub fn fuzzy_search(&self, query: &str) -> (r: Vec<(usize, i64)>)
        ensures
            pairs_view(r@) == fuzzy_search_spec(self.entries(), query@, self.sort()),
    {
        if query.is_empty() {
            return self.all_by_access_count();
        }
        let es = self.catalog.state.bookmarks();
        let ghost ev = es@;
        let mut items: Vec<KeyedItem> = Vec::new();
        let mut i: usize = 0;
        assert(ev.take(0) =~= Seq::<Entry>::empty());
        while i < es.len()
            invariant
                i <= ev.len(),
                es@ == ev,
                ev == self.entries(),
                keyed_view(items@) == fuzzy_keys(ev, fuzzy_hits(ev.take(i as int), query@), self.sort()),
                forall|k: int| 0 <= k < fuzzy_hits(ev.take(i as int), query@).len() ==> #[trigger] fuzzy_hits(ev.take(i as int), query@)[k].0 < i,
            decreases es.len() - i,
        {
            let ghost t = ev.take(i + 1);
            assert(t.drop_last() =~= ev.take(i as int));
            assert(t.last() == ev[i as int]);
            let ghost before = fuzzy_hits(ev.take(i as int), query@);
            match entry_fuzzy(&es[i], query) {
                Some(sc) => {
                    let count = es[i].access_count() as i64;
                    let item = match self.sort_mode {
                        SortMode::ByCount => (i, sc, count, sc),
                        SortMode::ByScore => (i, sc, sc, count),
                    };
                    let ghost kb = keyed_view(items@);
                    items.push(item);
                    assert(fuzzy_hits(t, query@) == before.push((i as int, sc as int)));
                    assert(keyed_view(items@) =~= kb.push((item.0 as int, item.1 as int, item.2 as int, item.3 as int)));
                    assert(fuzzy_keys(ev, before.push((i as int, sc as int)), self.sort()) =~= fuzzy_keys(ev, before, self.sort()).push(
                        (item.0 as int, item.1 as int, item.2 as int, item.3 as int)));
                },
                None => {
                    assert(fuzzy_hits(t, query@) == before);
                },
            }
            i += 1;
        }
        assert(ev.take(ev.len() as int) =~= ev);
        rank_items(&items)
    }

    /// Migemo search over titles, by access count.
    pub fn migemo_search(&self, query: &str) -> (r: Vec<(usize, i64)>)
        ensures
            pairs_view(r@) == migemo_search_spec(self.entries(), query@, self.dict()),
    {
        if query.is_empty() {
            return self.all_by_access_count();
        }
        proof {
            use_type_invariant(&self.catalog);
        }
        let engine = match &self.catalog.migemo {
            Some(m) => m,
            None => {
                return Vec::new();
            },
        };
        let es = self.catalog.state.bookmarks();
        let results = engine.search(query);
        let ghost hits = results_view(results@);
        proof {
            lemma_search_from_indices(engine.dict(), titles(es@), query@, 0);
        }
        let ghost keyed = hits.map_values(|h: (int, Seq<int>, int)| (h.0, 0int, count_of(es@, h.0), 0int));
        let mut items: Vec<KeyedItem> = Vec::new();
        let mut k: usize = 0;
        while k < results.len()
            invariant
                k <= results.len(),
                hits == results_view(results@),
                hits == search_from(engine.dict(), titles(es@), query@, 0),
                forall|j: int| 0 <= j < hits.len() ==> 0 <= #[trigger] hits[j].0 < es@.len(),
                keyed == hits.map_values(|h: (int, Seq<int>, int)| (h.0, 0int, count_of(es@, h.0), 0int)),
                keyed_view(items@) == keyed.take(k as int),
            decreases results.len() - k,
        {
            let idx = results[k].index;
            assert(hits[k as int].0 == idx);
            let ghost kb = keyed_view(items@);
            let c = es[idx].access_count() as i64;
            items.push((idx, 0, c, 0));
            assert(keyed_view(items@) =~= kb.push((idx as int, 0int, c as int, 0int)));
            assert(keyed[k as int] == (idx as int, 0int, c as int, 0int));
            assert(keyed.take(k + 1) =~= keyed.take(k as int).push(keyed[k as int]));
            k += 1;
        }
        assert(keyed.take(results.len() as int) =~= keyed);
        rank_items(&items)
    }

    /// The raw signals of the combined search: each entry that either the
    /// fuzzy matcher or the mora searcher hits, in order, with its fuzzy
    /// score, migemo score and access count.
    pub fn combined_candidates(&self, query: &str) -> (r: Vec<CombinedCandidate>)
        ensures
            r@.map_values(|c: CombinedCandidate| candidate_view(c)) == combined_from(
                self.entries(),
                query@,
                self.dict(),
                self.entries().len() as int,
            ),
    {
        proof {
            use_type_invariant(&self.catalog);
        }
        let es = self.catalog.state.bookmarks();
        let ghost ev = es@;
        let ghost mh = migemo_hits(ev, query@, self.dict());
        let mut migemo_raw: Vec<Option<i64>> = Vec::new();
        let mut i: usize = 0;
        while i < es.len()
            invariant
                i <= es@.len(),
                migemo_raw@.len() == i,
                forall|k: int| 0 <= k < i ==> migemo_raw@[k] is None,
            decreases es.len() - i,
        {
            migemo_raw.push(None);
            i += 1;
        }
        match &self.catalog.migemo {
            Some(engine) => {
                let results = engine.search(query);
                let ghost hits = results_view(results@);
                let mut k: usize = 0;
                assert(hits.take(0) =~= Seq::<(int, Seq<int>, int)>::empty());
                while k < results.len()
                    invariant
                        k <= results.len(),
                        hits == results_view(results@),
                        migemo_raw@.len() == ev.len(),
                        forall|x: int|
                            0 <= x < ev.len() ==> match #[trigger] migemo_raw@[x] {
                                Some(v) => hit_score(hits.take(k as int), x) == Some(v as int),
                                None => hit_score(hits.take(k as int), x) is None,
                            },
                        forall|j: int| 0 <= j < hits.len() ==> hits[j].2 == results@[j].score as int,
                    decreases results.len() - k,
                {
                    let idx = results[k].index;
                    let ghost t = hits.take(k + 1);
                    assert(t.drop_last() =~= hits.take(k as int));
                    assert(t.last() == hits[k as int]);
                    if idx < migemo_raw.len() {
                        migemo_raw.set(idx, Some(results[k].score));
                    }
                    k += 1;
                }
                assert(hits.take(results.len() as int) =~= hits);
                assert(hits == mh);
            },
            None => {
                assert forall|x: int| 0 <= x < ev.len() implies hit_score(mh, x) is None by {
                    assert(mh =~= Seq::<(int, Seq<int>, int)>::empty());
                }
            },
        }
        let mut out: Vec<CombinedCandidate> = Vec::new();
        let mut j: usize = 0;
        while j < es.len()
            invariant
                j <= ev.len(),
                es@ == ev,
                ev == self.entries(),
                mh == migemo_hits(ev, query@, self.dict()),
                migemo_raw@.len() == ev.len(),
                forall|x: int|
                    0 <= x < ev.len() ==> match #[trigger] migemo_raw@[x] {
                        Some(v) => hit_score(mh, x) == Some(v as int),
                        None => hit_score(mh, x) is None,
                    },
                out@.map_values(|c: CombinedCandidate| candidate_view(c)) == combined_from(ev, query@, self.dict(), j as int),
            decreases es.len() - j,
        {
            let f = entry_fuzzy(&es[j], query);
            let m = migemo_raw[j];
            let ghost before = out@.map_values(|c: CombinedCandidate| candidate_view(c));
            assert(match m {
                Some(v) => hit_score(mh, j as int) == Some(v as int),
                None => hit_score(mh, j as int) is None,
            });
            if f.is_some() || m.is_some() {
                let cand = CombinedCandidate { index: j, fuzzy: f, migemo: m, access_count: es[j].access_count() };
                let ghost cv = candidate_view(cand);
                out.push(cand);
                assert(out@.map_values(|c: CombinedCandidate| candidate_view(c)) =~= before.push(cv));
            }
            j += 1;
        }
        out
    }

    /// Ranks scored entries by score, highest first, then by access count
    /// (stably): the order of the combined search.
    pub fn rank_by_score_then_count(&self, scored: &Vec<(usize, i64)>) -> (r: Vec<(usize, i64)>)
        requires
            forall|k: int| 0 <= k < scored@.len() ==> (#[trigger] scored@[k]).0 < self.entries().len(),
        ensures
            pairs_view(r@) == ranking(score_count_keys(self.entries(), pairs_view(scored@))),
    {
        let es = self.catalog.state.bookmarks();
        let ghost keyed = pairs_view(scored@).map_values(|p: (int, int)| (p.0, p.1, p.1, count_of(es@, p.0)));
        let mut items: Vec<KeyedItem> = Vec::new();
        let mut k: usize = 0;
        while k < scored.len()
            invariant
                k <= scored.len(),
                es@ == self.entries(),
                forall|x: int| 0 <= x < scored@.len() ==> (#[trigger] scored@[x]).0 < es@.len(),
                keyed == pairs_view(scored@).map_values(|p: (int, int)| (p.0, p.1, p.1, count_of(es@, p.0))),
                keyed_view(items@) == keyed.take(k as int),
            decreases scored.len() - k,
        {
            let (idx, sc) = scored[k];
            let ghost kb = keyed_view(items@);
            let c = es[idx].access_count() as i64;
            items.push((idx, sc, sc, c));
            assert(keyed_view(items@) =~= kb.push((idx as int, sc as int, sc as int, c as int)));
            assert(pairs_view(scored@)[k as int] == (idx as int, sc as int));
            assert(keyed[k as int] == (idx as int, sc as int, sc as int, c as int));
            assert(keyed.take(k + 1) =~= keyed.take(k as int).push(keyed[k as int]));
            k += 1;
        }
        assert(keyed.take(scored.len() as int) =~= keyed);
        rank_items(&items)
    }

    fn fuzzy_match_positions(&self, title: &str, query: &str) -> (r: Vec<usize>)
        ensures
            positions_view(r@) == fuzzy_positions_spec(title@, query@),
            strictly_increasing(positions_view(r@)),
            forall|k: int| 0 <= k < r@.len() ==> #[trigger] r@[k] < title@.len(),
    {
        if query.is_empty() {
            return Vec::new();
        }
        match skim_match(title, query, true) {
            Some((_, indices)) => {
                proof {
                    let pv = positions_view(indices@);
                    assert forall|a: int, b: int| 0 <= a < b < pv.len() implies pv[a] < pv[b] by {
                        assert(indices@[a] < indices@[b]);
                    }
                }
                indices
            },
            None => Vec::new(),
        }
    }

    fn migemo_match_positions(&self, title: &str, query: &str) -> (r: Vec<usize>)
        ensures
            positions_view(r@) == migemo_positions_spec(title@, query@, self.dict()),
            strictly_increasing(positions_view(r@)),
            forall|k: int| 0 <= k < r@.len() ==> #[trigger] r@[k] < title@.len(),
    {
        if query.is_empty() {
            return Vec::new();
        }
        match &self.catalog.migemo {
            Some(engine) => {
                let r = engine.highlight(title, query);
                proof {
                    lemma_match_positions_within(engine.dict(), title@, query@);
                    lemma_match_positions_increasing(engine.dict(), title@, query@);
                    assert forall|k: int| 0 <= k < r@.len() implies #[trigger] r@[k] < title@.len() by {
                        assert(positions_view(r@)[k] == r@[k] as int);
                        match match_text(engine.dict(), title@, query@) {
                            Some((h, _)) => {
                                assert(positions_view(r@) == h);
                                assert(0 <= h[k] < title@.len());
                            },
                            None => {
                                assert(positions_view(r@).len() == 0);
                            },
                        }
                    }
                }
                r
            },
            None => Vec::new(),
        }
    }

    /// The char positions of `title` to highlight for `query`: the fuzzy
    /// matcher's, the mora searcher's, or (combined) both, in increasing order
    /// without repeats.
    pub fn match_char_positions(&self, title: &str, query: &str) -> (r: Vec<usize>)
        ensures
            match self.mode() {
                SearchMode::Fuzzy => positions_view(r@) == fuzzy_positions_spec(title@, query@),
                SearchMode::Migemo => positions_view(r@) == migemo_positions_spec(title@, query@, self.dict()),
                SearchMode::Combined => positions_view(r@).to_set()
                    == fuzzy_positions_spec(title@, query@).to_set() + migemo_positions_spec(
                    title@,
                    query@,
                    self.dict(),
                ).to_set(),
            },
            strictly_increasing(positions_view(r@)),
            forall|k: int| 0 <= k < r@.len() ==> #[trigger] r@[k] < title@.len(),
    {
        match self.search_mode {
            SearchMode::Fuzzy => self.fuzzy_match_positions(title, query),
            SearchMode::Migemo => self.migemo_match_positions(title, query),
            SearchMode::Combined => {
                let a = self.fuzzy_match_positions(title, query);
                let b = self.migemo_match_positions(title, query);
                let r = merge_positions(&a, &b);
                proof {
                    assert forall|k: int| 0 <= k < r@.len() implies #[trigger] r@[k] < title@.len() by {
                        let x = positions_view(r@)[k];
                        assert(positions_view(r@).to_set().contains(x));
                        if positions_view(a@).to_set().contains(x) {
                            let j = choose|j: int| 0 <= j < positions_view(a@).len() && positions_view(a@)[j] == x;
                            assert(a@[j] < title@.len());
                        } else {
                            assert(positions_view(b@).to_set().contains(x));
                            let j = choose|j: int| 0 <= j < positions_view(b@).len() && positions_view(b@)[j] == x;
                            assert(b@[j] < title@.len());
                        }
                    }
                }
                r
            },
        }
    }

    /// The char positions of the entry's secondary text to highlight: the
    /// fuzzy matcher's, except in migemo mode (none).
    pub fn match_secondary_positions(&self, entry: &Entry, query: &str) -> (r: Vec<usize>)
        ensures
            positions_view(r@) == if self.mode() == SearchMode::Migemo {
                Seq::<int>::empty()
            } else {
                fuzzy_positions_spec(entry.secondary_view(), query@)
            },
            strictly_increasing(positions_view(r@)),
            forall|k: int| 0 <= k < r@.len() ==> #[trigger] r@[k] < entry.secondary_view().len(),
    {
        match self.search_mode {
            SearchMode::Fuzzy | SearchMode::Combined => self.fuzzy_match_positions(entry.secondary_text(), query),
            SearchMode::Migemo => {
                let r: Vec<usize> = Vec::new();
                assert(positions_view(r@) =~= Seq::<int>::empty());
                r
            },
        }
    }

    /// Counts one more opening of the entry at `index`, if there is one.
    pub fn increment_access_count_by_index(&mut self, index: usize) -> (changed: bool)
        requires
            index < old(self).entries().len() ==> old(self).entries()[index as int].count_view() < u32::MAX,
        ensures
            changed == (index < old(self).entries().len()),
            final(self).entries() == if changed {
                old(self).entries().update(
                    index as int,
                    old(self).entries()[index as int].with_count(
                        (old(self).entries()[index as int].count_view() + 1) as u32,
                    ),
                )
            } else {
                old(self).entries()
            },
            final(self).query_view() == old(self).query_view(),
            final(self).mode() == old(self).mode(),
            final(self).sort() == old(self).sort(),
            final(self).dict() == old(self).dict(),
    {
        proof {
            use_type_invariant(&self.catalog);
        }
        let mut cat = Catalog { state: AppState::new(Vec::new()), migemo: None };
        std::mem::swap(&mut cat, &mut self.catalog);
        let Catalog { mut state, migemo } = cat;
        let changed = state.increment_access_count_by_index(index);
        assert(titles(state.entries()) =~= titles(old(self).catalog.state.entries()));
        self.catalog = Catalog { state, migemo };
        changed
    }

    /// Whether a bookmark with this URL is held (so adding it would change
    /// nothing, and its page need not be fetched).
    pub fn contains_bookmark_url(&self, url: &str) -> (r: bool)
        ensures
            r == has_bookmark_url(self.entries(), url@),
    {
        self.catalog.state.contains_bookmark_url(url)
    }

    /// Adds a bookmark for `url` (see [`AppState::add_bookmark`]) and, if
    /// added, registers its title with the mora searcher.
    pub fn add_bookmark(&mut self, url: String, page_html: Option<String>) -> (changed: bool)
        ensures
            changed == !has_bookmark_url(old(self).entries(), url@),
            !changed ==> final(self).entries() == old(self).entries(),
            changed ==> final(self).entries().len() == old(self).entries().len() + 1,
            changed ==> final(self).entries().drop_last() == old(self).entries(),
            changed ==> (final(self).entries().last() matches Entry::Bookmark { title: t, url: u, access_count: c }
                && t@ == bookmark_title_spec(url@, opt_string_view(page_html)) && u@ == url@ && c == 0),
            unique_bookmark_urls(old(self).entries()) ==> unique_bookmark_urls(final(self).entries()),
            final(self).query_view() == old(self).query_view(),
            final(self).mode() == old(self).mode(),
            final(self).sort() == old(self).sort(),
            final(self).dict() == old(self).dict(),
    {
        proof {
            use_type_invariant(&self.catalog);
        }
        let mut cat = Catalog { state: AppState::new(Vec::new()), migemo: None };
        std::mem::swap(&mut cat, &mut self.catalog);
        let Catalog { mut state, mut migemo } = cat;
        let changed = state.add_bookmark(url, page_html);
        if changed {
            let es = state.bookmarks();
            let last = es.len() - 1;
            match &mut migemo {
                Some(engine) => {
                    engine.add_item(es[last].title());
                },
                None => {},
            }
            assert(titles(es@) =~= titles(old(self).catalog.state.entries()).push(es@[last as int].title_view()));
        }
        self.catalog = Catalog { state, migemo };
        changed
    }

    /// Deletes the entry at `index` (if there is one) and its title from the
    /// mora searcher.
    pub fn delete_bookmark_by_index(&mut self, index: usize) -> (changed: bool)
        ensures
            changed == (index < old(self).entries().len()),
            final(self).entries() == if changed {
                old(self).entries().remove(index as int)
            } else {
                old(self).entries()
            },
            final(self).query_view() == old(self).query_view(),
            final(self).mode() == old(self).mode(),
            final(self).sort() == old(self).sort(),
            final(self).dict() == old(self).dict(),
    {
        proof {
            use_type_invariant(&self.catalog);
        }
        let mut cat = Catalog { state: AppState::new(Vec::new()), migemo: None };
        std::mem::swap(&mut cat, &mut self.catalog);
        let Catalog { mut state, mut migemo } = cat;
        let changed = state.delete_bookmark_by_index(index);
        match &mut migemo {
            Some(engine) => {
                engine.remove_item(index);
            },
            None => {},
        }
        if changed {
            assert(titles(state.entries()) =~= titles(old(self).catalog.state.entries()).remove(index as int));
        }
        self.catalog = Catalog { state, migemo };
        changed
    }
}

/// A mora searcher over the titles of the entries.
fn build_migemo_searcher(bookmarks: &Vec<Entry>, dictionary: SkkDictionary) -> (r: MigemoSearcher)
    ensures
        r.dict() == dictionary,
        r.texts() == titles(bookmarks@),
{
    let mut searcher = MigemoSearcher::new(dictionary);
    let mut i: usize = 0;
    while i < bookmarks.len()
        invariant
            i <= bookmarks.len(),
            searcher.dict() == dictionary,
            searcher.texts() == titles(bookmarks@).take(i as int),
        decreases bookmarks.len() - i,
    {
        searcher.add_item(bookmarks[i].title());
        assert(titles(bookmarks@).take(i + 1) =~= titles(bookmarks@).take(i as int).push(bookmarks@[i as int].title_view()));
        i += 1;
    }
    assert(titles(bookmarks@).take(bookmarks.len() as int) =~= titles(bookmarks@));
    searcher
}

/// The positions of both lists, in increasing order without repeats.
fn merge_positions(a: &Vec<usize>, b: &Vec<usize>) -> (r: Vec<usize>)
    ensures
        strictly_increasing(positions_view(r@)),
        positions_view(r@).to_set() == positions_view(a@).to_set() + positions_view(b@).to_set(),
{
    let mut r: Vec<usize> = Vec::new();
    let mut i: usize = 0;
    assert(positions_view(r@).to_set() =~= Set::<int>::empty());
    assert(positions_view(a@).take(0).to_set() =~= Set::<int>::empty());
    while i < a.len()
        invariant
            i <= a.len(),
            strictly_increasing(positions_view(r@)),
            positions_view(r@).to_set() == positions_view(a@).take(i as int).to_set(),
        decreases a.len() - i,
    {
        insert_position(&mut r, a[i]);
        assert(positions_view(a@).take(i + 1) =~= positions_view(a@).take(i as int).push(a@[i as int] as int));
        proof {
            positions_view(a@).take(i as int).lemma_push_to_set_commute(a@[i as int] as int);
        }
        i += 1;
    }
    assert(positions_view(a@).take(a.len() as int) =~= positions_view(a@));
    let mut j: usize = 0;
    assert(positions_view(b@).take(0).to_set() =~= Set::<int>::empty());
    while j < b.len()
        invariant
            j <= b.len(),
            strictly_increasing(positions_view(r@)),
            positions_view(r@).to_set() == positions_view(a@).to_set() + positions_view(b@).take(j as int).to_set(),
        decreases b.len() - j,
    {
        insert_position(&mut r, b[j]);
        assert(positions_view(b@).take(j + 1) =~= positions_view(b@).take(j as int).push(b@[j as int] as int));
        proof {
            positions_view(b@).take(j as int).lemma_push_to_set_commute(b@[j as int] as int);
        }
        j += 1;
    }
    assert(positions_view(b@).take(b.len() as int) =~= positions_view(b@));
    r
}

/// Inserts `x` into increasing positions unless it is there already.
fn insert_position(v: &mut Vec<usize>, x: usize)
    requires
        strictly_increasing(positions_view(old(v)@)),
    ensures
        strictly_increasing(positions_view(final(v)@)),
        positions_view(final(v)@).to_set() == positions_view(old(v)@).to_set().insert(x as int),
{
    let ghost s = positions_view(v@);
    let mut p: usize = 0;
    while p < v.len() && v[p] < x
        invariant
            p <= v.len(),
            v@ == old(v)@,
            s == positions_view(v@),
            forall|k: int| 0 <= k < p ==> s[k] < x,
        decreases v.len() - p,
    {
        p += 1;
    }
    if p < v.len() && v[p] == x {
        assert(s.to_set().insert(x as int) =~= s.to_set()) by {
            assert(s[p as int] == x);
        }
        return;
    }
    v.insert(p, x);
    let ghost t = positions_view(v@);
    assert(t =~= s.take(p as int) + seq![x as int] + s.skip(p as int));
    assert(p < s.len() ==> x < s[p as int]);
    assert forall|i: int, j: int| 0 <= i < j < t.len() implies t[i] < t[j] by {
        if j < p {
            assert(t[i] == s[i] && t[j] == s[j]);
        } else if j == p {
            assert(t[j] == x);
            assert(t[i] == s[i]);
        } else if i < p {
            assert(t[i] == s[i] && t[j] == s[j - 1]);
        } else if i == p {
            assert(t[j] == s[j - 1]);
            if j - 1 > p {
                assert(s[p as int] < s[j - 1]);
            }
        } else {
            assert(t[i] == s[i - 1] && t[j] == s[j - 1]);
        }
    }
    assert(t.to_set() =~= s.to_set().insert(x as int)) by {
        assert forall|y: int| t.to_set().contains(y) implies s.to_set().insert(x as int).contains(y) by {
            let k = choose|k: int| 0 <= k < t.len() && t[k] == y;
            if k < p {
                assert(s[k] == y);
            } else if k > p {
                assert(s[k - 1] == y);
            }
        }
        assert forall|y: int| s.to_set().insert(x as int).contains(y) implies t.to_set().contains(y) by {
            if y == x {
                assert(t[p as int] == y);
            } else {
                let k = choose|k: int| 0 <= k < s.len() && s[k] == y;
                if k < p {
                    assert(t[k] == y);
                } else {
                    assert(t[k + 1] == y);
                }
            }
        }
    }
}


// ---------------------------------------------------------------------------
// Laws of the rankings
// ---------------------------------------------------------------------------

/// Ranking reorders the hits: every hit it lists is one of the given ones,
/// as many as were given, in nonincreasing primary key, and among hits of
/// equal primary key in nonincreasing secondary key.
pub proof fn lemma_ranking_sorted(s: Seq<Keyed>)
    ensures
        sort_keyed(s).len() == s.len(),
        forall|i: int| 0 <= i < s.len() ==> s.contains(#[trigger] sort_keyed(s)[i]),
        forall|i: int, j: int|
            0 <= i < j < s.len() ==> (#[trigger] sort_keyed(s)[i]).2 > (#[trigger] sort_keyed(s)[j]).2 || (
            sort_keyed(s)[i].2 == sort_keyed(s)[j].2 && sort_keyed(s)[i].3 >= sort_keyed(s)[j].3),
{
    broadcast use vstd::seq_lib::group_to_multiset_ensures;

    lemma_sort_keyed(s);
    let t = sort_keyed(s);
    assert(t.len() == t.to_multiset().len());
    assert forall|i: int| 0 <= i < s.len() implies s.contains(#[trigger] sort_keyed(s)[i]) by {
        assert(t.to_multiset().count(t[i]) > 0);
        assert(s.to_multiset().count(t[i]) > 0);
    }
    assert forall|i: int, j: int| 0 <= i < j < s.len() implies (#[trigger] sort_keyed(s)[i]).2 > (
    #[trigger] sort_keyed(s)[j]).2 || (sort_keyed(s)[i].2 == sort_keyed(s)[j].2 && sort_keyed(s)[i].3
        >= sort_keyed(s)[j].3) by {
        assert(!keyed_before(t[j], t[i]));
    }
}

/// Result `a` may come before result `b` when ranking by score: a higher
/// score, or the same score and an access count at least as high.
pub open spec fn score_then_count(es: Seq<Entry>, a: (int, int), b: (int, int)) -> bool {
    a.1 > b.1 || (a.1 == b.1 && count_of(es, a.0) >= count_of(es, b.0))
}

/// Result `a` may come before result `b` when ranking by access count: a
/// higher count, or the same count and a score at least as high.
pub open spec fn count_then_score(es: Seq<Entry>, a: (int, int), b: (int, int)) -> bool {
    count_of(es, a.0) > count_of(es, b.0) || (count_of(es, a.0) == count_of(es, b.0) && a.1 >= b.1)
}

/// Every fuzzy hit names an entry and carries that entry's fuzzy score.
pub proof fn lemma_fuzzy_hits_entries(es: Seq<Entry>, q: Seq<char>)
    ensures
        forall|k: int|
            0 <= k < fuzzy_hits(es, q).len() ==> 0 <= (#[trigger] fuzzy_hits(es, q)[k]).0 < es.len()
                && entry_fuzzy_score(es[fuzzy_hits(es, q)[k].0], q) == Some(fuzzy_hits(es, q)[k].1),
    decreases es.len(),
{
    if es.len() > 0 {
        let d = es.drop_last();
        lemma_fuzzy_hits_entries(d, q);
        let rest = fuzzy_hits(d, q);
        assert forall|k: int| 0 <= k < fuzzy_hits(es, q).len() implies 0 <= (#[trigger] fuzzy_hits(es, q)[k]).0
            < es.len() && entry_fuzzy_score(es[fuzzy_hits(es, q)[k].0], q) == Some(fuzzy_hits(es, q)[k].1) by {
            if k < rest.len() {
                assert(fuzzy_hits(es, q)[k] == rest[k]);
                assert(es[rest[k].0] == d[rest[k].0]);
            }
        }
    }
}

/// The fuzzy search ranks as its sort mode says. For an empty query, every
/// entry by nonincreasing access count. Otherwise each result is an entry
/// the query matches, with its fuzzy score; by score: nonincreasing score,
/// and among equal scores, nonincreasing access count (the entry opened more
/// often first); by count: nonincreasing access count, and among equal
/// counts, nonincreasing score.
pub proof fn lemma_fuzzy_search_order(es: Seq<Entry>, q: Seq<char>, mode: SortMode)
    ensures
        forall|i: int|
            0 <= i < fuzzy_search_spec(es, q, mode).len() ==> 0 <= (#[trigger] fuzzy_search_spec(es, q, mode)[i]).0
                < es.len(),
        q.len() > 0 ==> forall|i: int|
            0 <= i < fuzzy_search_spec(es, q, mode).len() ==> entry_fuzzy_score(
                es[(#[trigger] fuzzy_search_spec(es, q, mode)[i]).0],
                q,
            ) == Some(fuzzy_search_spec(es, q, mode)[i].1),
        forall|i: int, j: int|
            0 <= i < j < fuzzy_search_spec(es, q, mode).len() ==> if q.len() == 0 || mode == SortMode::ByCount {
                count_then_score(es, #[trigger] fuzzy_search_spec(es, q, mode)[i], #[trigger] fuzzy_search_spec(es, q, mode)[j])
            } else {
                score_then_count(es, fuzzy_search_spec(es, q, mode)[i], fuzzy_search_spec(es, q, mode)[j])
            },
{
    let keys = if q.len() == 0 {
        by_count_keys(es)
    } else {
        fuzzy_keys(es, fuzzy_hits(es, q), mode)
    };
    lemma_ranking_sorted(keys);
    lemma_fuzzy_hits_entries(es, q);
    let t = sort_keyed(keys);
    let r = fuzzy_search_spec(es, q, mode);
    assert(r == ranking(keys));
    assert forall|i: int| 0 <= i < t.len() implies {
        &&& 0 <= (#[trigger] t[i]).0 < es.len()
        &&& (q.len() == 0 || mode == SortMode::ByCount) ==> t[i].2 == count_of(es, t[i].0)
        &&& (q.len() == 0 || mode == SortMode::ByCount) ==> t[i].3 == t[i].1 || q.len() == 0
        &&& q.len() == 0 ==> t[i].1 == 0 && t[i].3 == 0
        &&& !(q.len() == 0 || mode == SortMode::ByCount) ==> t[i].2 == t[i].1 && t[i].3 == count_of(es, t[i].0)
        &&& q.len() > 0 ==> entry_fuzzy_score(es[t[i].0], q) == Some(t[i].1)
    } by {
        assert(keys.contains(t[i]));
        let k = choose|k: int| 0 <= k < keys.len() && keys[k] == t[i];
        if q.len() > 0 {
            let h = fuzzy_hits(es, q)[k];
            assert(keys[k] == (if mode == SortMode::ByCount {
                (h.0, h.1, count_of(es, h.0), h.1)
            } else {
                (h.0, h.1, h.1, count_of(es, h.0))
            }));
        }
    }
    assert forall|i: int| 0 <= i < r.len() implies r[i] == (t[i].0, t[i].1) by {}
}

/// The migemo search lists entries by nonincreasing access count, each once
/// at most, with score 0.
pub proof fn lemma_migemo_search_order(es: Seq<Entry>, q: Seq<char>, dict: Option<SkkDictionary>)
    ensures
        forall|i: int|
            0 <= i < migemo_search_spec(es, q, dict).len() ==> (#[trigger] migemo_search_spec(es, q, dict)[i]).1 == 0,
        forall|i: int, j: int|
            0 <= i < j < migemo_search_spec(es, q, dict).len() ==> count_of(
                es,
                (#[trigger] migemo_search_spec(es, q, dict)[i]).0,
            ) >= count_of(es, (#[trigger] migemo_search_spec(es, q, dict)[j]).0),
{
    if q.len() == 0 {
        let keys = by_count_keys(es);
        lemma_ranking_sorted(keys);
        let t = sort_keyed(keys);
        assert forall|i: int| 0 <= i < t.len() implies (#[trigger] t[i]).2 == count_of(es, t[i].0) && t[i].1 == 0 by {
            assert(keys.contains(t[i]));
        }
    } else {
        match dict {
            None => {},
            Some(d) => {
                let keys = search_from(d, titles(es), q, 0).map_values(
                    |h: (int, Seq<int>, int)| (h.0, 0int, count_of(es, h.0), 0int),
                );
                lemma_ranking_sorted(keys);
                let t = sort_keyed(keys);
                assert forall|i: int| 0 <= i < t.len() implies (#[trigger] t[i]).2 == count_of(es, t[i].0) && t[i].1
                    == 0 by {
                    assert(keys.contains(t[i]));
                }
            },
        }
    }
}

/// Scored results keyed by score, then access count.
pub open spec fn score_count_keys(es: Seq<Entry>, scored: Seq<(int, int)>) -> Seq<Keyed> {
    scored.map_values(|p: (int, int)| (p.0, p.1, p.1, count_of(es, p.0)))
}

/// Ranking scored results (as the combined search does) lists the given
/// (index, score) pairs, as many as given, by nonincreasing score, and among
/// equal scores by nonincreasing access count.
pub proof fn lemma_score_then_count_order(es: Seq<Entry>, scored: Seq<(int, int)>)
    ensures
        ranking(score_count_keys(es, scored)).len() == scored.len(),
        forall|i: int|
            0 <= i < scored.len() ==> scored.contains(
                #[trigger] ranking(score_count_keys(es, scored))[i],
            ),
        forall|i: int, j: int|
            0 <= i < j < scored.len() ==> score_then_count(
                es,
                #[trigger] ranking(score_count_keys(es, scored))[i],
                #[trigger] ranking(score_count_keys(es, scored))[j],
            ),
{
    let keys = score_count_keys(es, scored);
    lemma_ranking_sorted(keys);
    let t = sort_keyed(keys);
    let r = ranking(keys);
    assert forall|i: int| 0 <= i < t.len() implies (#[trigger] t[i]).2 == t[i].1 && t[i].3 == count_of(es, t[i].0)
        && scored.contains((t[i].0, t[i].1)) by {
        assert(keys.contains(t[i]));
        let k = choose|k: int| 0 <= k < keys.len() && keys[k] == t[i];
        assert(scored[k] == (t[i].0, t[i].1));
    }
    assert forall|i: int| 0 <= i < scored.len() implies scored.contains(#[trigger] r[i]) by {
        assert(r[i] == (t[i].0, t[i].1));
        assert(t[i].2 == t[i].1);
    }
    assert forall|i: int, j: int| 0 <= i < j < scored.len() implies score_then_count(es, #[trigger] r[i], #[trigger] r[j]) by {
        assert(r[i] == (t[i].0, t[i].1) && r[j] == (t[j].0, t[j].1));
        assert(t[i].2 == t[i].1 && t[j].2 == t[j].1);
    }
}


/// An entry's fuzzy score is the better of its title's and its URL's (or
/// command's) scores: at least each of them that matches, and one of them;
/// an entry matches when either does.
pub proof fn lemma_entry_score_is_best(e: Entry, q: Seq<char>)
    ensures
        entry_fuzzy_score(e, q) is Some <==> (fuzzy_score(e.title_view(), q) is Some || fuzzy_score(
            e.secondary_view(),
            q,
        ) is Some),
        entry_fuzzy_score(e, q) matches Some(x) ==> {
            &&& fuzzy_score(e.title_view(), q) matches Some(a) ==> x >= a
            &&& fuzzy_score(e.secondary_view(), q) matches Some(b) ==> x >= b
            &&& fuzzy_score(e.title_view(), q) == Some(x) || fuzzy_score(e.secondary_view(), q) == Some(x)
        },
{
}

} // verus!
