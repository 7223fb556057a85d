//! Character-level string helpers shared by the kana, search and launcher code,
//! and the trusted wrappers around the few `std` string functions that vstd
//! gives no specification.

use vstd::prelude::*;
use vstd::utf8::{encode_scalar, encode_utf8, length_of_first_scalar, pop_first_scalar};

verus! {

broadcast use vstd::string::group_string_axioms;

/// Collects the chars of `s` into a vector.
pub fn str_chars(s: &str) -> (v: Vec<char>)
    ensures
        v@ == s@,
{
    let mut v: Vec<char> = Vec::new();
    for c in it: s.chars()
        invariant
            v@ == it.seq().take(it.index()),
            it.seq() == s@,
    {
        v.push(c);
    }
    v
}

/// Appends `c` to `s` (`String::push`, which appends one char).
#[verifier::external_body]
pub(crate) fn string_push(s: &mut String, c: char)
    ensures
        final(s)@ == old(s)@.push(c),
{
    s.push(c);
}

/// Removes the last char of `s`, if any (`String::pop`).
#[verifier::external_body]
pub(crate) fn string_pop(s: &mut String) -> (r: Option<char>)
    ensures
        old(s)@.len() == 0 ==> r is None && final(s)@ == old(s)@,
        old(s)@.len() > 0 ==> r == Some(old(s)@.last()) && final(s)@ == old(s)@.drop_last(),
{
    s.pop()
}

/// Builds the string whose chars are `chars[start..end]`.
pub fn string_from_chars(chars: &Vec<char>, start: usize, end: usize) -> (r: String)
    requires
        start <= end <= chars.len(),
    ensures
        r@ == chars@.subrange(start as int, end as int),
{
    let mut r = String::new();
    let mut i = start;
    while i < end
        invariant
            start <= i <= end <= chars.len(),
            r@ == chars@.subrange(start as int, i as int),
        decreases end - i,
    {
        string_push(&mut r, chars[i]);
        i += 1;
        assert(r@ =~= chars@.subrange(start as int, i as int));
    }
    r
}

/// The string holding the single char `c`.
pub fn char_to_string(c: char) -> (r: String)
    ensures
        r@ == seq![c],
{
    let mut r = String::new();
    string_push(&mut r, c);
    assert(r@ =~= seq![c]);
    r
}

/// `char::from_u32`: the char with scalar value `v`, if `v` is a Unicode
/// scalar value (at most 0x10FFFF and outside the surrogate range).
#[verifier::external_body]
pub(crate) fn char_from_u32(v: u32) -> (r: Option<char>)
    ensures
        r is Some <==> (v <= 0x10FFFF && !(0xD800 <= v <= 0xDFFF)),
        r matches Some(c) ==> c as u32 == v,
{
    char::from_u32(v)
}

/// What `str::to_lowercase` returns for a string: the Unicode lowercase
/// mapping, with its context-dependent rules (such as the final sigma).
pub uninterp spec fn str_lowercase(s: Seq<char>) -> Seq<char>;

/// The lowercase form of an ASCII char: `A` to `Z` become `a` to `z`, every
/// other char stays.
pub open spec fn ascii_lower(c: char) -> char {
    if 'A' <= c <= 'Z' {
        ((c as u32) + 32) as char
    } else {
        c
    }
}

/// Whether every char of `s` is ASCII.
pub open spec fn all_ascii(s: Seq<char>) -> bool {
    forall|i: int| 0 <= i < s.len() ==> (#[trigger] s[i] as u32) < 0x80
}

/// Lowercases `s` with `str::to_lowercase`. Of the Unicode mapping only this
/// is stated: every char lowercases to one or more chars, so a nonempty string
/// stays nonempty, and an all-ASCII string (the empty one among them) is
/// lowercased char by char, `A` to `Z` becoming `a` to `z`.
#[verifier::external_body]
pub(crate) fn str_to_lowercase(s: &str) -> (r: String)
    ensures
        r@ == str_lowercase(s@),
        s@.len() > 0 ==> r@.len() > 0,
        all_ascii(s@) ==> r@ == s@.map_values(|c: char| ascii_lower(c)),
{
    s.to_lowercase()
}

/// `std::str::from_utf8`: the string the bytes encode, if they are valid UTF-8.
#[verifier::external_body]
pub(crate) fn str_from_utf8(bytes: &[u8]) -> (r: Option<&str>)
    ensures
        r is Some <==> vstd::utf8::valid_utf8(bytes@),
        r matches Some(s) ==> s@ == vstd::utf8::decode_utf8(bytes@),
{
    std::str::from_utf8(bytes).ok()
}

/// The chars that `char::to_lowercase` yields for `c`.
pub uninterp spec fn char_lowercase(c: char) -> Seq<char>;

/// Lowercases one char with `char::to_lowercase`, collecting the chars it
/// yields; the documentation promises one or more, and an ASCII char yields
/// its ASCII lowercase form alone.
#[verifier::external_body]
pub(crate) fn char_to_lowercase(c: char) -> (r: Vec<char>)
    ensures
        r@ == char_lowercase(c),
        r@.len() >= 1,
        (c as u32) < 0x80 ==> r@ == seq![ascii_lower(c)],
{
    c.to_lowercase().collect()
}

} // verus!

verus! {

/// The views of a sequence of strings.
pub open spec fn strings_view(v: Seq<String>) -> Seq<Seq<char>> {
    v.map_values(|s: String| s@)
}

/// The view of an optional string.
pub open spec fn opt_string_view(o: Option<String>) -> Option<Seq<char>> {
    match o {
        Some(s) => Some(s@),
        None => None,
    }
}

/// Appends `tail` to `s`.
pub fn string_append(s: &mut String, tail: &str)
    ensures
        final(s)@ == old(s)@ + tail@,
{
    s.append(tail);
}

} // verus!

verus! {

/// The index of the first `c` in `s` at or after `i`, or `s.len()` if there is none.
pub open spec fn find_from(s: Seq<char>, c: char, i: int) -> int
    decreases s.len() - i,
{
    if i < 0 || i >= s.len() {
        s.len() as int
    } else if s[i] == c {
        i
    } else {
        find_from(s, c, i + 1)
    }
}

/// `find_from` lands between its start and the end of the sequence.
pub proof fn lemma_find_from_bounds(s: Seq<char>, c: char, i: int)
    requires
        0 <= i <= s.len(),
    ensures
        i <= find_from(s, c, i) <= s.len(),
        find_from(s, c, i) < s.len() ==> s[find_from(s, c, i)] == c,
        forall|k: int| i <= k < find_from(s, c, i) ==> s[k] != c,
    decreases s.len() - i,
{
    if i < s.len() && s[i] != c {
        lemma_find_from_bounds(s, c, i + 1);
    }
}

/// The index of the first `c` in `chars` at or after `from`, or the length.
pub fn find_char(chars: &Vec<char>, c: char, from: usize) -> (r: usize)
    requires
        from <= chars.len(),
    ensures
        r == find_from(chars@, c, from as int),
        from <= r <= chars.len(),
{
    proof {
        lemma_find_from_bounds(chars@, c, from as int);
    }
    let mut i = from;
    while i < chars.len()
        invariant
            from <= i <= chars.len(),
            find_from(chars@, c, from as int) == find_from(chars@, c, i as int),
        decreases chars.len() - i,
    {
        if chars[i] == c {
            return i;
        }
        i += 1;
    }
    i
}

/// A copy of `chars[start..end]`.
pub fn copy_range(chars: &Vec<char>, start: usize, end: usize) -> (r: Vec<char>)
    requires
        start <= end <= chars.len(),
    ensures
        r@ == chars@.subrange(start as int, end as int),
{
    let mut r: Vec<char> = Vec::new();
    let mut i = start;
    while i < end
        invariant
            start <= i <= end <= chars.len(),
            r@ == chars@.subrange(start as int, i as int),
        decreases end - i,
    {
        r.push(chars[i]);
        i += 1;
        assert(r@ =~= chars@.subrange(start as int, i as int));
    }
    r
}

/// Whether `chars` begins with `prefix`.
pub fn chars_start_with(chars: &Vec<char>, prefix: &Vec<char>) -> (r: bool)
    ensures
        r == (prefix@.len() <= chars@.len() && chars@.take(prefix@.len() as int) == prefix@),
{
    if prefix.len() > chars.len() {
        return false;
    }
    let mut i: usize = 0;
    while i < prefix.len()
        invariant
            i <= prefix.len() <= chars.len(),
            forall|k: int| 0 <= k < i ==> chars@[k] == prefix@[k],
        decreases prefix.len() - i,
    {
        if chars[i] != prefix[i] {
            assert(chars@.take(prefix@.len() as int)[i as int] != prefix@[i as int]);
            return false;
        }
        i += 1;
    }
    assert(chars@.take(prefix@.len() as int) =~= prefix@);
    true
}

/// Searching a suffix finds what searching the whole from the suffix's start finds.
pub proof fn lemma_find_skip(s: Seq<char>, c: char, p: int)
    requires
        0 <= p <= s.len(),
    ensures
        find_from(s.skip(p), c, 0) == find_from(s, c, p) - p,
{
    lemma_find_skip_from(s, c, p, 0);
}

pub proof fn lemma_find_skip_from(s: Seq<char>, c: char, p: int, k: int)
    requires
        0 <= p <= s.len(),
        0 <= k <= s.len() - p,
    ensures
        find_from(s.skip(p), c, k) == find_from(s, c, p + k) - p,
    decreases s.len() - p - k,
{
    if k < s.len() - p && s.skip(p)[k] != c {
        lemma_find_skip_from(s, c, p, k + 1);
    }
}

/// Whether two strings hold the same chars.
pub fn str_eq(a: &str, b: &str) -> (r: bool)
    ensures
        r == (a@ == b@),
{
    let x = str_chars(a);
    let y = str_chars(b);
    if x.len() != y.len() {
        return false;
    }
    let mut i: usize = 0;
    while i < x.len()
        invariant
            i <= x.len() == y.len(),
            x@ == a@,
            y@ == b@,
            forall|k: int| 0 <= k < i ==> x@[k] == y@[k],
        decreases x.len() - i,
    {
        if x[i] != y[i] {
            return false;
        }
        i += 1;
    }
    assert(x@ =~= y@);
    true
}

/// The number of bytes that the UTF-8 encoding of `c` takes (`char::len_utf8`).
pub fn utf8_width(c: char) -> (r: usize)
    ensures
        r == vstd::utf8::encode_scalar(c as u32).len(),
{
    let v = c as u32;
    if v <= 0x7F {
        1
    } else if v <= 0x7FF {
        2
    } else if v <= 0xFFFF {
        3
    } else {
        4
    }
}

/// The UTF-8 encoding of a char sequence is the encoding of a prefix followed
/// by that of the rest, and the prefix ends on a char boundary.
pub proof fn lemma_encode_utf8_split(s: Seq<char>, i: int)
    requires
        0 <= i <= s.len(),
    ensures
        vstd::utf8::encode_utf8(s) == vstd::utf8::encode_utf8(s.take(i)) + vstd::utf8::encode_utf8(s.skip(i)),
        vstd::utf8::is_char_boundary(vstd::utf8::encode_utf8(s), vstd::utf8::encode_utf8(s.take(i)).len() as int),
    decreases i,
{
    broadcast use vstd::utf8::encode_utf8_valid_utf8;

    if i == 0 {
        assert(s.take(0) =~= Seq::<char>::empty());
        assert(s.skip(0) =~= s);
        assert(encode_utf8(s.take(0)) =~= Seq::<u8>::empty());
        assert(encode_utf8(s) =~= Seq::<u8>::empty() + encode_utf8(s));
    } else {
        let t = s.drop_first();
        lemma_encode_utf8_split(t, i - 1);
        let es = encode_scalar(s[0] as u32);
        assert(s.take(i).drop_first() =~= t.take(i - 1));
        assert(s.skip(i) =~= t.skip(i - 1));
        assert(encode_utf8(s.take(i)) == es + encode_utf8(t.take(i - 1)));
        assert(encode_utf8(s) == es + encode_utf8(t));
        assert(encode_utf8(s) =~= encode_utf8(s.take(i)) + encode_utf8(s.skip(i)));
        vstd::utf8::encode_utf8_first_scalar(s);
        let bytes = encode_utf8(s);
        assert(length_of_first_scalar(bytes) == es.len());
        assert(pop_first_scalar(bytes) =~= encode_utf8(t));
    }
}

/// The encoding of one more char adds that char's encoding.
pub proof fn lemma_encode_utf8_push_len(s: Seq<char>, k: int)
    requires
        0 <= k < s.len(),
    ensures
        vstd::utf8::encode_utf8(s.take(k + 1)).len() == vstd::utf8::encode_utf8(s.take(k)).len()
            + vstd::utf8::encode_scalar(s[k] as u32).len(),
        vstd::utf8::encode_utf8(s.take(k)).len() <= vstd::utf8::encode_utf8(s).len(),
{
    let p = s.take(k + 1);
    lemma_encode_utf8_split(p, k);
    lemma_encode_utf8_split(s, k);
    assert(p.take(k) =~= s.take(k));
    assert(p.skip(k) =~= seq![s[k]]);
    assert(seq![s[k]].drop_first() =~= Seq::<char>::empty());
    assert(encode_utf8(seq![s[k]]) == encode_scalar(s[k] as u32) + encode_utf8(Seq::<char>::empty()));
}

} // verus!
