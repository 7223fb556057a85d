//! The compiled dictionary format: an 8-byte little-endian length, the bytes of
//! an FST mapping each word's UTF-8 bytes to a packed (offset, length) range,
//! and a blob holding each word's mora list joined by `,`.

use vstd::prelude::*;
use vstd::utf8::{decode_utf8, encode_utf8, valid_utf8};
use crate::fst_map::{bytes_lt, entries_lookup, fst_get, lemma_bytes_lt_order};
use crate::skk::{split_on, DictMap};
use crate::text::{
    find_char, find_from, lemma_find_from_bounds, lemma_find_skip, str_chars, string_append,
    string_from_chars, string_push, strings_view,
};

verus! {

broadcast use vstd::string::group_string_axioms;

// ---------------------------------------------------------------------------
// Little-endian integers
// ---------------------------------------------------------------------------

/// 256 to the power `n`.
pub open spec fn pow256(n: nat) -> nat
    decreases n,
{
    if n == 0 {
        1
    } else {
        256 * pow256((n - 1) as nat)
    }
}

/// The number that the bytes `b` spell in little-endian order.
pub open spec fn le_value(b: Seq<u8>) -> nat
    decreases b.len(),
{
    if b.len() == 0 {
        0
    } else {
        b[0] as nat + 256 * le_value(b.drop_first())
    }
}

/// The `n` least significant bytes of `v`, least significant first.
pub open spec fn le_bytes(v: nat, n: nat) -> Seq<u8>
    decreases n,
{
    if n == 0 {
        seq![]
    } else {
        seq![(v % 256) as u8] + le_bytes(v / 256, (n - 1) as nat)
    }
}

proof fn lemma_pow256_8()
    ensures
        pow256(8) == 0x1_0000_0000_0000_0000,
{
    reveal_with_fuel(pow256, 9);
}

/// Spelling a number below `256^n` in `n` bytes and reading it back gives it back.
pub proof fn lemma_le_bytes_value(v: nat, n: nat)
    requires
        v < pow256(n),
    ensures
        le_bytes(v, n).len() == n,
        le_value(le_bytes(v, n)) == v,
    decreases n,
{
    if n > 0 {
        lemma_le_bytes_value(v / 256, (n - 1) as nat);
        let s = le_bytes(v, n);
        assert(s.drop_first() =~= le_bytes(v / 256, (n - 1) as nat));
    }
}

/// Reading `n` bytes and spelling the number back in `n` bytes gives them back.
pub proof fn lemma_le_value_bytes(b: Seq<u8>)
    ensures
        le_value(b) < pow256(b.len()),
        le_bytes(le_value(b), b.len()) == b,
    decreases b.len(),
{
    if b.len() > 0 {
        let t = b.drop_first();
        lemma_le_value_bytes(t);
        let v = le_value(b);
        assert(v % 256 == b[0] as nat);
        assert(v / 256 == le_value(t));
        assert(le_bytes(v, b.len()) =~= seq![b[0]] + t);
        assert(b =~= seq![b[0]] + t);
    }
}

/// The number the first 8 bytes of `bytes` spell in little-endian order
/// (`u64::from_le_bytes`).
pub fn read_u64_le(bytes: &[u8]) -> (r: u64)
    requires
        bytes@.len() >= 8,
    ensures
        r as nat == le_value(bytes@.take(8)),
{
    let mut v: u64 = 0;
    let mut i: usize = 8;
    proof {
        lemma_pow256_8();
    }
    assert(bytes@.subrange(8, 8) =~= Seq::<u8>::empty());
    while i > 0
        invariant
            i <= 8 <= bytes@.len(),
            v as nat == le_value(bytes@.subrange(i as int, 8)),
            le_value(bytes@.subrange(i as int, 8)) < pow256((8 - i) as nat),
            pow256(8) == 0x1_0000_0000_0000_0000,
        decreases i,
    {
        let ghost tail = bytes@.subrange(i as int, 8);
        i -= 1;
        let ghost s = bytes@.subrange(i as int, 8);
        assert(s.drop_first() =~= tail);
        assert(pow256((8 - i) as nat) == 256 * pow256((8 - i - 1) as nat));
        assert(pow256((8 - i) as nat) <= pow256(8)) by {
            lemma_pow256_mono((8 - i) as nat, 8);
        }
        v = v * 256 + bytes[i] as u64;
    }
    assert(bytes@.subrange(0, 8) =~= bytes@.take(8));
    v
}

proof fn lemma_pow256_mono(a: nat, b: nat)
    requires
        a <= b,
    ensures
        pow256(a) <= pow256(b),
    decreases b,
{
    if a < b {
        lemma_pow256_mono(a, (b - 1) as nat);
    }
}

/// The 8 bytes of `v` in little-endian order (`u64::to_le_bytes`).
pub fn u64_le_bytes(v: u64) -> (r: Vec<u8>)
    ensures
        r@ == le_bytes(v as nat, 8),
{
    let mut r: Vec<u8> = Vec::new();
    let mut x: u64 = v;
    let mut k: usize = 0;
    while k < 8
        invariant
            k <= 8,
            r@ + le_bytes(x as nat, (8 - k) as nat) == le_bytes(v as nat, 8),
        decreases 8 - k,
    {
        let ghost before = r@;
        let b = (x % 256) as u8;
        assert(le_bytes(x as nat, (8 - k) as nat) == seq![b] + le_bytes((x / 256) as nat, (8 - k - 1) as nat));
        r.push(b);
        x = x / 256;
        k += 1;
        assert(r@ + le_bytes(x as nat, (8 - k) as nat) =~= before + (seq![b] + le_bytes(x as nat, (8 - k) as nat)));
    }
    assert(le_bytes(x as nat, 0) =~= Seq::<u8>::empty());
    assert(r@ + Seq::<u8>::empty() =~= r@);
    r
}

// ---------------------------------------------------------------------------
// Packed ranges
// ---------------------------------------------------------------------------

/// A byte range of the blob packed into one value: the offset in the high 32
/// bits, the length in the low 32 bits.
pub open spec fn pack_value(offset: u64, len: u64) -> u64 {
    (offset << 32) | len
}

/// Packs the blob range (`offset`, `len`) into one value.
pub fn pack_range(offset: usize, len: usize) -> (r: u64)
    ensures
        r == pack_value(offset as u64, len as u64),
{
    ((offset as u64) << 32) | (len as u64)
}

/// Unpacks a blob range: the high 32 bits are the offset, the low 32 the length.
pub fn unpack_range(value: u64) -> (r: (usize, usize))
    ensures
        r.0 as int == (value >> 32) as int,
        r.1 as int == (value & 0xFFFF_FFFF) as int,
{
    assert(value >> 32 <= 0xFFFF_FFFF) by (bit_vector);
    assert(value & 0xFFFF_FFFF <= 0xFFFF_FFFF) by (bit_vector);
    ((value >> 32) as usize, (value & 0xFFFF_FFFF) as usize)
}

/// Unpacking a range of two values below 2^32 gives them back.
pub proof fn lemma_pack_unpack(offset: u64, len: u64)
    requires
        offset < 0x1_0000_0000,
        len < 0x1_0000_0000,
    ensures
        pack_value(offset, len) >> 32 == offset,
        pack_value(offset, len) & 0xFFFF_FFFF == len,
{
    assert(((offset << 32) | len) >> 32 == offset) by (bit_vector)
        requires
            offset < 0x1_0000_0000,
            len < 0x1_0000_0000,
    ;
    assert(((offset << 32) | len) & 0xFFFF_FFFF == len) by (bit_vector)
        requires
            offset < 0x1_0000_0000,
            len < 0x1_0000_0000,
    ;
}

// ---------------------------------------------------------------------------
// Mora lists joined by ','
// ---------------------------------------------------------------------------

/// The pieces of `ms` joined with `sep` between them (`slice::join`).
pub open spec fn join_on(ms: Seq<Seq<char>>, sep: char) -> Seq<char>
    decreases ms.len(),
{
    if ms.len() == 0 {
        seq![]
    } else if ms.len() == 1 {
        ms[0]
    } else {
        ms[0] + seq![sep] + join_on(ms.drop_first(), sep)
    }
}

/// Joining one more piece appends the separator and the piece.
proof fn lemma_join_push(ms: Seq<Seq<char>>, x: Seq<char>, sep: char)
    ensures
        join_on(ms.push(x), sep) == if ms.len() == 0 {
            x
        } else {
            join_on(ms, sep) + seq![sep] + x
        },
    decreases ms.len(),
{
    if ms.len() >= 1 {
        let t = ms.drop_first();
        lemma_join_push(t, x, sep);
        assert(ms.push(x).drop_first() =~= t.push(x));
        if ms.len() == 1 {
            assert(t.push(x) =~= seq![x]);
        } else {
            assert(ms[0] + seq![sep] + (join_on(t, sep) + seq![sep] + x) =~= ms[0] + seq![sep] + join_on(t, sep) + seq![sep] + x);
        }
    }
}

/// No piece holds the separator.
pub open spec fn sep_free(ms: Seq<Seq<char>>, sep: char) -> bool {
    forall|k: int, i: int| 0 <= k < ms.len() && 0 <= i < ms[k].len() ==> #[trigger] ms[k][i] != sep
}

/// Splitting joined pieces that hold no separator gives them back.
pub proof fn lemma_split_join(ms: Seq<Seq<char>>, sep: char)
    requires
        ms.len() > 0,
        sep_free(ms, sep),
    ensures
        split_on(join_on(ms, sep), sep) == ms,
    decreases ms.len(),
{
    let s = join_on(ms, sep);
    lemma_find_from_bounds(s, sep, 0);
    let a = ms[0];
    if ms.len() == 1 {
        assert(forall|i: int| 0 <= i < a.len() ==> a[i] != sep) by {
            assert forall|i: int| 0 <= i < a.len() implies a[i] != sep by {
                assert(ms[0][i] != sep);
            }
        }
        assert(find_from(s, sep, 0) == s.len());
        assert(split_on(s, sep) =~= seq![s]);
        assert(seq![s] =~= ms);
    } else {
        let t = ms.drop_first();
        assert(sep_free(t, sep)) by {
            assert forall|k: int, i: int| 0 <= k < t.len() && 0 <= i < t[k].len() implies #[trigger] t[k][i] != sep by {
                assert(t[k] == ms[k + 1]);
                assert(ms[k + 1][i] != sep);
            }
        }
        lemma_split_join(t, sep);
        assert(s[a.len() as int] == sep);
        assert forall|i: int| 0 <= i < a.len() implies s[i] != sep by {
            assert(s[i] == a[i]);
            assert(ms[0][i] != sep);
        }
        let j = find_from(s, sep, 0);
        assert(j == a.len());
        assert(s.take(j) =~= a);
        assert(s.skip(j + 1) =~= join_on(t, sep));
        assert(split_on(s, sep) =~= seq![a] + split_on(join_on(t, sep), sep));
        assert(seq![a] + t =~= ms);
    }
}

/// Joins the strings with `sep` between them.
pub fn join_strings(ms: &Vec<String>, sep: char) -> (r: String)
    ensures
        r@ == join_on(strings_view(ms@), sep),
{
    let ghost v = strings_view(ms@);
    let mut r = String::new();
    let mut i: usize = 0;
    assert(v.take(0) =~= Seq::<Seq<char>>::empty());
    while i < ms.len()
        invariant
            i <= ms.len(),
            v == strings_view(ms@),
            r@ == join_on(v.take(i as int), sep),
        decreases ms.len() - i,
    {
        proof {
            lemma_join_push(v.take(i as int), v[i as int], sep);
            assert(v.take(i as int).push(v[i as int]) =~= v.take(i + 1));
        }
        if i > 0 {
            string_push(&mut r, sep);
        }
        string_append(&mut r, ms[i].as_str());
        i += 1;
    }
    assert(v.take(ms.len() as int) =~= v);
    r
}

/// Splits `s` at each `,` (`str::split`).
pub fn split_morae(s: &str) -> (r: Vec<String>)
    ensures
        strings_view(r@) == split_on(s@, ','),
{
    let chars = str_chars(s);
    let mut r: Vec<String> = Vec::new();
    let mut pos: usize = 0;
    assert(chars@.skip(0) =~= chars@);
    assert(strings_view(r@) + split_on(chars@, ',') =~= split_on(chars@, ','));
    loop
        invariant_except_break
            pos <= chars.len(),
            split_on(chars@, ',') == strings_view(r@) + split_on(chars@.skip(pos as int), ','),
        ensures
            strings_view(r@) == split_on(chars@, ','),
        decreases chars.len() - pos,
    {
        let ghost rest = chars@.skip(pos as int);
        let ghost before = strings_view(r@);
        let e = find_char(&chars, ',', pos);
        proof {
            lemma_find_skip(chars@, ',', pos as int);
            lemma_find_from_bounds(rest, ',', 0);
        }
        let piece = string_from_chars(&chars, pos, e);
        assert(rest.take(e - pos) =~= piece@);
        r.push(piece);
        assert(strings_view(r@) =~= before.push(piece@));
        if e >= chars.len() {
            assert(rest =~= piece@);
            assert(split_on(rest, ',') =~= seq![piece@]);
            assert(before + seq![piece@] =~= before.push(piece@));
            break;
        }
        assert(rest.skip(e - pos + 1) =~= chars@.skip(e + 1));
        assert(split_on(rest, ',') == seq![piece@] + split_on(chars@.skip(e + 1), ','));
        assert(before + (seq![piece@] + split_on(chars@.skip(e + 1), ',')) =~= before.push(piece@) + split_on(chars@.skip(e + 1), ','));
        pos = e + 1;
    }
    r
}

// ---------------------------------------------------------------------------
// Sorted byte strings
// ---------------------------------------------------------------------------

/// The byte strings are in strictly increasing order.
pub open spec fn byte_sorted(ks: Seq<Seq<u8>>) -> bool {
    forall|i: int, j: int| 0 <= i < j < ks.len() ==> bytes_lt(#[trigger] ks[i], #[trigger] ks[j])
}

/// Two strictly increasing lists of the same byte strings are the same list.
pub proof fn lemma_byte_sorted_unique(a: Seq<Seq<u8>>, b: Seq<Seq<u8>>)
    requires
        byte_sorted(a),
        byte_sorted(b),
        a.to_set() == b.to_set(),
    ensures
        a == b,
    decreases a.len(),
{
    if a.len() == 0 {
        if b.len() > 0 {
            assert(b.to_set().contains(b[0]));
        }
        assert(a =~= b);
    } else {
        assert(a.to_set().contains(a[0]));
        assert(b.len() > 0);
        assert(b.to_set().contains(b[0]));
        let i = choose|i: int| 0 <= i < a.len() && a[i] == b[0];
        let j = choose|j: int| 0 <= j < b.len() && b[j] == a[0];
        if j > 0 {
            assert(bytes_lt(b[0], b[j]));
            if i > 0 {
                assert(bytes_lt(a[0], a[i]));
                lemma_bytes_lt_order(a[0], b[0], a[0]);
            } else {
                lemma_bytes_lt_order(a[0], a[0], a[0]);
            }
        }
        assert(a[0] == b[0]);
        let ta = a.drop_first();
        let tb = b.drop_first();
        assert(byte_sorted(ta)) by {
            assert forall|x: int, y: int| 0 <= x < y < ta.len() implies bytes_lt(#[trigger] ta[x], #[trigger] ta[y]) by {
                assert(ta[x] == a[x + 1] && ta[y] == a[y + 1]);
            }
        }
        assert(byte_sorted(tb)) by {
            assert forall|x: int, y: int| 0 <= x < y < tb.len() implies bytes_lt(#[trigger] tb[x], #[trigger] tb[y]) by {
                assert(tb[x] == b[x + 1] && tb[y] == b[y + 1]);
            }
        }
        assert(ta.to_set() =~= tb.to_set()) by {
            assert forall|k: Seq<u8>| ta.to_set().contains(k) implies tb.to_set().contains(k) by {
                let x = choose|x: int| 0 <= x < ta.len() && ta[x] == k;
                assert(a.to_set().contains(k));
                let y = choose|y: int| 0 <= y < b.len() && b[y] == k;
                if y == 0 {
                    assert(bytes_lt(a[0], a[x + 1]));
                    lemma_bytes_lt_order(k, k, k);
                }
                assert(tb[y - 1] == k);
            }
            assert forall|k: Seq<u8>| tb.to_set().contains(k) implies ta.to_set().contains(k) by {
                let y = choose|y: int| 0 <= y < tb.len() && tb[y] == k;
                assert(b.to_set().contains(k));
                let x = choose|x: int| 0 <= x < a.len() && a[x] == k;
                if x == 0 {
                    assert(bytes_lt(b[0], b[y + 1]));
                    lemma_bytes_lt_order(k, k, k);
                }
                assert(ta[x - 1] == k);
            }
        }
        lemma_byte_sorted_unique(ta, tb);
        assert(a =~= seq![a[0]] + ta);
        assert(b =~= seq![b[0]] + tb);
    }
}

/// In a list of entries with strictly increasing keys, a key's value is that of
/// its entry.
pub proof fn lemma_entries_lookup_sorted(es: Seq<(Seq<u8>, u64)>, i: int)
    requires
        0 <= i < es.len(),
        forall|x: int, y: int| 0 <= x < y < es.len() ==> bytes_lt(#[trigger] es[x].0, #[trigger] es[y].0),
    ensures
        entries_lookup(es, es[i].0) == Some(es[i].1),
    decreases i,
{
    if i > 0 {
        assert(bytes_lt(es[0].0, es[i].0));
        lemma_bytes_lt_order(es[0].0, es[0].0, es[0].0);
        let t = es.drop_first();
        assert forall|x: int, y: int| 0 <= x < y < t.len() implies bytes_lt(#[trigger] t[x].0, #[trigger] t[y].0) by {
            assert(t[x] == es[x + 1] && t[y] == es[y + 1]);
        }
        lemma_entries_lookup_sorted(t, i - 1);
    }
}

/// A key that no entry has has no value.
pub proof fn lemma_entries_lookup_absent(es: Seq<(Seq<u8>, u64)>, k: Seq<u8>)
    requires
        forall|x: int| 0 <= x < es.len() ==> #[trigger] es[x].0 != k,
    ensures
        entries_lookup(es, k) is None,
    decreases es.len(),
{
    if es.len() > 0 {
        let t = es.drop_first();
        assert forall|x: int| 0 <= x < t.len() implies #[trigger] t[x].0 != k by {
            assert(t[x] == es[x + 1]);
        }
        lemma_entries_lookup_absent(t, k);
    }
}

/// The views of a list of (key, joined morae) entries.
pub open spec fn entry_views(v: Seq<(Vec<u8>, String)>) -> Seq<(Seq<u8>, Seq<char>)> {
    v.map_values(|e: (Vec<u8>, String)| (e.0@, e.1@))
}

/// Sorts entries by their keys with `slice::sort_by`, comparing keys with the
/// lexicographic `Ord` of byte vectors: the result holds the same entries, in
/// increasing key order.
#[verifier::external_body]
pub(crate) fn sort_entries_by_key(v: &mut Vec<(Vec<u8>, String)>)
    ensures
        entry_views(final(v)@).to_multiset() == entry_views(old(v)@).to_multiset(),
        forall|i: int, j: int|
            0 <= i < j < final(v)@.len() ==> !bytes_lt(#[trigger] final(v)@[j].0@, #[trigger] final(v)@[i].0@),
{
    v.sort_by(|a, b| a.0.cmp(&b.0));
}

// ---------------------------------------------------------------------------
// The compiled image of a dictionary
// ---------------------------------------------------------------------------

/// The blob bytes of one mora list: its morae joined by `,`, in UTF-8.
pub open spec fn morae_bytes(ms: Seq<Seq<char>>) -> Seq<u8> {
    encode_utf8(join_on(ms, ','))
}

/// The blob of the mora lists of `ws`, in this order.
pub open spec fn blob_of(m: DictMap, ws: Seq<Seq<char>>) -> Seq<u8>
    decreases ws.len(),
{
    if ws.len() == 0 {
        seq![]
    } else {
        blob_of(m, ws.drop_last()) + morae_bytes(m[ws.last()])
    }
}

/// The FST entries of `ws`: each word's UTF-8 bytes, with the range of its
/// mora list in `blob_of(m, ws)`.
pub open spec fn entries_of(m: DictMap, ws: Seq<Seq<char>>) -> Seq<(Seq<u8>, u64)> {
    Seq::new(
        ws.len(),
        |i: int|
            (
                encode_utf8(ws[i]),
                pack_value(blob_of(m, ws.take(i)).len() as u64, morae_bytes(m[ws[i]]).len() as u64),
            ),
    )
}

/// The words of a dictionary map in increasing order of their UTF-8 bytes.
pub open spec fn ordered_words(m: DictMap) -> Seq<Seq<char>> {
    choose|ws: Seq<Seq<char>>|
        ws.to_set() == m.dom() && byte_sorted(ws.map_values(|w: Seq<char>| encode_utf8(w)))
}

/// The bytes of a compiled dictionary: the length of the FST bytes in 8
/// little-endian bytes, the FST bytes, the blob.
pub open spec fn compiled_image(fst_bytes: Seq<u8>, blob: Seq<u8>) -> Seq<u8> {
    le_bytes(fst_bytes.len(), 8) + fst_bytes + blob
}

/// The FST bytes and the blob of compiled dictionary bytes, if the bytes hold
/// the 8-byte header and as many FST bytes as it declares (read as a `usize`).
pub open spec fn compiled_parts(bytes: Seq<u8>) -> Option<(Seq<u8>, Seq<u8>)> {
    if bytes.len() < 8 {
        None
    } else {
        let n = ((le_value(bytes.take(8)) as u64) as usize) as int;
        let rest = bytes.skip(8);
        if rest.len() < n {
            None
        } else {
            Some((rest.take(n), rest.skip(n)))
        }
    }
}

/// The mora list that a packed range value (if any) picks out of the blob: the
/// range, decoded as UTF-8 and split at `,`; none if the range lies outside
/// the blob or is not UTF-8.
pub open spec fn blob_lookup(value: Option<u64>, blob: Seq<u8>) -> Option<Seq<Seq<char>>> {
    match value {
        None => None,
        Some(v) => {
            let o = (v >> 32) as int;
            let l = (v & 0xFFFF_FFFF) as int;
            if o + l <= blob.len() && valid_utf8(blob.subrange(o, o + l)) {
                Some(split_on(decode_utf8(blob.subrange(o, o + l)), ','))
            } else {
                None
            }
        },
    }
}

/// Reading compiled bytes back from their image gives the FST bytes and blob back.
pub proof fn lemma_compiled_parts_image(f: Seq<u8>, b: Seq<u8>)
    requires
        f.len() <= usize::MAX,
    ensures
        compiled_parts(compiled_image(f, b)) == Some((f, b)),
{
    lemma_pow256_8();
    lemma_le_bytes_value(f.len(), 8);
    let img = compiled_image(f, b);
    assert(img.take(8) =~= le_bytes(f.len(), 8));
    assert(img.skip(8) =~= f + b);
    assert((f + b).take(f.len() as int) =~= f);
    assert((f + b).skip(f.len() as int) =~= b);
}

/// Compiled dictionary bytes whose header fits a `usize` are the image of
/// their own parts: compiling what was loaded from them gives them back.
pub proof fn lemma_compiled_bytes_recompile(bytes: Seq<u8>)
    requires
        compiled_parts(bytes) is Some,
        le_value(bytes.take(8)) <= usize::MAX,
    ensures
        compiled_parts(bytes) matches Some((f, b)) && compiled_image(f, b) == bytes,
{
    let h = le_value(bytes.take(8));
    lemma_le_value_bytes(bytes.take(8));
    lemma_pow256_8();
    let n = ((h as u64) as usize) as int;
    assert(n == h);
    let rest = bytes.skip(8);
    let f = rest.take(n);
    let b = rest.skip(n);
    assert(f.len() == h);
    assert(le_bytes(f.len(), 8) == bytes.take(8));
    assert(compiled_image(f, b) =~= bytes);
}

/// The words of a map, listed once each in increasing byte order, are its
/// ordered words.
pub proof fn lemma_ordered_words(m: DictMap, ws: Seq<Seq<char>>)
    requires
        ws.to_set() == m.dom(),
        byte_sorted(ws.map_values(|w: Seq<char>| encode_utf8(w))),
    ensures
        ordered_words(m) == ws,
{
    broadcast use vstd::utf8::encode_utf8_decode_utf8;

    let enc = |w: Seq<char>| encode_utf8(w);
    assert(ws.to_set() == m.dom() && byte_sorted(ws.map_values(enc)));
    let ow = ordered_words(m);
    assert(ow.to_set() == m.dom() && byte_sorted(ow.map_values(enc)));
    let a = ow.map_values(enc);
    let b = ws.map_values(enc);
    assert(a.to_set() =~= b.to_set()) by {
        assert forall|k: Seq<u8>| a.to_set().contains(k) implies b.to_set().contains(k) by {
            let i = choose|i: int| 0 <= i < a.len() && a[i] == k;
            assert(ow.to_set().contains(ow[i]));
            let j = choose|j: int| 0 <= j < ws.len() && ws[j] == ow[i];
            assert(b[j] == k);
        }
        assert forall|k: Seq<u8>| b.to_set().contains(k) implies a.to_set().contains(k) by {
            let j = choose|j: int| 0 <= j < b.len() && b[j] == k;
            assert(ws.to_set().contains(ws[j]));
            let i = choose|i: int| 0 <= i < ow.len() && ow[i] == ws[j];
            assert(a[i] == k);
        }
    }
    lemma_byte_sorted_unique(a, b);
    assert forall|i: int| 0 <= i < ow.len() implies ow[i] == ws[i] by {
        assert(a[i] == b[i]);
        assert(decode_utf8(encode_utf8(ow[i])) == ow[i]);
        assert(decode_utf8(encode_utf8(ws[i])) == ws[i]);
    }
    assert(ow =~= ws);
}

/// The blob of a prefix of the words is a prefix of the blob.
pub proof fn lemma_blob_prefix(m: DictMap, ws: Seq<Seq<char>>, k: int)
    requires
        0 <= k <= ws.len(),
    ensures
        blob_of(m, ws.take(k)).len() <= blob_of(m, ws).len(),
        blob_of(m, ws).take(blob_of(m, ws.take(k)).len() as int) == blob_of(m, ws.take(k)),
    decreases ws.len(),
{
    if k == ws.len() {
        assert(ws.take(k) =~= ws);
        assert(blob_of(m, ws).take(blob_of(m, ws).len() as int) =~= blob_of(m, ws));
    } else {
        let d = ws.drop_last();
        assert(ws.take(k) =~= d.take(k));
        lemma_blob_prefix(m, d, k);
        let p = blob_of(m, d.take(k));
        assert((blob_of(m, d) + morae_bytes(m[ws.last()])).take(p.len() as int) =~= blob_of(m, d).take(p.len() as int));
    }
}

/// The mora list of the `i`-th word lies in the blob at the range its entry
/// records.
pub proof fn lemma_blob_range(m: DictMap, ws: Seq<Seq<char>>, i: int)
    requires
        0 <= i < ws.len(),
    ensures
        blob_of(m, ws.take(i)).len() + morae_bytes(m[ws[i]]).len() <= blob_of(m, ws).len(),
        blob_of(m, ws).subrange(
            blob_of(m, ws.take(i)).len() as int,
            (blob_of(m, ws.take(i)).len() + morae_bytes(m[ws[i]]).len()) as int,
        ) == morae_bytes(m[ws[i]]),
{
    lemma_blob_prefix(m, ws, i + 1);
    let t = ws.take(i + 1);
    assert(t.drop_last() =~= ws.take(i));
    assert(t.last() == ws[i]);
    let p = blob_of(m, ws.take(i));
    let mb = morae_bytes(m[ws[i]]);
    assert(blob_of(m, t) == p + mb);
    let full = blob_of(m, ws);
    assert(full.subrange(p.len() as int, (p.len() + mb.len()) as int) =~= (p + mb).subrange(p.len() as int, (p.len() + mb.len()) as int));
    assert((p + mb).subrange(p.len() as int, (p.len() + mb.len()) as int) =~= mb);
}

/// The FST of a map's entries and the blob of its mora lists give every word
/// the mora list the map gives it, and hold as many keys as the map.
pub proof fn lemma_compiled_lookup(m: DictMap, ws: Seq<Seq<char>>, f: Seq<u8>)
    requires
        ws.to_set() == m.dom(),
        byte_sorted(ws.map_values(|w: Seq<char>| encode_utf8(w))),
        forall|w: Seq<char>| #[trigger] m.contains_key(w) ==> m[w].len() > 0 && sep_free(m[w], ','),
        blob_of(m, ws).len() < 0x1_0000_0000,
        forall|k: Seq<u8>| #[trigger] fst_get(f, k) == entries_lookup(entries_of(m, ws), k),
    ensures
        ws.len() == m.dom().len(),
        forall|w: Seq<char>|
            #[trigger] blob_lookup(fst_get(f, encode_utf8(w)), blob_of(m, ws)) == (if m.contains_key(w) {
                Some(m[w])
            } else {
                None
            }),
{
    broadcast use vstd::utf8::encode_utf8_decode_utf8, vstd::utf8::encode_utf8_valid_utf8;

    let enc = |w: Seq<char>| encode_utf8(w);
    let ks = ws.map_values(enc);
    let es = entries_of(m, ws);
    let blob = blob_of(m, ws);
    assert forall|x: int, y: int| 0 <= x < y < es.len() implies bytes_lt(#[trigger] es[x].0, #[trigger] es[y].0) by {
        assert(es[x].0 == ks[x] && es[y].0 == ks[y]);
    }
    assert(ws.no_duplicates()) by {
        assert forall|i: int, j: int| 0 <= i < ws.len() && 0 <= j < ws.len() && i != j implies ws[i] != ws[j] by {
            if ws[i] == ws[j] {
                lemma_bytes_lt_order(ks[i], ks[i], ks[i]);
                if i < j {
                    assert(bytes_lt(ks[i], ks[j]));
                } else {
                    assert(bytes_lt(ks[j], ks[i]));
                }
            }
        }
    }
    ws.unique_seq_to_set();
    assert forall|w: Seq<char>|
        #[trigger] blob_lookup(fst_get(f, encode_utf8(w)), blob) == (if m.contains_key(w) {
            Some(m[w])
        } else {
            None
        }) by {
        if m.contains_key(w) {
            assert(ws.to_set().contains(w));
            let i = choose|i: int| 0 <= i < ws.len() && ws[i] == w;
            lemma_entries_lookup_sorted(es, i);
            lemma_blob_range(m, ws, i);
            let o = blob_of(m, ws.take(i)).len();
            let l = morae_bytes(m[w]).len();
            lemma_pack_unpack(o as u64, l as u64);
            assert(es[i].1 == pack_value(o as u64, l as u64));
            assert(blob.subrange(o as int, (o + l) as int) == morae_bytes(m[w]));
            lemma_split_join(m[w], ',');
        } else {
            assert forall|x: int| 0 <= x < es.len() implies #[trigger] es[x].0 != encode_utf8(w) by {
                if es[x].0 == encode_utf8(w) {
                    assert(decode_utf8(encode_utf8(ws[x])) == ws[x]);
                    assert(ws.to_set().contains(ws[x]));
                }
            }
            lemma_entries_lookup_absent(es, encode_utf8(w));
        }
    }
}

} // verus!
