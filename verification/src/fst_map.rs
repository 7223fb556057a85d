//! The finite state transducer maps (crate `fst`) that hold a compiled
//! dictionary: the declared types, the names of what their methods return, and
//! the trusted wrappers the dictionary calls them through.
//!
//! An `fst::Map` is a lexicographically ordered map from byte strings to `u64`
//! values, serialized to bytes by an `fst::MapBuilder` and read back by
//! `fst::Map::new`. Every fact stated below about a lookup is stated over the
//! bytes the map reads.

use vstd::prelude::*;
use crate::compiled::le_value;

verus! {

#[verifier::external_type_specification]
#[verifier::external_body]
#[verifier::reject_recursive_types(D)]
pub struct ExFstMap<D>(fst::Map<D>);

#[verifier::external_type_specification]
#[verifier::external_body]
#[verifier::reject_recursive_types(W)]
pub struct ExFstMapBuilder<W>(fst::MapBuilder<W>);

#[verifier::external_type_specification]
#[verifier::external_body]
pub struct ExFstError(fst::Error);

/// Lexicographic order on byte strings, the order in which an FST takes its
/// keys (and the order of `Ord` on byte vectors): `a` comes strictly before `b`.
pub open spec fn bytes_lt(a: Seq<u8>, b: Seq<u8>) -> bool
    decreases a.len(),
{
    if a.len() == 0 {
        b.len() > 0
    } else if b.len() == 0 {
        false
    } else if a[0] != b[0] {
        a[0] < b[0]
    } else {
        bytes_lt(a.drop_first(), b.drop_first())
    }
}

/// The value that a list of (key, value) entries gives `key`: that of its first
/// entry with this key.
pub open spec fn entries_lookup(entries: Seq<(Seq<u8>, u64)>, key: Seq<u8>) -> Option<u64>
    decreases entries.len(),
{
    if entries.len() == 0 {
        None
    } else if entries[0].0 == key {
        Some(entries[0].1)
    } else {
        entries_lookup(entries.drop_first(), key)
    }
}

/// The bytes an `fst::Map` reads (`as_fst().as_bytes()`): the ones it was
/// created from.
pub uninterp spec fn fst_map_bytes(m: fst::Map<Vec<u8>>) -> Seq<u8>;

/// The (key, value) pairs inserted into an in-memory `fst::MapBuilder`, in order.
pub uninterp spec fn fst_builder_entries(b: fst::MapBuilder<Vec<u8>>) -> Seq<(Seq<u8>, u64)>;

/// Whether `fst::Map::new` accepts these bytes (it checks the length, the
/// format version and the position of the root node).
pub uninterp spec fn fst_new_accepts(bytes: Seq<u8>) -> bool;

/// Whether these bytes are an FST as an fst builder writes it (what
/// `MapBuilder::into_inner` hands back). fst reads such bytes without
/// panicking; bytes that merely pass `fst::Map::new`'s checks may make a read
/// index past their end.
pub uninterp spec fn fst_written(bytes: Seq<u8>) -> bool;

/// Whether the root address and key count in an FST's header fit a `usize`.
/// `fst::Map::new` reads both (for a version it knows, 1 to 3) as `u64` and
/// panics where one does not fit, which only a target with a `usize` narrower
/// than 64 bits can meet. The version is the first 8 bytes; from version 3 on,
/// the last 4 bytes are a checksum, and the two fields are the 16 bytes before
/// the end or the checksum.
pub open spec fn fst_header_fits(bytes: Seq<u8>) -> bool {
    let version = le_value(bytes.take(8));
    let end = if version <= 2 {
        bytes.len() as int
    } else {
        bytes.len() - 4
    };
    bytes.len() >= 36 && 1 <= version <= 3 ==> le_value(bytes.subrange(end - 16, end - 8)) <= usize::MAX
        && le_value(bytes.subrange(end - 8, end)) <= usize::MAX
}

/// What `fst::Map::get` answers for `key` on a map reading `bytes`.
pub uninterp spec fn fst_get(bytes: Seq<u8>, key: Seq<u8>) -> Option<u64>;

/// What `fst::Map::len` answers on a map reading `bytes`: the number of keys
/// recorded in them.
pub uninterp spec fn fst_len(bytes: Seq<u8>) -> usize;

/// The bytes that an in-memory `fst::MapBuilder` hands back from `into_inner`
/// after the given entries were inserted.
pub uninterp spec fn fst_build(entries: Seq<(Seq<u8>, u64)>) -> Seq<u8>;

/// `fst::Map::new` on `bytes` whose header fields fit a `usize`: succeeds
/// exactly when the bytes pass its checks, and the map then reads these very
/// bytes.
#[verifier::external_body]
pub(crate) fn fst_map_from_bytes(bytes: Vec<u8>) -> (r: Result<fst::Map<Vec<u8>>, fst::Error>)
    requires
        fst_header_fits(bytes@),
    ensures
        r is Ok <==> fst_new_accepts(bytes@),
        r matches Ok(m) ==> fst_map_bytes(m) == bytes@,
{
    fst::Map::new(bytes)
}

/// `fst::Map::get` on a map reading builder-written bytes: the value the
/// map's bytes give `key`.
#[verifier::external_body]
pub(crate) fn fst_map_get(m: &fst::Map<Vec<u8>>, key: &[u8]) -> (r: Option<u64>)
    requires
        fst_written(fst_map_bytes(*m)),
    ensures
        r == fst_get(fst_map_bytes(*m), key@),
{
    m.get(key)
}

/// `fst::Map::len`: the number of keys the map's bytes record.
#[verifier::external_body]
pub(crate) fn fst_map_len(m: &fst::Map<Vec<u8>>) -> (r: usize)
    ensures
        r == fst_len(fst_map_bytes(*m)),
{
    m.len()
}

/// `fst::Map::as_fst().as_bytes()`, copied: the bytes the map reads.
#[verifier::external_body]
pub(crate) fn fst_map_to_bytes(m: &fst::Map<Vec<u8>>) -> (r: Vec<u8>)
    ensures
        r@ == fst_map_bytes(*m),
{
    m.as_fst().as_bytes().to_vec()
}

/// `fst::MapBuilder::memory`: a builder writing to memory, with nothing inserted.
#[verifier::external_body]
pub(crate) fn fst_builder_memory() -> (r: fst::MapBuilder<Vec<u8>>)
    ensures
        fst_builder_entries(r) == Seq::<(Seq<u8>, u64)>::empty(),
{
    fst::MapBuilder::memory()
}

/// `fst::MapBuilder::insert`. The builder refuses a key that is not strictly
/// greater than every key inserted before, and writing to memory cannot fail,
/// so on such keys the insertion succeeds.
#[verifier::external_body]
pub(crate) fn fst_builder_insert(b: &mut fst::MapBuilder<Vec<u8>>, key: &[u8], value: u64) -> (r: Result<(), fst::Error>)
    requires
        forall|i: int|
            0 <= i < fst_builder_entries(*old(b)).len() ==> bytes_lt(
                #[trigger] fst_builder_entries(*old(b))[i].0,
                key@,
            ),
    ensures
        r is Ok,
        fst_builder_entries(*final(b)) == fst_builder_entries(*old(b)).push((key@, value)),
{
    b.insert(key, value)
}

/// `fst::MapBuilder::into_inner` on an in-memory builder: it cannot fail, and
/// the bytes it hands back are a builder-written FST that `fst::Map::new` accepts, that holds
/// exactly the inserted entries and records their number.
#[verifier::external_body]
pub(crate) fn fst_builder_into_bytes(b: fst::MapBuilder<Vec<u8>>) -> (r: Result<Vec<u8>, fst::Error>)
    ensures
        match r {
            Ok(v) => {
                &&& v@ == fst_build(fst_builder_entries(b))
                &&& fst_written(v@)
                &&& fst_new_accepts(v@)
                &&& fst_len(v@) == fst_builder_entries(b).len()
                &&& forall|k: Seq<u8>| #[trigger] fst_get(v@, k) == entries_lookup(fst_builder_entries(b), k)
            },
            Err(_) => false,
        },
{
    b.into_inner()
}

/// Formats an `fst::Error` with its `Display` impl; nothing is stated of the text.
#[verifier::external_body]
pub(crate) fn fst_error_text(e: &fst::Error) -> (r: String) {
    format!("{e}")
}

/// `bytes_lt` is a strict total order.
pub proof fn lemma_bytes_lt_order(a: Seq<u8>, b: Seq<u8>, c: Seq<u8>)
    ensures
        !bytes_lt(a, a),
        bytes_lt(a, b) ==> !bytes_lt(b, a),
        a != b ==> bytes_lt(a, b) || bytes_lt(b, a),
        bytes_lt(a, b) && bytes_lt(b, c) ==> bytes_lt(a, c),
    decreases a.len(),
{
    if a.len() > 0 && b.len() > 0 && c.len() > 0 {
        lemma_bytes_lt_order(a.drop_first(), b.drop_first(), c.drop_first());
    } else if a.len() > 0 && b.len() > 0 {
        lemma_bytes_lt_order(a.drop_first(), b.drop_first(), b.drop_first());
    } else if a.len() > 0 {
        lemma_bytes_lt_order(a.drop_first(), a.drop_first(), a.drop_first());
    }
    if a.len() == 0 && b.len() == 0 {
        assert(a =~= b);
    }
    if a.len() > 0 && b.len() > 0 && a[0] == b[0] && a != b {
        assert(a.drop_first() != b.drop_first()) by {
            if a.drop_first() == b.drop_first() {
                assert(a =~= seq![a[0]] + a.drop_first());
                assert(b =~= seq![b[0]] + b.drop_first());
            }
        }
    }
}

} // verus!
