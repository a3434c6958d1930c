use vstd::prelude::*;

use indexmap::IndexMap;
use std::collections::hash_map::RandomState;

verus! {

#[verifier::external_type_specification]
#[verifier::external_body]
#[verifier::reject_recursive_types(K)]
#[verifier::reject_recursive_types(V)]
#[verifier::reject_recursive_types(S)]
pub struct ExIndexMap<K, V, S>(IndexMap<K, V, S>);

/// The index of the store: an insertion-ordered mapping from key bytes to the
/// value's location in the data region, held as `(offset, length)`.
pub type Index = IndexMap<Vec<u8>, (u64, u64), RandomState>;

/// What an index holds: its entries as `(key, offset, length)` triples, in
/// insertion order.
pub uninterp spec fn index_entries(m: Index) -> Seq<(Seq<u8>, u64, u64)>;

/// The bytes that `postcard::to_allocvec` produces for an index holding the
/// given entries.
pub uninterp spec fn index_enc(es: Seq<(Seq<u8>, u64, u64)>) -> Seq<u8>;

/// The entries of the index that `postcard::from_bytes` reads back from the
/// given bytes, or nothing where the bytes do not decode.
pub uninterp spec fn index_dec(b: Seq<u8>) -> Option<Seq<(Seq<u8>, u64, u64)>>;

/// The bytes that `postcard::to_allocvec` produces for a vacant-block list
/// given as `(offset, size)` pairs.
pub uninterp spec fn vacant_enc(ps: Seq<(u64, u64)>) -> Seq<u8>;

/// The vacant-block list that `postcard::from_bytes` reads back from the
/// given bytes, or nothing where the bytes do not decode.
pub uninterp spec fn vacant_dec(b: Seq<u8>) -> Option<Seq<(u64, u64)>>;

/// Whether some entry of `es` has key `k`.
pub open spec fn has_key(es: Seq<(Seq<u8>, u64, u64)>, k: Seq<u8>) -> bool {
    exists|i: int| 0 <= i < es.len() && es[i].0 == k
}

/// An index holding an entry with key `k`; with unique keys, the index.
pub open spec fn key_at(es: Seq<(Seq<u8>, u64, u64)>, k: Seq<u8>) -> int {
    choose|i: int| 0 <= i < es.len() && es[i].0 == k
}

/// Relies on `IndexMap::new`: a freshly created map is empty.
#[verifier::external_body]
pub(crate) fn idx_new() -> (r: Index)
    ensures
        index_entries(r) == Seq::<(Seq<u8>, u64, u64)>::empty(),
{
    IndexMap::new()
}

/// Relies on `IndexMap::clone`: the clone holds the same entries in the same
/// order.
#[verifier::external_body]
pub(crate) fn idx_clone(m: &Index) -> (r: Index)
    ensures
        index_entries(r) == index_entries(*m),
{
    m.clone()
}

/// Relies on `IndexMap::get`: returns the value stored for an equivalent key,
/// and `None` where no entry has the key.
#[verifier::external_body]
pub(crate) fn idx_get(m: &Index, key: &Vec<u8>) -> (r: Option<(u64, u64)>)
    ensures
        ({
            let es = index_entries(*m);
            match r {
                Some(v) => exists|i: int| 0 <= i < es.len() && es[i] == (key@, v.0, v.1),
                None => !has_key(es, key@),
            }
        }),
{
    m.get(key).copied()
}

/// Relies on `IndexMap::insert`: an existing key keeps its place in the order
/// and has its value replaced, with the old value returned; a new key is
/// appended last and `None` is returned.
#[verifier::external_body]
pub(crate) fn idx_insert(m: &mut Index, key: Vec<u8>, loc: (u64, u64)) -> (r: Option<(u64, u64)>)
    ensures
        ({
            let es = index_entries(*old(m));
            if has_key(es, key@) {
                exists|i: int|
                    0 <= i < es.len() && es[i].0 == key@ && r == Some((es[i].1, es[i].2))
                        && index_entries(*final(m)) == es.update(i, (key@, loc.0, loc.1))
            } else {
                r == None::<(u64, u64)> && index_entries(*final(m)) == es.push(
                    (key@, loc.0, loc.1),
                )
            }
        }),
{
    m.insert(key, loc)
}

/// Relies on `IndexMap::shift_remove`: the entry with an equivalent key is
/// removed and its value returned, the order of the remaining entries kept;
/// `None` and no change where no entry has the key.
#[verifier::external_body]
pub(crate) fn idx_shift_remove(m: &mut Index, key: &Vec<u8>) -> (r: Option<(u64, u64)>)
    ensures
        ({
            let es = index_entries(*old(m));
            if has_key(es, key@) {
                exists|i: int|
                    0 <= i < es.len() && es[i].0 == key@ && r == Some((es[i].1, es[i].2))
                        && index_entries(*final(m)) == es.remove(i)
            } else {
                r == None::<(u64, u64)> && index_entries(*final(m)) == es
            }
        }),
{
    m.shift_remove(key)
}

/// Relies on `IndexMap::iter`: yields the entries in order.
#[verifier::external_body]
pub(crate) fn idx_entries_vec(m: &Index) -> (r: Vec<(Vec<u8>, u64, u64)>)
    ensures
        r.deep_view() == index_entries(*m),
{
    m.iter().map(|(k, v)| (k.clone(), v.0, v.1)).collect()
}

/// Relies on `postcard::to_allocvec`: the encoding is a function of the
/// entries alone, and `postcard::from_bytes` reads the same value back.  The
/// allocating serializer cannot fail for this type: its flavor never
/// errors, and the map serializes with a known length.
#[verifier::external_body]
pub(crate) fn idx_ser(m: &Index) -> (r: Option<Vec<u8>>)
    ensures
        r is Some,
        r matches Some(b) ==> b@ == index_enc(index_entries(*m)) && index_dec(b@) == Some(
            index_entries(*m),
        ),
{
    postcard::to_allocvec(m).ok()
}

/// Relies on `postcard::from_bytes`: what it returns is a function of the
/// bytes alone, and it fails exactly where the bytes do not decode.
#[verifier::external_body]
pub(crate) fn idx_deser(b: &[u8]) -> (r: Option<Index>)
    ensures
        match r {
            Some(m) => index_dec(b@) == Some(index_entries(m)),
            None => index_dec(b@) == None::<Seq<(Seq<u8>, u64, u64)>>,
        },
{
    postcard::from_bytes::<Index>(b).ok()
}

/// Relies on `postcard::to_allocvec`: the encoding is a function of the pairs
/// alone, and `postcard::from_bytes` reads the same value back.  The
/// allocating serializer cannot fail for this type: its flavor never errors,
/// and the list serializes with a known length.
#[verifier::external_body]
pub(crate) fn vacant_ser(v: &Vec<(u64, u64)>) -> (r: Option<Vec<u8>>)
    ensures
        r is Some,
        r matches Some(b) ==> b@ == vacant_enc(v@) && vacant_dec(b@) == Some(v@),
{
    postcard::to_allocvec(v).ok()
}

/// Relies on `postcard::from_bytes`: what it returns is a function of the
/// bytes alone, and it fails exactly where the bytes do not decode.
#[verifier::external_body]
pub(crate) fn vacant_deser(b: &[u8]) -> (r: Option<Vec<(u64, u64)>>)
    ensures
        match r {
            Some(v) => vacant_dec(b@) == Some(v@),
            None => vacant_dec(b@) == None::<Seq<(u64, u64)>>,
        },
{
    postcard::from_bytes::<Vec<(u64, u64)>>(b).ok()
}

} // verus!
