//! Hash tables of the tokenizer, kept in `ahash::AHashMap`.
use ahash::AHashMap;
use vstd::prelude::*;

verus! {

/// Ordered token pairs to the tokens that replace them.
pub type PairMap = Map<(u16, u16), u16>;

/// Vocabulary entry texts to their tokens.
pub type KeyMap = Map<Seq<char>, u16>;

#[verifier::external_type_specification]
#[verifier::external_body]
#[verifier::reject_recursive_types(K)]
#[verifier::reject_recursive_types(V)]
#[verifier::reject_recursive_types(S)]
pub struct ExAHashMap<K, V, S>(AHashMap<K, V, S>);

#[verifier::external_type_specification]
#[verifier::external_body]
pub struct ExRandomState(ahash::RandomState);

/// What a merge-rule table holds: an ordered pair of tokens to the token
/// that replaces it.
pub uninterp spec fn pair_entries(m: AHashMap<(u16, u16), u16>) -> Map<(u16, u16), u16>;

/// What a key table holds: the text of a vocabulary entry to its token.
pub uninterp spec fn key_entries(m: AHashMap<String, u16>) -> Map<Seq<char>, u16>;

/// Relies on ahash::AHashMap::new: a new map holds no entry.
#[verifier::external_body]
pub(crate) fn new_pair_table() -> (r: AHashMap<(u16, u16), u16>)
    ensures
        pair_entries(r) == PairMap::empty(),
{
    AHashMap::new()
}

/// Relies on ahash::AHashMap::insert: the key maps to the value afterwards,
/// and no other entry changes.
#[verifier::external_body]
pub(crate) fn insert_pair(m: &mut AHashMap<(u16, u16), u16>, k: (u16, u16), v: u16)
    ensures
        pair_entries(*final(m)) == pair_entries(*old(m)).insert(k, v),
{
    m.insert(k, v);
}

/// Relies on ahash::AHashMap::get: the value stored under the key, if any.
#[verifier::external_body]
pub(crate) fn get_pair(m: &AHashMap<(u16, u16), u16>, k: (u16, u16)) -> (r: Option<u16>)
    ensures
        pair_entries(*m).dom().contains(k) ==> r == Some(pair_entries(*m)[k]),
        !pair_entries(*m).dom().contains(k) ==> r is None,
{
    m.get(&k).copied()
}

/// Relies on ahash::AHashMap::new: a new map holds no entry.
#[verifier::external_body]
pub(crate) fn new_key_table() -> (r: AHashMap<String, u16>)
    ensures
        key_entries(r) == KeyMap::empty(),
{
    AHashMap::new()
}

/// Relies on ahash::AHashMap::insert: the key maps to the value afterwards,
/// and no other entry changes.
#[verifier::external_body]
pub(crate) fn insert_key(m: &mut AHashMap<String, u16>, k: String, v: u16)
    ensures
        key_entries(*final(m)) == key_entries(*old(m)).insert(k@, v),
{
    m.insert(k, v);
}

/// Relies on ahash::AHashMap::get: the value stored under the key, if any.
#[verifier::external_body]
pub(crate) fn get_key(m: &AHashMap<String, u16>, k: &str) -> (r: Option<u16>)
    ensures
        key_entries(*m).dom().contains(k@) ==> r == Some(key_entries(*m)[k@]),
        !key_entries(*m).dom().contains(k@) ==> r is None,
{
    m.get(k).copied()
}

} // verus!
