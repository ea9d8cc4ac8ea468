//! The byte-keyed trie that backs the index and the dictionaries.
//!
//! The trie comes from the `qp_trie` crate. Its contents are named by
//! `trie_map`; each wrapper below states what the call does to them.
use vstd::prelude::*;
use qp_trie::Trie;
use crate::keys::KeyStore;
use vstd::slice::slice_to_vec;

verus! {

#[verifier::external_type_specification]
#[verifier::external_body]
#[verifier::reject_recursive_types(K)]
#[verifier::reject_recursive_types(V)]
pub struct ExTrie<K, V>(Trie<K, V>);

/// The entries of a trie: each key's bytes, mapped to its value.
pub uninterp spec fn trie_map(t: Trie<Vec<u8>, usize>) -> Map<Seq<u8>, usize>;

/// Relies on `qp_trie::Trie::new`: a new trie holds no entry.
#[verifier::external_body]
pub(crate) fn trie_new() -> (r: Trie<Vec<u8>, usize>)
    ensures
        trie_map(r) =~= Map::empty(),
{
    Trie::new()
}

/// Relies on `qp_trie::Trie::get`: the value stored under `key`, if any.
#[verifier::external_body]
pub(crate) fn trie_get(t: &Trie<Vec<u8>, usize>, key: &[u8]) -> (r: Option<usize>)
    ensures
        r == (if trie_map(*t).contains_key(key@) {
            Some(trie_map(*t)[key@])
        } else {
            None::<usize>
        }),
{
    t.get(key).copied()
}

/// Relies on `qp_trie::Trie::insert`: stores `value` under `key`, replacing
/// and returning the value stored there before, if any.
#[verifier::external_body]
pub(crate) fn trie_insert(t: &mut Trie<Vec<u8>, usize>, key: Vec<u8>, value: usize) -> (r: Option<
    usize,
>)
    ensures
        trie_map(*final(t)) == trie_map(*old(t)).insert(key@, value),
        r == (if trie_map(*old(t)).contains_key(key@) {
            Some(trie_map(*old(t))[key@])
        } else {
            None::<usize>
        }),
{
    t.insert(key, value)
}

/// Relies on `qp_trie::Trie::iter_prefix`: visits all and only the entries
/// whose key begins with `prefix`, each once.
#[verifier::external_body]
fn trie_prefix_entries(t: &Trie<Vec<u8>, usize>, prefix: &[u8]) -> (r: Vec<
    (Vec<u8>, usize),
>)
    ensures
        forall|i: int|
            0 <= i < r@.len() ==> {
                &&& prefix@.is_prefix_of(#[trigger] r@[i].0@)
                &&& trie_map(*t).contains_key(r@[i].0@)
                &&& trie_map(*t)[r@[i].0@] == r@[i].1
            },
        forall|k: Seq<u8>|
            #[trigger] trie_map(*t).contains_key(k) && prefix@.is_prefix_of(k) ==> exists|i: int|
                0 <= i < r@.len() && r@[i].0@ == k,
        forall|i: int, j: int| 0 <= i < j < r@.len() ==> (#[trigger] r@[i]).0@ != (#[trigger] r@[j]).0@,
{
    t.iter_prefix(prefix).map(|(k, v)| (k.clone(), *v)).collect()
}

/// Keys held in a QP-trie, under their UTF-8 bytes.
pub struct QpTrieKeys {
    trie: Trie<Vec<u8>, usize>,
}

impl KeyStore for QpTrieKeys {
    closed spec fn key_map(&self) -> Map<Seq<u8>, usize> {
        trie_map(self.trie)
    }

    closed spec fn inv(&self) -> bool {
        true
    }

    fn empty() -> (r: Self) {
        QpTrieKeys { trie: trie_new() }
    }

    fn find(&self, key: &str) -> (r: Option<usize>) {
        trie_get(&self.trie, key.as_bytes())
    }

    fn add(&mut self, key: &str, value: usize) {
        trie_insert(&mut self.trie, slice_to_vec(key.as_bytes()), value);
    }

    fn with_prefix(&self, prefix: &str) -> (r: Vec<(Vec<u8>, usize)>) {
        trie_prefix_entries(&self.trie, prefix.as_bytes())
    }

    fn seal(&mut self) {
    }

}

} // verus!
