//! What the index needs of the ordered store that holds its keys.
use vstd::prelude::*;
use crate::dict::utf8;

verus! {

/// A map from the UTF-8 bytes of strings to entry positions, with lookup,
/// insertion of a new key, and enumeration of the keys that begin with a
/// given string.
pub trait KeyStore: Sized {
    /// The stored keys, each mapped to its value.
    spec fn key_map(&self) -> Map<Seq<u8>, usize>;

    /// The store's own invariant.
    spec fn inv(&self) -> bool;

    /// A store that holds no key.
    fn empty() -> (r: Self)
        ensures
            r.inv(),
            r.key_map() =~= Map::empty(),
    ;

    /// The value stored under the bytes of `key`, if any.
    fn find(&self, key: &str) -> (r: Option<usize>)
        requires
            self.inv(),
        ensures
            r == (if self.key_map().contains_key(utf8(key@)) {
                Some(self.key_map()[utf8(key@)])
            } else {
                None::<usize>
            }),
    ;

    /// Store `value` under the bytes of `key`, which is not present yet.
    fn add(&mut self, key: &str, value: usize)
        requires
            old(self).inv(),
            !old(self).key_map().contains_key(utf8(key@)),
        ensures
            final(self).inv(),
            final(self).key_map() == old(self).key_map().insert(utf8(key@), value),
    ;

    /// All and only the entries whose key begins with the bytes of `prefix`,
    /// each as its key and value.
    fn with_prefix(&self, prefix: &str) -> (r: Vec<(Vec<u8>, usize)>)
        requires
            self.inv(),
        ensures
            forall|i: int|
                0 <= i < r@.len() ==> {
                    &&& utf8(prefix@).is_prefix_of(#[trigger] r@[i].0@)
                    &&& self.key_map().contains_key(r@[i].0@)
                    &&& self.key_map()[r@[i].0@] == r@[i].1
                },
            forall|k: Seq<u8>|
                #[trigger] self.key_map().contains_key(k) && utf8(prefix@).is_prefix_of(k) ==> exists|
                    i: int,
                | 0 <= i < r@.len() && r@[i].0@ == k,
            forall|i: int, j: int| 0 <= i < j < r@.len() ==> (#[trigger] r@[i]).0@ != (#[trigger] r@[j]).0@,
    ;

    /// Settle the store after a batch of insertions; the keys stay as they
    /// are.
    fn seal(&mut self)
        requires
            old(self).inv(),
        ensures
            final(self).inv(),
            final(self).key_map() == old(self).key_map(),
    ;
}

} // verus!
