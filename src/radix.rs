//! The index over an adaptive radix tree of collapsed keys.
//!
//! The tree comes from the `blart` crate. It refuses a key that is a prefix
//! of another, so each key is stored as its UTF-8 bytes followed by `0xFF`, a
//! byte that UTF-8 never holds.
use vstd::prelude::*;
use vstd::slice::slice_to_vec;
use vstd::utf8::{encode_scalar, encode_utf8};
use blart::TreeMap;
use crate::dict::utf8;
use crate::index::AmpIndex;
use crate::keys::KeyStore;

verus! {

/// A `blart` tree from byte keys to values. Its allocator parameter names a
/// trait that the crate keeps private, so the tree is held here rather than
/// declared.
#[verifier::external_body]
pub struct RadixTree {
    tree: TreeMap<Vec<u8>, usize>,
}

/// The entries of a tree: each key's bytes, mapped to its value.
pub uninterp spec fn tree_map(t: RadixTree) -> Map<Seq<u8>, usize>;

/// Relies on `blart::TreeMap::new`: a new tree holds no entry.
#[verifier::external_body]
fn tree_new() -> (r: RadixTree)
    ensures
        tree_map(r) =~= Map::empty(),
{
    RadixTree { tree: TreeMap::new() }
}

/// Relies on `blart::TreeMap::get`: the value stored under `key`, if any.
#[verifier::external_body]
fn tree_get(t: &RadixTree, key: &[u8]) -> (r: Option<usize>)
    ensures
        r == (if tree_map(*t).contains_key(key@) {
            Some(tree_map(*t)[key@])
        } else {
            None::<usize>
        }),
{
    t.tree.get(key).copied()
}

/// Relies on `blart::TreeMap::try_insert`: stores `value` under `key` and
/// returns true, unless a stored key is a proper prefix of `key` or `key` of
/// a stored key; then it returns false and stores nothing.
#[verifier::external_body]
fn tree_try_insert(t: &mut RadixTree, key: Vec<u8>, value: usize) -> (r: bool)
    ensures
        r ==> tree_map(*final(t)) == tree_map(*old(t)).insert(key@, value),
        !r ==> tree_map(*final(t)) == tree_map(*old(t)),
        (forall|k: Seq<u8>|
            #[trigger] tree_map(*old(t)).contains_key(k) && k != key@ ==> !k.is_prefix_of(key@)
                && !key@.is_prefix_of(k)) ==> r,
{
    t.tree.try_insert(key, value).is_ok()
}

/// Relies on `blart::TreeMap::prefix`: visits all and only the entries whose
/// key begins with `prefix`, each once.
#[verifier::external_body]
fn tree_prefix_entries(t: &RadixTree, prefix: &[u8]) -> (r: Vec<(Vec<u8>, usize)>)
    ensures
        forall|i: int|
            0 <= i < r@.len() ==> {
                &&& prefix@.is_prefix_of(#[trigger] r@[i].0@)
                &&& tree_map(*t).contains_key(r@[i].0@)
                &&& tree_map(*t)[r@[i].0@] == r@[i].1
            },
        forall|k: Seq<u8>|
            #[trigger] tree_map(*t).contains_key(k) && prefix@.is_prefix_of(k) ==> exists|i: int|
                0 <= i < r@.len() && r@[i].0@ == k,
        forall|i: int, j: int| 0 <= i < j < r@.len() ==> (#[trigger] r@[i]).0@ != (#[trigger] r@[j]).0@,
{
    t.tree.prefix(prefix).map(|(k, v)| (k.clone(), *v)).collect()
}

/// The byte that ends every stored key.
pub const KEY_END: u8 = 0xFF;

/// How a key is stored in the tree.
pub open spec fn stored_key(k: Seq<u8>) -> Seq<u8> {
    k.push(KEY_END)
}

/// `k` holds no `KEY_END` byte.
pub open spec fn no_key_end(k: Seq<u8>) -> bool {
    forall|i: int| 0 <= i < k.len() ==> k[i] != KEY_END
}

/// No byte of a scalar's UTF-8 encoding is `0xFF`.
proof fn lemma_scalar_no_key_end(c: u32)
    ensures
        no_key_end(encode_scalar(c)),
{
    assert((c & 0x7F) as u8 != 0xFF) by (bit_vector);
    assert(0xC0u8 | ((c >> 6) & 0x1F) as u8 != 0xFF) by (bit_vector);
    assert(0xE0u8 | ((c >> 12) & 0x0F) as u8 != 0xFF) by (bit_vector);
    assert(0xF0u8 | ((c >> 18) & 0x7) as u8 != 0xFF) by (bit_vector);
    assert(0x80u8 | (c & 0x3F) as u8 != 0xFF) by (bit_vector);
    assert(0x80u8 | ((c >> 6) & 0x3F) as u8 != 0xFF) by (bit_vector);
    assert(0x80u8 | ((c >> 12) & 0x3F) as u8 != 0xFF) by (bit_vector);
}

/// UTF-8 never holds the byte `0xFF`.
pub proof fn lemma_utf8_no_key_end(s: Seq<char>)
    ensures
        no_key_end(utf8(s)),
    decreases s.len(),
{
    if s.len() > 0 {
        lemma_scalar_no_key_end(s[0] as u32);
        lemma_utf8_no_key_end(s.drop_first());
        let a = encode_scalar(s[0] as u32);
        let b = encode_utf8(s.drop_first());
        assert(utf8(s) == a + b);
        assert forall|i: int| 0 <= i < utf8(s).len() implies utf8(s)[i] != KEY_END by {
            if i >= a.len() {
                assert(utf8(s)[i] == b[i - a.len()]);
            }
        }
    }
}

/// Keys held in a `blart` tree, each stored as its UTF-8 bytes followed by
/// `KEY_END`.
pub struct BlartKeys {
    tree: RadixTree,
}

/// The stored bytes of `key`.
fn stored_bytes(key: &str) -> (r: Vec<u8>)
    ensures
        r@ == stored_key(utf8(key@)),
{
    let mut k = slice_to_vec(key.as_bytes());
    k.push(KEY_END);
    k
}

impl KeyStore for BlartKeys {
    closed spec fn key_map(&self) -> Map<Seq<u8>, usize> {
        Map::new(
            |k: Seq<u8>| tree_map(self.tree).contains_key(stored_key(k)),
            |k: Seq<u8>| tree_map(self.tree)[stored_key(k)],
        )
    }

    closed spec fn inv(&self) -> bool {
        forall|s: Seq<u8>| #[trigger]
            tree_map(self.tree).contains_key(s) ==> s.len() > 0 && s.last() == KEY_END && no_key_end(
                s.drop_last(),
            )
    }

    fn empty() -> (r: Self) {
        let r = BlartKeys { tree: tree_new() };
        assert(r.key_map() =~= Map::empty());
        r
    }

    fn find(&self, key: &str) -> (r: Option<usize>) {
        tree_get(&self.tree, stored_bytes(key).as_slice())
    }

    fn add(&mut self, key: &str, value: usize) {
        let k = stored_bytes(key);
        let ghost pre = tree_map(self.tree);
        let ghost kb = utf8(key@);
        proof {
            lemma_utf8_no_key_end(key@);
            assert forall|s: Seq<u8>| #[trigger] pre.contains_key(s) && s != k@ implies !s.is_prefix_of(
                k@,
            ) && !k@.is_prefix_of(s) by {
                let x = s.drop_last();
                if s.is_prefix_of(k@) {
                    if s.len() == k@.len() {
                        assert(s =~= k@);
                    } else {
                        assert(k@[s.len() - 1] == s[s.len() - 1]);
                        assert(kb[s.len() - 1] == KEY_END);
                    }
                }
                if k@.is_prefix_of(s) {
                    if s.len() == k@.len() {
                        assert(s =~= k@);
                    } else {
                        assert(s[k@.len() - 1] == k@[k@.len() - 1]);
                        assert(x[k@.len() - 1] == KEY_END);
                    }
                }
            }
        }
        let inserted = tree_try_insert(&mut self.tree, k, value);
        proof {
            assert(inserted);
            assert(self.key_map() =~= old(self).key_map().insert(kb, value)) by {
                assert forall|x: Seq<u8>| stored_key(x) == stored_key(kb) implies x == kb by {
                    assert(x =~= stored_key(x).drop_last());
                    assert(kb =~= stored_key(kb).drop_last());
                }
            }
            assert(stored_key(kb).drop_last() =~= kb);
        }
    }

    fn with_prefix(&self, prefix: &str) -> (r: Vec<(Vec<u8>, usize)>) {
        let ghost p = utf8(prefix@);
        let found = tree_prefix_entries(&self.tree, prefix.as_bytes());
        let mut out: Vec<(Vec<u8>, usize)> = Vec::new();
        for e in it: found
            invariant
                self.inv(),
                it.seq() == found@,
                out@.len() == it.index(),
                forall|i: int|
                    0 <= i < found@.len() ==> {
                        &&& p.is_prefix_of(#[trigger] found@[i].0@)
                        &&& tree_map(self.tree).contains_key(found@[i].0@)
                        &&& tree_map(self.tree)[found@[i].0@] == found@[i].1
                    },
                forall|i: int|
                    0 <= i < out@.len() ==> (#[trigger] out@[i]).0@ == found@[i].0@.drop_last()
                        && out@[i].1 == found@[i].1,
        {
            let (mut k, v) = e;
            assert(k@ == found@[it.index() as int].0@);
            k.pop();
            out.push((k, v));
        }
        proof {
            lemma_utf8_no_key_end(prefix@);
            assert forall|i: int| 0 <= i < out@.len() implies {
                &&& p.is_prefix_of(#[trigger] out@[i].0@)
                &&& self.key_map().contains_key(out@[i].0@)
                &&& self.key_map()[out@[i].0@] == out@[i].1
            } by {
                let s = found@[i].0@;
                assert(tree_map(self.tree).contains_key(s));
                assert(s =~= stored_key(s.drop_last()));
                if p.len() > s.len() - 1 {
                    assert(p[s.len() - 1] == s[s.len() - 1]);
                }
                assert(p =~= out@[i].0@.subrange(0, p.len() as int));
            }
            assert forall|i: int, j: int| 0 <= i < j < out@.len() implies (#[trigger] out@[i]).0@
                != (#[trigger] out@[j]).0@ by {
                let s = found@[i].0@;
                let t = found@[j].0@;
                assert(tree_map(self.tree).contains_key(s) && tree_map(self.tree).contains_key(t));
                assert(s =~= stored_key(s.drop_last()));
                assert(t =~= stored_key(t.drop_last()));
            }
            assert forall|k: Seq<u8>|
                #[trigger] self.key_map().contains_key(k) && p.is_prefix_of(k) implies exists|i: int|
                0 <= i < out@.len() && out@[i].0@ == k by {
                let s = stored_key(k);
                assert(p.is_prefix_of(s)) by {
                    assert(p =~= s.subrange(0, p.len() as int));
                }
                let i = choose|i: int| 0 <= i < found@.len() && found@[i].0@ == s;
                assert(out@[i].0@ =~= k);
            }
        }
        out
    }

    fn seal(&mut self) {
    }
}

/// A prefix suggestion index whose keys are held in an adaptive radix tree.
pub type BlartAmpIndex = AmpIndex<BlartKeys>;

} // verus!
