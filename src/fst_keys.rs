//! The index over a finite-state transducer of collapsed keys.
//!
//! An FST map from the `fst` crate is built once, from keys in increasing
//! order, and never changes. The store therefore keeps the keys added since
//! the last build in a QP-trie, and folds them into a new FST when sealed.
use vstd::prelude::*;
use fst::{Automaton, IntoStreamer};
use crate::dict::utf8;
use crate::index::AmpIndex;
use crate::keys::KeyStore;
use crate::lex::{lex_le, lex_lt};
use crate::trie::QpTrieKeys;

verus! {

#[verifier::external_type_specification]
#[verifier::external_body]
#[verifier::reject_recursive_types(D)]
pub struct ExFstMap<D>(fst::Map<D>);

#[verifier::external_type_specification]
#[verifier::external_body]
pub struct ExFstError(fst::Error);

/// The entries of an FST map: each key's bytes, mapped to its value.
pub uninterp spec fn fst_map(m: fst::Map<Vec<u8>>) -> Map<Seq<u8>, u64>;

/// The plain view of a list of entries.
pub open spec fn plain_entries(es: Seq<(Vec<u8>, u64)>) -> Seq<(Seq<u8>, u64)> {
    es.map_values(|e: (Vec<u8>, u64)| (e.0@, e.1))
}

/// The map that a list of entries with distinct keys describes.
pub open spec fn entries_map(es: Seq<(Seq<u8>, u64)>) -> Map<Seq<u8>, u64> {
    Map::new(
        |k: Seq<u8>| exists|i: int| 0 <= i < es.len() && es[i].0 == k,
        |k: Seq<u8>| es[choose|i: int| 0 <= i < es.len() && es[i].0 == k].1,
    )
}

/// Relies on `fst::Map::default`: the map holds no entry.
#[verifier::external_body]
fn fst_empty() -> (r: fst::Map<Vec<u8>>)
    ensures
        fst_map(r) =~= Map::empty(),
{
    fst::Map::default()
}

/// Relies on `fst::Map::get`: the value stored under `key`, if any.
#[verifier::external_body]
fn fst_get(m: &fst::Map<Vec<u8>>, key: &[u8]) -> (r: Option<u64>)
    ensures
        r == (if fst_map(*m).contains_key(key@) {
            Some(fst_map(*m)[key@])
        } else {
            None::<u64>
        }),
{
    m.get(key)
}

/// Relies on `fst::Map::search` with `fst::automaton::Str::starts_with`:
/// streams all and only the entries whose key begins with the bytes of
/// `prefix`, each once.
#[verifier::external_body]
fn fst_prefix_entries(m: &fst::Map<Vec<u8>>, prefix: &str) -> (r: Vec<(Vec<u8>, u64)>)
    ensures
        forall|i: int|
            0 <= i < r@.len() ==> {
                &&& utf8(prefix@).is_prefix_of(#[trigger] r@[i].0@)
                &&& fst_map(*m).contains_key(r@[i].0@)
                &&& fst_map(*m)[r@[i].0@] == r@[i].1
            },
        forall|k: Seq<u8>|
            #[trigger] fst_map(*m).contains_key(k) && utf8(prefix@).is_prefix_of(k) ==> exists|i: int|
                0 <= i < r@.len() && r@[i].0@ == k,
        forall|i: int, j: int| 0 <= i < j < r@.len() ==> (#[trigger] r@[i]).0@ != (#[trigger] r@[j]).0@,
{
    m.search(fst::automaton::Str::new(prefix).starts_with()).into_stream().into_byte_vec()
}

/// Relies on `fst::Map::from_iter`: builds the map of `entries`, which fails
/// only when their keys do not come in strictly increasing lexicographic
/// order.
#[verifier::external_body]
fn fst_from_sorted(entries: Vec<(Vec<u8>, u64)>) -> (r: Result<fst::Map<Vec<u8>>, fst::Error>)
    ensures
        (forall|i: int, j: int|
            0 <= i < j < entries@.len() ==> lex_lt(
                (#[trigger] entries@[i]).0@,
                (#[trigger] entries@[j]).0@,
            )) ==> r is Ok,
        r matches Ok(m) ==> fst_map(m) == entries_map(plain_entries(entries@)),
{
    fst::Map::from_iter(entries)
}

/// Relies on `slice::sort_unstable`: reorders the entries into ascending
/// order, which for these pairs compares the keys lexicographically first.
#[verifier::external_body]
fn sort_entries(v: &mut Vec<(Vec<u8>, u64)>)
    ensures
        plain_entries(final(v)@).to_multiset() == plain_entries(old(v)@).to_multiset(),
        forall|i: int, j: int|
            0 <= i < j < final(v)@.len() ==> lex_le(
                (#[trigger] final(v)@[i]).0@,
                (#[trigger] final(v)@[j]).0@,
            ),
{
    v.sort_unstable()
}

/// Keys held in an FST map, plus those added since it was built, held in a
/// QP-trie until the store is sealed.
pub struct FstKeys {
    sealed: fst::Map<Vec<u8>>,
    pending: QpTrieKeys,
}

/// A sequence that holds `x` at two positions counts it at least twice.
proof fn lemma_count_two<A>(s: Seq<A>, i: int, j: int)
    requires
        0 <= i < j < s.len(),
        s[i] == s[j],
    ensures
        s.to_multiset().count(s[i]) >= 2,
{
    broadcast use vstd::multiset::group_multiset_axioms;

    let r = s.remove(i);
    s.to_multiset_ensures();
    r.to_multiset_ensures();
    assert(r =~= s.subrange(0, i) + s.subrange(i + 1, s.len() as int));
    assert(r[j - 1] == s[j]);
    assert(r.contains(s[i]));
    assert(r.to_multiset() =~= s.to_multiset().remove(s[i]));
    assert(r.to_multiset().count(s[i]) > 0);
    assert(s.to_multiset().count(s[i]) > 0);
    assert(s.to_multiset().remove(s[i]).count(s[i]) == s.to_multiset().count(s[i]) - 1);
}

/// Entries with distinct keys, reordered, keep distinct keys and describe
/// the same map.
proof fn lemma_reordered_entries(a: Seq<(Seq<u8>, u64)>, b: Seq<(Seq<u8>, u64)>)
    requires
        a.to_multiset() == b.to_multiset(),
        forall|i: int, j: int| 0 <= i < j < a.len() ==> (#[trigger] a[i]).0 != (#[trigger] a[j]).0,
    ensures
        forall|i: int, j: int| 0 <= i < j < b.len() ==> (#[trigger] b[i]).0 != (#[trigger] b[j]).0,
        entries_map(a) == entries_map(b),
{
    a.to_multiset_ensures();
    b.to_multiset_ensures();
    assert forall|x: (Seq<u8>, u64)| a.contains(x) <==> b.contains(x) by {
        assert(a.to_multiset().count(x) == b.to_multiset().count(x));
        assert(a.contains(x) <==> a.to_multiset().count(x) > 0);
        assert(b.contains(x) <==> b.to_multiset().count(x) > 0);
    }
    assert forall|i: int, j: int| 0 <= i < j < b.len() implies (#[trigger] b[i]).0 != (
    #[trigger] b[j]).0 by {
        if b[i].0 == b[j].0 {
            assert(b.contains(b[i]) && b.contains(b[j]));
            let u = choose|u: int| 0 <= u < a.len() && a[u] == b[i];
            let w = choose|w: int| 0 <= w < a.len() && a[w] == b[j];
            if u == w {
                lemma_count_two(b, i, j);
                assert(a.no_duplicates()) by {
                    assert forall|p: int, q: int| 0 <= p < a.len() && 0 <= q < a.len() && p != q implies a[p]
                        != a[q] by {
                        if p < q {
                            assert(a[p].0 != a[q].0);
                        } else {
                            assert(a[q].0 != a[p].0);
                        }
                    }
                }
                a.lemma_multiset_has_no_duplicates();
                assert(a.to_multiset().contains(b[i]));
            } else if u < w {
                assert(a[u].0 != a[w].0);
            } else {
                assert(a[w].0 != a[u].0);
            }
        }
    }
    assert forall|k: Seq<u8>| #[trigger] entries_map(a).contains_key(k) <==> entries_map(b).contains_key(k) by {
        if exists|i: int| 0 <= i < a.len() && a[i].0 == k {
            let i = choose|i: int| 0 <= i < a.len() && a[i].0 == k;
            assert(a.contains(a[i]));
            let j = choose|j: int| 0 <= j < b.len() && b[j] == a[i];
        }
        if exists|i: int| 0 <= i < b.len() && b[i].0 == k {
            let i = choose|i: int| 0 <= i < b.len() && b[i].0 == k;
            assert(b.contains(b[i]));
            let j = choose|j: int| 0 <= j < a.len() && a[j] == b[i];
        }
    }
    assert forall|k: Seq<u8>| #[trigger] entries_map(a).contains_key(k) implies entries_map(a)[k]
        == entries_map(b)[k] by {
        let i = choose|i: int| 0 <= i < a.len() && a[i].0 == k;
        let j = choose|j: int| 0 <= j < b.len() && b[j].0 == k;
        assert(a.contains(a[i]));
        let u = choose|u: int| 0 <= u < b.len() && b[u] == a[i];
        if u != j {
            if u < j {
                assert(b[u].0 != b[j].0);
            } else {
                assert(b[j].0 != b[u].0);
            }
        }
    }
    assert(entries_map(a) =~= entries_map(b));
}

impl KeyStore for FstKeys {
    closed spec fn key_map(&self) -> Map<Seq<u8>, usize> {
        Map::new(
            |k: Seq<u8>| fst_map(self.sealed).contains_key(k) || self.pending.key_map().contains_key(k),
            |k: Seq<u8>|
                if fst_map(self.sealed).contains_key(k) {
                    fst_map(self.sealed)[k] as usize
                } else {
                    self.pending.key_map()[k]
                },
        )
    }

    closed spec fn inv(&self) -> bool {
        &&& self.pending.inv()
        &&& forall|k: Seq<u8>| #[trigger]
            fst_map(self.sealed).contains_key(k) ==> !self.pending.key_map().contains_key(k)
                && fst_map(self.sealed)[k] <= usize::MAX
    }

    fn empty() -> (r: Self) {
        let r = FstKeys { sealed: fst_empty(), pending: QpTrieKeys::empty() };
        assert(r.key_map() =~= Map::empty());
        r
    }

    fn find(&self, key: &str) -> (r: Option<usize>) {
        match fst_get(&self.sealed, key.as_bytes()) {
            Some(v) => Some(v as usize),
            None => self.pending.find(key),
        }
    }

    fn add(&mut self, key: &str, value: usize) {
        self.pending.add(key, value);
        assert(self.key_map() =~= old(self).key_map().insert(utf8(key@), value));
    }

    fn with_prefix(&self, prefix: &str) -> (r: Vec<(Vec<u8>, usize)>) {
        let ghost p = utf8(prefix@);
        let ghost m = self.key_map();
        let found = fst_prefix_entries(&self.sealed, prefix);
        let mut out: Vec<(Vec<u8>, usize)> = Vec::new();
        for e in it: found
            invariant
                self.inv(),
                m == self.key_map(),
                it.seq() == found@,
                out@.len() == it.index(),
                forall|i: int|
                    0 <= i < found@.len() ==> {
                        &&& p.is_prefix_of(#[trigger] found@[i].0@)
                        &&& fst_map(self.sealed).contains_key(found@[i].0@)
                        &&& fst_map(self.sealed)[found@[i].0@] == found@[i].1
                    },
                forall|i: int|
                    0 <= i < out@.len() ==> (#[trigger] out@[i]).0@ == found@[i].0@ && out@[i].1
                        == found@[i].1 as usize,
        {
            let (k, v) = e;
            out.push((k, v as usize));
        }
        let fresh = self.pending.with_prefix(prefix);
        let ghost n = out@.len();
        for e in it: fresh
            invariant
                self.inv(),
                it.seq() == fresh@,
                out@.len() == n + it.index(),
                n == found@.len(),
                forall|i: int|
                    0 <= i < n ==> (#[trigger] out@[i]).0@ == found@[i].0@ && out@[i].1
                        == found@[i].1 as usize,
                forall|i: int| 0 <= i < it.index() ==> #[trigger] out@[n + i] == fresh@[i],
        {
            out.push(e);
        }
        proof {
            assert forall|i: int| 0 <= i < out@.len() implies {
                &&& p.is_prefix_of(#[trigger] out@[i].0@)
                &&& m.contains_key(out@[i].0@)
                &&& m[out@[i].0@] == out@[i].1
            } by {
                if i >= n {
                    assert(out@[n + (i - n)] == fresh@[i - n]);
                    assert(!fst_map(self.sealed).contains_key(fresh@[i - n].0@));
                }
            }
            assert forall|k: Seq<u8>| #[trigger] m.contains_key(k) && p.is_prefix_of(k) implies exists|
                i: int,
            | 0 <= i < out@.len() && out@[i].0@ == k by {
                if fst_map(self.sealed).contains_key(k) {
                    let i = choose|i: int| 0 <= i < found@.len() && found@[i].0@ == k;
                    assert(out@[i].0@ == k);
                } else {
                    assert(self.pending.key_map().contains_key(k));
                    let i = choose|i: int| 0 <= i < fresh@.len() && fresh@[i].0@ == k;
                    assert(out@[n + i] == fresh@[i]);
                }
            }
            assert forall|i: int, j: int| 0 <= i < j < out@.len() implies (#[trigger] out@[i]).0@
                != (#[trigger] out@[j]).0@ by {
                if j < n {
                } else if i < n {
                    assert(out@[n + (j - n)] == fresh@[j - n]);
                    assert(!self.pending.key_map().contains_key(found@[i].0@));
                } else {
                    assert(out@[n + (i - n)] == fresh@[i - n]);
                    assert(out@[n + (j - n)] == fresh@[j - n]);
                }
            }
        }
        out
    }

    fn seal(&mut self) {
        let ghost m = self.key_map();
        let everything = String::new();
        let all = self.with_prefix(everything.as_str());
        let mut entries: Vec<(Vec<u8>, u64)> = Vec::new();
        for e in it: all
            invariant
                it.seq() == all@,
                entries@.len() == it.index(),
                forall|i: int|
                    0 <= i < it.index() ==> (#[trigger] entries@[i]).0@ == all@[i].0@
                        && entries@[i].1 == all@[i].1 as u64,
        {
            let (k, v) = e;
            entries.push((k, v as u64));
        }
        let ghost unsorted = plain_entries(entries@);
        sort_entries(&mut entries);
        proof {
            assert forall|i: int, j: int| 0 <= i < j < unsorted.len() implies (#[trigger] unsorted[i]).0
                != (#[trigger] unsorted[j]).0 by {
                assert(unsorted[i].0 == all@[i].0@);
                assert(unsorted[j].0 == all@[j].0@);
            }
            lemma_reordered_entries(unsorted, plain_entries(entries@));
            assert forall|i: int, j: int| 0 <= i < j < entries@.len() implies lex_lt(
                (#[trigger] entries@[i]).0@,
                (#[trigger] entries@[j]).0@,
            ) by {
                assert(plain_entries(entries@)[i].0 == entries@[i].0@);
                assert(plain_entries(entries@)[j].0 == entries@[j].0@);
            }
        }
        let ghost sorted = plain_entries(entries@);
        match fst_from_sorted(entries) {
            Ok(map) => {
                self.sealed = map;
                self.pending = QpTrieKeys::empty();
                proof {
                    assert(utf8(everything@) =~= Seq::<u8>::empty());
                    assert forall|k: Seq<u8>| #[trigger] m.contains_key(k) <==> entries_map(unsorted).contains_key(k) by {
                        if m.contains_key(k) {
                            assert(utf8(everything@).is_prefix_of(k));
                            let i = choose|i: int| 0 <= i < all@.len() && all@[i].0@ == k;
                            assert(unsorted[i].0 == k);
                        }
                        if entries_map(unsorted).contains_key(k) {
                            let i = choose|i: int| 0 <= i < unsorted.len() && unsorted[i].0 == k;
                            assert(all@[i].0@ == k);
                        }
                    }
                    assert forall|k: Seq<u8>| #[trigger] m.contains_key(k) implies entries_map(unsorted)[k]
                        == m[k] as u64 && m[k] <= usize::MAX by {
                        let i = choose|i: int| 0 <= i < unsorted.len() && unsorted[i].0 == k;
                        assert(all@[i].0@ == k);
                    }
                    assert(self.key_map() =~= m);
                }
            },
            Err(_) => {},
        }
    }
}

/// A prefix suggestion index whose keys are held in an FST map.
pub type FstAmpIndex = AmpIndex<FstKeys>;

} // verus!
