//! String interning with dense ids, and the URL template split.
use vstd::prelude::*;
use vstd::slice::slice_to_vec;
use vstd::string::StrSliceExecFns;
use vstd::utf8::{encode_utf8, encode_utf8_decode_utf8};
use qp_trie::Trie;
use crate::common::chars_of;
use crate::trie::{trie_get, trie_insert, trie_map, trie_new};

verus! {

/// Number of distinct ids that a dictionary can hand out (the `u32` range).
pub const ID_LIMIT: u64 = 4294967296;

/// The UTF-8 bytes of a character sequence.
pub open spec fn utf8(s: Seq<char>) -> Seq<u8> {
    encode_utf8(s)
}

/// Two character sequences with the same UTF-8 bytes are equal.
pub proof fn lemma_utf8_injective(a: Seq<char>, b: Seq<char>)
    requires
        utf8(a) == utf8(b),
    ensures
        a == b,
{
    encode_utf8_decode_utf8(a);
    encode_utf8_decode_utf8(b);
}

/// A dictionary of distinct strings, each with a dense `u32` id given in
/// first-seen order.
pub struct Dictionary {
    values: Vec<String>,
    lookup: Trie<Vec<u8>, usize>,
}

impl View for Dictionary {
    type V = Seq<Seq<char>>;

    /// The interned strings; a string's id is its position.
    closed spec fn view(&self) -> Seq<Seq<char>> {
        self.values@.map_values(|s: String| s@)
    }
}

impl Dictionary {
    /// The lookup holds exactly the interned strings, each under its bytes and
    /// mapped to its id.
    pub closed spec fn wf(&self) -> bool {
        &&& self.values@.len() <= ID_LIMIT
        &&& forall|k: Seq<u8>| #[trigger]
            trie_map(self.lookup).contains_key(k) ==> {
                &&& trie_map(self.lookup)[k] < self.values@.len()
                &&& utf8(self.values@[trie_map(self.lookup)[k] as int]@) == k
            }
        &&& forall|i: int|
            0 <= i < self.values@.len() ==> {
                &&& #[trigger] trie_map(self.lookup).contains_key(utf8(self.values@[i]@))
                &&& trie_map(self.lookup)[utf8(self.values@[i]@)] == i
            }
    }

    /// A well-formed dictionary holds each string at most once.
    pub proof fn lemma_distinct(&self)
        requires
            self.wf(),
        ensures
            forall|i: int, j: int|
                0 <= i < self@.len() && 0 <= j < self@.len() && #[trigger] self@[i] == #[trigger] self@[j]
                    ==> i == j,
    {
        assert forall|i: int, j: int|
            0 <= i < self@.len() && 0 <= j < self@.len() && #[trigger] self@[i] == #[trigger] self@[j]
                implies i == j by {
            assert(self@[i] == self.values@[i]@);
            assert(self@[j] == self.values@[j]@);
            assert(trie_map(self.lookup).contains_key(utf8(self.values@[i]@)));
        }
    }

    /// An empty dictionary.
    pub fn new() -> (r: Dictionary)
        ensures
            r.wf(),
            r@ == Seq::<Seq<char>>::empty(),
    {
        let r = Dictionary { values: Vec::new(), lookup: trie_new() };
        assert(r@ =~= Seq::<Seq<char>>::empty());
        r
    }

    /// Number of interned strings.
    pub fn len(&self) -> (r: usize)
        ensures
            r == self@.len(),
    {
        self.values.len()
    }

    /// The string with id `id`, if there is one.
    pub fn get(&self, id: u32) -> (r: Option<&String>)
        ensures
            match r {
                Some(s) => id < self@.len() && s@ == self@[id as int],
                None => id >= self@.len(),
            },
    {
        if (id as usize) < self.values.len() {
            Some(&self.values[id as usize])
        } else {
            None
        }
    }

    /// Intern `value`: its id if it is present; else a new id equal to the
    /// dictionary's size.
    pub fn intern(&mut self, value: &str) -> (r: u32)
        requires
            old(self).wf(),
            old(self)@.len() < ID_LIMIT,
        ensures
            final(self).wf(),
            old(self)@.contains(value@) ==> final(self)@ == old(self)@,
            !old(self)@.contains(value@) ==> final(self)@ == old(self)@.push(value@) && r == old(
                self,
            )@.len(),
            r < final(self)@.len(),
            final(self)@[r as int] == value@,
    {
        let bytes = value.as_bytes();
        match trie_get(&self.lookup, bytes) {
            Some(id) => {
                proof {
                    lemma_utf8_injective(self.values@[id as int]@, value@);
                    assert(self@[id as int] == value@);
                }
                id as u32
            },
            None => {
                let id = self.values.len();
                proof {
                    assert forall|i: int| 0 <= i < self@.len() implies self@[i] != value@ by {
                        assert(self@[i] == self.values@[i]@);
                        assert(trie_map(self.lookup).contains_key(utf8(self.values@[i]@)));
                        assert(bytes@ == utf8(value@));
                    }
                }
                let ghost old_self = *self;
                trie_insert(&mut self.lookup, slice_to_vec(bytes), id);
                self.values.push(value.to_string());
                proof {
                    assert(self@ =~= old_self@.push(value@));
                    assert forall|k: Seq<u8>| #[trigger]
                        trie_map(self.lookup).contains_key(k) implies {
                            &&& trie_map(self.lookup)[k] < self.values@.len()
                            &&& utf8(self.values@[trie_map(self.lookup)[k] as int]@) == k
                        } by {
                        if k != utf8(value@) {
                            assert(trie_map(old_self.lookup).contains_key(k));
                        }
                    }
                    assert forall|i: int| 0 <= i < self.values@.len() implies {
                        &&& #[trigger] trie_map(self.lookup).contains_key(utf8(self.values@[i]@))
                        &&& trie_map(self.lookup)[utf8(self.values@[i]@)] == i
                    } by {
                        if i < id {
                            assert(self.values@[i] == old_self.values@[i]);
                            if utf8(self.values@[i]@) == utf8(value@) {
                                lemma_utf8_injective(self.values@[i]@, value@);
                                assert(old_self@[i] == value@);
                            }
                        }
                    }
                }
                id as u32
            },
        }
    }
}

/// `k` is where `url` splits into template and suffix: at the first `?`;
/// without one, at the last `/`; without either, at 0.
pub open spec fn is_template_split(url: Seq<char>, k: int) -> bool {
    if exists|i: int| 0 <= i < url.len() && url[i] == '?' {
        &&& 0 <= k < url.len()
        &&& url[k] == '?'
        &&& forall|j: int| 0 <= j < k ==> url[j] != '?'
    } else if exists|i: int| 0 <= i < url.len() && url[i] == '/' {
        &&& 0 <= k < url.len()
        &&& url[k] == '/'
        &&& forall|j: int| k < j < url.len() ==> url[j] != '/'
    } else {
        k == 0
    }
}

/// The character position at which `url` splits into template and suffix.
fn template_split(url: &Vec<char>) -> (k: usize)
    ensures
        k <= url@.len(),
        is_template_split(url@, k as int),
{
    let mut i: usize = 0;
    while i < url.len()
        invariant
            i <= url@.len(),
            forall|j: int| 0 <= j < i ==> url@[j] != '?',
        decreases url@.len() - i,
    {
        if url[i] == '?' {
            return i;
        }
        i += 1;
    }
    let mut n: usize = url.len();
    while n > 0
        invariant
            n <= url@.len(),
            forall|j: int| 0 <= j < url@.len() ==> url@[j] != '?',
            forall|j: int| n <= j < url@.len() ==> url@[j] != '/',
        decreases n,
    {
        if url[n - 1] == '/' {
            return n - 1;
        }
        n -= 1;
    }
    0
}

/// Split `url` into a template, interned in `templates`, and a suffix: the
/// template id and the suffix are returned.
pub fn extract_template(url: &str, templates: &mut Dictionary) -> (r: (u32, String))
    requires
        old(templates).wf(),
        old(templates)@.len() < ID_LIMIT,
    ensures
        final(templates).wf(),
        exists|k: int|
            #![trigger is_template_split(url@, k)]
            is_template_split(url@, k) && 0 <= k <= url@.len() && {
                let t = url@.take(k);
                let before = old(templates)@;
                let after = final(templates)@;
                &&& before.contains(t) ==> after == before
                &&& !before.contains(t) ==> after == before.push(t) && r.0 == before.len()
                &&& r.0 < after.len()
                &&& after[r.0 as int] == t
                &&& r.1@ == url@.skip(k)
            },
{
    let chars = chars_of(url);
    let k = template_split(&chars);
    let template = url.substring_char(0, k);
    let suffix = url.substring_char(k, chars.len());
    let id = templates.intern(template);
    (id, suffix.to_string())
}

} // verus!
