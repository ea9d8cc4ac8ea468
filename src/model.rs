//! The index as plain values: which keys it holds, which record each key
//! leads to, and which key answers a query.
use vstd::prelude::*;
use crate::collapse::{collapse_ex_spec, expand_runs, rle_view, strings_view};
use crate::common::{AmpResultView, OriginalAmp, RecordView};
use crate::dict::utf8;
use crate::lex::{lemma_lex_total, lex_le};

verus! {

/// What the index holds for a key.
pub struct KeyView {
    /// Position of the record that owns the key.
    pub record: nat,
    /// Characters a query must have before the key may match.
    pub min_prefix: nat,
    /// The full keyword shown with the suggestion.
    pub full_keyword: Seq<char>,
}

/// A record is well formed when its full keywords are absent, or expand to
/// exactly one per keyword.
pub open spec fn record_is_valid(a: OriginalAmp) -> bool {
    a.full_keywords@.len() == 0 || expand_runs(rle_view(a.full_keywords@)).len()
        == a.keywords@.len()
}

/// The full keywords a record's keywords are paired with: its own, or the
/// advertiser for every keyword when it has none.
pub open spec fn effective_full_keywords(a: OriginalAmp) -> Seq<(Seq<char>, nat)> {
    if a.full_keywords@.len() == 0 {
        seq![(a.advertiser@, a.keywords@.len())]
    } else {
        rle_view(a.full_keywords@)
    }
}

/// The keys that record `a`, stored at position `r`, offers to the index, in
/// order: the UTF-8 bytes of each collapsed keyword with what it leads to.
pub open spec fn record_keys(a: OriginalAmp, r: nat) -> Seq<(Seq<u8>, KeyView)> {
    collapse_ex_spec(strings_view(a.keywords@), expand_runs(effective_full_keywords(a))).map_values(
        |e: (Seq<char>, nat, Seq<char>)|
            (utf8(e.0), KeyView { record: r, min_prefix: e.1, full_keyword: e.2 }),
    )
}

/// Insert each of `es` into `m` in order, keeping the value already present
/// on a repeated key.
pub open spec fn insert_first(m: Map<Seq<u8>, KeyView>, es: Seq<(Seq<u8>, KeyView)>) -> Map<
    Seq<u8>,
    KeyView,
>
    decreases es.len(),
{
    if es.len() == 0 {
        m
    } else {
        let m1 = insert_first(m, es.drop_last());
        if m1.contains_key(es.last().0) {
            m1
        } else {
            m1.insert(es.last().0, es.last().1)
        }
    }
}

/// The keys after adding `records`, stored from position `base` on, to `m`.
pub open spec fn build_keys(m: Map<Seq<u8>, KeyView>, records: Seq<OriginalAmp>, base: nat) -> Map<
    Seq<u8>,
    KeyView,
>
    decreases records.len(),
{
    if records.len() == 0 {
        m
    } else {
        insert_first(
            build_keys(m, records.drop_last(), base),
            record_keys(records.last(), (base + records.len() - 1) as nat),
        )
    }
}

/// The plain views of a sequence of records.
pub open spec fn records_of(records: Seq<OriginalAmp>) -> Seq<RecordView> {
    records.map_values(|a: OriginalAmp| a@)
}

/// Key `k` may answer query `q`: it begins with the query's bytes, and the
/// query has at least the key's min-prefix characters.
pub open spec fn admits(keys: Map<Seq<u8>, KeyView>, q: Seq<char>, k: Seq<u8>) -> bool {
    &&& keys.contains_key(k)
    &&& utf8(q).is_prefix_of(k)
    &&& keys[k].min_prefix <= q.len()
}

/// Key `k` answers query `q`: it is the lexicographically smallest key that
/// may answer it.
pub open spec fn best_match(keys: Map<Seq<u8>, KeyView>, q: Seq<char>, k: Seq<u8>) -> bool {
    &&& admits(keys, q, k)
    &&& forall|k2: Seq<u8>| #[trigger] admits(keys, q, k2) ==> lex_le(k, k2)
}

/// The answer to query `q`: the record and full keyword that the best
/// matching key leads to, if any key may answer.
pub open spec fn answer(keys: Map<Seq<u8>, KeyView>, records: Seq<RecordView>, q: Seq<char>) -> Option<
    AmpResultView,
> {
    if exists|k: Seq<u8>| admits(keys, q, k) {
        let k = choose|k: Seq<u8>| best_match(keys, q, k);
        Some(AmpResultView { record: records[keys[k].record as int], full_keyword: keys[k].full_keyword })
    } else {
        None
    }
}

/// At most one key answers a query.
pub proof fn lemma_best_match_unique(
    keys: Map<Seq<u8>, KeyView>,
    q: Seq<char>,
    k1: Seq<u8>,
    k2: Seq<u8>,
)
    requires
        best_match(keys, q, k1),
        best_match(keys, q, k2),
    ensures
        k1 == k2,
{
    lemma_lex_total(k1, k2);
}

/// When `k` answers `q`, the answer is what `k` leads to.
pub proof fn lemma_answer_is_best(
    keys: Map<Seq<u8>, KeyView>,
    records: Seq<RecordView>,
    q: Seq<char>,
    k: Seq<u8>,
)
    requires
        best_match(keys, q, k),
    ensures
        answer(keys, records, q) == Some(
            AmpResultView { record: records[keys[k].record as int], full_keyword: keys[k].full_keyword },
        ),
{
    let c = choose|c: Seq<u8>| best_match(keys, q, c);
    lemma_best_match_unique(keys, q, c, k);
}

/// First insertion wins: a key already present keeps its value, and a new
/// key takes the value of its first occurrence in `es`.
pub proof fn lemma_insert_first(m: Map<Seq<u8>, KeyView>, es: Seq<(Seq<u8>, KeyView)>, k: Seq<u8>)
    ensures
        m.contains_key(k) ==> insert_first(m, es).contains_key(k) && insert_first(m, es)[k] == m[k],
        forall|i: int|
            0 <= i < es.len() && es[i].0 == k && !m.contains_key(k) && (forall|j: int|
                0 <= j < i ==> es[j].0 != k) ==> insert_first(m, es).contains_key(k)
                && insert_first(m, es)[k] == #[trigger] es[i].1,
        insert_first(m, es).contains_key(k) <==> m.contains_key(k) || exists|i: int|
            0 <= i < es.len() && #[trigger] es[i].0 == k,
    decreases es.len(),
{
    if es.len() > 0 {
        let init = es.drop_last();
        lemma_insert_first(m, init, k);
        assert forall|i: int|
            0 <= i < es.len() && es[i].0 == k && !m.contains_key(k) && (forall|j: int|
                0 <= j < i ==> es[j].0 != k) implies insert_first(m, es).contains_key(k)
            && insert_first(m, es)[k] == #[trigger] es[i].1 by {
            if i < es.len() - 1 {
                assert(init[i] == es[i]);
                assert forall|j: int| 0 <= j < i implies init[j].0 != k by {
                    assert(init[j] == es[j]);
                }
            } else {
                if insert_first(m, init).contains_key(k) {
                    let w = choose|w: int| 0 <= w < init.len() && #[trigger] init[w].0 == k;
                    assert(es[w].0 == k);
                }
            }
        }
        if insert_first(m, es).contains_key(k) && !m.contains_key(k) {
            if insert_first(m, init).contains_key(k) {
                let w = choose|w: int| 0 <= w < init.len() && #[trigger] init[w].0 == k;
                assert(es[w].0 == k);
            } else {
                assert(es[es.len() - 1].0 == k);
            }
        }
        if exists|i: int| 0 <= i < es.len() && #[trigger] es[i].0 == k {
            let w = choose|w: int| 0 <= w < es.len() && #[trigger] es[w].0 == k;
            if w < es.len() - 1 {
                assert(init[w].0 == k);
            }
        }
    }
}


/// A query with fewer characters than the min-prefix of every key that
/// begins with it has no answer.
pub proof fn lemma_short_query_unanswered(
    keys: Map<Seq<u8>, KeyView>,
    records: Seq<RecordView>,
    q: Seq<char>,
)
    requires
        forall|k: Seq<u8>|
            #[trigger] keys.contains_key(k) && utf8(q).is_prefix_of(k) ==> q.len() < keys[k].min_prefix,
    ensures
        answer(keys, records, q) is None,
{
}

/// Indexes that hold the keys and records built from the same input, from
/// empty, answer every query alike.
pub proof fn lemma_build_deterministic(
    keys_a: Map<Seq<u8>, KeyView>,
    records_a: Seq<RecordView>,
    keys_b: Map<Seq<u8>, KeyView>,
    records_b: Seq<RecordView>,
    amps: Seq<OriginalAmp>,
    q: Seq<char>,
)
    requires
        keys_a == build_keys(Map::empty(), amps, 0),
        keys_b == build_keys(Map::empty(), amps, 0),
        records_a == Seq::<RecordView>::empty() + records_of(amps),
        records_b == Seq::<RecordView>::empty() + records_of(amps),
    ensures
        answer(keys_a, records_a, q) == answer(keys_b, records_b, q),
{
}

/// Which keys the build holds: those of the starting map and those that some
/// record offers.
pub proof fn lemma_build_keys_domain(
    m: Map<Seq<u8>, KeyView>,
    records: Seq<OriginalAmp>,
    base: nat,
    k: Seq<u8>,
)
    ensures
        build_keys(m, records, base).contains_key(k) <==> m.contains_key(k) || exists|i: int, t: int|
            0 <= i < records.len() && 0 <= t < record_keys(records[i], base + i as nat).len()
                && #[trigger] record_keys(records[i], base + i as nat)[t].0 == k,
    decreases records.len(),
{
    if records.len() > 0 {
        let init = records.drop_last();
        let last = records.len() - 1;
        let rk = record_keys(records.last(), (base + records.len() - 1) as nat);
        lemma_build_keys_domain(m, init, base, k);
        lemma_insert_first(build_keys(m, init, base), rk, k);
        if exists|i: int, t: int|
            0 <= i < records.len() && 0 <= t < record_keys(records[i], base + i as nat).len()
                && #[trigger] record_keys(records[i], base + i as nat)[t].0 == k {
            let (i, t) = choose|i: int, t: int|
                0 <= i < records.len() && 0 <= t < record_keys(records[i], base + i as nat).len()
                    && #[trigger] record_keys(records[i], base + i as nat)[t].0 == k;
            if i < last {
                assert(init[i] == records[i]);
            } else {
                assert(rk[t].0 == k);
            }
        }
        if build_keys(m, init, base).contains_key(k) && !m.contains_key(k) {
            let (i, t) = choose|i: int, t: int|
                0 <= i < init.len() && 0 <= t < record_keys(init[i], base + i as nat).len()
                    && #[trigger] record_keys(init[i], base + i as nat)[t].0 == k;
            assert(records[i] == init[i]);
        }
        if exists|t: int| 0 <= t < rk.len() && #[trigger] rk[t].0 == k {
            let t = choose|t: int| 0 <= t < rk.len() && #[trigger] rk[t].0 == k;
            assert(record_keys(records[last], base + last as nat)[t].0 == k);
        }
    }
}

/// First insertion wins across records: a key that the starting map lacks
/// leads to the first place where a record offers it.
pub proof fn lemma_build_keys_first(
    m: Map<Seq<u8>, KeyView>,
    records: Seq<OriginalAmp>,
    base: nat,
    k: Seq<u8>,
    i: int,
    t: int,
)
    requires
        !m.contains_key(k),
        0 <= i < records.len(),
        0 <= t < record_keys(records[i], base + i as nat).len(),
        record_keys(records[i], base + i as nat)[t].0 == k,
        forall|u: int| 0 <= u < t ==> #[trigger] record_keys(records[i], base + i as nat)[u].0 != k,
        forall|j: int, u: int|
            0 <= j < i && 0 <= u < record_keys(records[j], base + j as nat).len() ==> #[trigger] record_keys(
                records[j],
                base + j as nat,
            )[u].0 != k,
    ensures
        build_keys(m, records, base).contains_key(k),
        build_keys(m, records, base)[k] == record_keys(records[i], base + i as nat)[t].1,
    decreases records.len(),
{
    let init = records.drop_last();
    let last = records.len() - 1;
    let rk = record_keys(records.last(), (base + records.len() - 1) as nat);
    lemma_insert_first(build_keys(m, init, base), rk, k);
    if i < last {
        assert forall|j: int, u: int|
            0 <= j < i && 0 <= u < record_keys(init[j], base + j as nat).len() implies #[trigger] record_keys(
            init[j],
            base + j as nat,
        )[u].0 != k by {
            assert(init[j] == records[j]);
        }
        assert(init[i] == records[i]);
        lemma_build_keys_first(m, init, base, k, i, t);
    } else {
        lemma_build_keys_domain(m, init, base, k);
        if build_keys(m, init, base).contains_key(k) {
            let (j, u) = choose|j: int, u: int|
                0 <= j < init.len() && 0 <= u < record_keys(init[j], base + j as nat).len()
                    && #[trigger] record_keys(init[j], base + j as nat)[u].0 == k;
            assert(init[j] == records[j]);
        }
    }
}

} // verus!
