//! Collapsing keyword lists into indexable keys with min-prefix lengths.
//!
//! A keyword list is authored so that many consecutive entries extend the
//! first entry of their run by one more character each. Each maximal run is
//! represented by its last keyword, together with the character count of its
//! first keyword: the number of characters a user must type before the
//! collapsed keyword may match.
use vstd::prelude::*;
use crate::common::{chars_of, FullKeyword};

verus! {

/// `ks[j]` continues the run that starts at `i`: it begins with `ks[i]` and
/// has `j - i` more characters.
pub open spec fn extends_run(ks: Seq<Seq<char>>, i: int, j: int) -> bool {
    &&& ks[i].is_prefix_of(ks[j])
    &&& ks[j].len() == ks[i].len() + (j - i)
}

/// The end (exclusive) of the run that starts at `i`, scanning on from `j`.
pub open spec fn run_end(ks: Seq<Seq<char>>, i: int, j: int) -> int
    decreases ks.len() - j,
{
    if 0 <= i < j < ks.len() && extends_run(ks, i, j) {
        run_end(ks, i, j + 1)
    } else {
        j
    }
}

/// The maximal runs of `ks` from position `i` on, as `(start, end)` pairs with
/// `end` exclusive.
pub open spec fn runs_from(ks: Seq<Seq<char>>, i: int) -> Seq<(int, int)>
    decreases ks.len() - i,
{
    if 0 <= i < ks.len() {
        let j = run_end(ks, i, i + 1);
        let e = if i < j <= ks.len() { j } else { i + 1 };
        seq![(i, e)] + runs_from(ks, e)
    } else {
        Seq::empty()
    }
}

/// The maximal runs of `ks`.
pub open spec fn runs(ks: Seq<Seq<char>>) -> Seq<(int, int)> {
    runs_from(ks, 0)
}

/// For each run of `rs`, its last keyword and the character count of its
/// first keyword.
pub open spec fn run_entries(ks: Seq<Seq<char>>, rs: Seq<(int, int)>) -> Seq<(Seq<char>, nat)> {
    rs.map_values(|r: (int, int)| (ks[r.1 - 1], ks[r.0].len()))
}

/// The collapsed form of `ks`: for each run, its last keyword and the
/// character count of its first keyword.
pub open spec fn collapse_spec(ks: Seq<Seq<char>>) -> Seq<(Seq<char>, nat)> {
    run_entries(ks, runs(ks))
}

/// The plain view of collapsed entries.
pub open spec fn collapsed_view(out: Seq<(String, usize)>) -> Seq<(Seq<char>, nat)> {
    out.map_values(|p: (String, usize)| (p.0@, p.1 as nat))
}

/// The collapsed form of `ks`, each entry with the full keyword that `fks`
/// gives for the run's last keyword.
pub open spec fn collapse_ex_spec(ks: Seq<Seq<char>>, fks: Seq<Seq<char>>) -> Seq<
    (Seq<char>, nat, Seq<char>),
> {
    runs(ks).map_values(|r: (int, int)| (ks[r.1 - 1], ks[r.0].len(), fks[r.1 - 1]))
}

/// The expansion of a run-length list: each text repeated its count times.
pub open spec fn expand_runs(fk: Seq<(Seq<char>, nat)>) -> Seq<Seq<char>>
    decreases fk.len(),
{
    if fk.len() == 0 {
        Seq::empty()
    } else {
        expand_runs(fk.drop_last()) + Seq::new(fk.last().1, |k: int| fk.last().0)
    }
}

/// The character sequences of a list of strings.
pub open spec fn strings_view(ks: Seq<String>) -> Seq<Seq<char>> {
    ks.map_values(|s: String| s@)
}

/// The plain view of a run-length list of full keywords.
pub open spec fn rle_view(fk: Seq<(String, usize)>) -> Seq<(Seq<char>, nat)> {
    fk.map_values(|p: (String, usize)| (p.0@, p.1 as nat))
}

/// A run scanned from `j` ends no earlier than `j`, no later than the list,
/// and every keyword in between continues it.
pub proof fn lemma_run_end(ks: Seq<Seq<char>>, i: int, j: int)
    requires
        0 <= i < j <= ks.len(),
        forall|t: int| i < t < j ==> extends_run(ks, i, t),
    ensures
        j <= run_end(ks, i, j) <= ks.len(),
        forall|t: int| i < t < run_end(ks, i, j) ==> extends_run(ks, i, t),
        run_end(ks, i, j) == ks.len() || !extends_run(ks, i, run_end(ks, i, j)),
    decreases ks.len() - j,
{
    if j < ks.len() && extends_run(ks, i, j) {
        lemma_run_end(ks, i, j + 1);
    }
}

/// Each run from `i` on is a non-empty range of `ks`, every keyword of which
/// continues the run's first keyword; the runs follow one another.
pub proof fn lemma_runs_from(ks: Seq<Seq<char>>, i: int)
    requires
        0 <= i <= ks.len(),
    ensures
        forall|t: int|
            0 <= t < runs_from(ks, i).len() ==> {
                let r = #[trigger] runs_from(ks, i)[t];
                &&& i <= r.0 < r.1 <= ks.len()
                &&& forall|u: int| r.0 < u < r.1 ==> extends_run(ks, r.0, u)
            },
    decreases ks.len() - i,
{
    if i < ks.len() {
        lemma_run_end(ks, i, i + 1);
        let e = run_end(ks, i, i + 1);
        lemma_runs_from(ks, e);
        let rest = runs_from(ks, e);
        assert(runs_from(ks, i) == seq![(i, e)] + rest);
        assert forall|t: int| 0 < t < runs_from(ks, i).len() implies runs_from(ks, i)[t] == rest[t
            - 1] by {}
    }
}

/// Every collapsed entry carries the character count of the first keyword of
/// its run, which is at most the character count of the entry's key, and
/// that first keyword begins the key; the collapsed list is no longer than
/// the input. The same holds with full keywords attached.
pub proof fn lemma_collapse_min_prefix(ks: Seq<Seq<char>>, fks: Seq<Seq<char>>)
    ensures
        collapse_spec(ks).len() <= ks.len(),
        forall|t: int|
            0 <= t < collapse_spec(ks).len() ==> {
                let r = runs(ks)[t];
                &&& 0 <= r.0 < r.1 <= ks.len()
                &&& (#[trigger] collapse_spec(ks)[t]).1 == ks[r.0].len()
                &&& ks[r.0].len() <= collapse_spec(ks)[t].0.len()
                &&& ks[r.0].is_prefix_of(collapse_spec(ks)[t].0)
            },
        collapse_ex_spec(ks, fks).len() == collapse_spec(ks).len(),
        forall|t: int|
            0 <= t < collapse_ex_spec(ks, fks).len() ==> {
                &&& (#[trigger] collapse_ex_spec(ks, fks)[t]).0 == collapse_spec(ks)[t].0
                &&& collapse_ex_spec(ks, fks)[t].1 == collapse_spec(ks)[t].1
                &&& collapse_ex_spec(ks, fks)[t].1 <= collapse_ex_spec(ks, fks)[t].0.len()
            },
{
    lemma_runs_from(ks, 0);
    lemma_runs_len(ks, 0);
    assert forall|t: int| 0 <= t < collapse_spec(ks).len() implies {
        let r = runs(ks)[t];
        &&& 0 <= r.0 < r.1 <= ks.len()
        &&& (#[trigger] collapse_spec(ks)[t]).1 == ks[r.0].len()
        &&& ks[r.0].len() <= collapse_spec(ks)[t].0.len()
        &&& ks[r.0].is_prefix_of(collapse_spec(ks)[t].0)
    } by {
        let r = runs(ks)[t];
        assert(runs_from(ks, 0)[t] == r);
        if r.1 - 1 > r.0 {
            assert(extends_run(ks, r.0, r.1 - 1));
        }
    }
}

/// There are no more runs from `i` on than keywords.
pub proof fn lemma_runs_len(ks: Seq<Seq<char>>, i: int)
    requires
        0 <= i <= ks.len(),
    ensures
        runs_from(ks, i).len() <= ks.len() - i,
    decreases ks.len() - i,
{
    if i < ks.len() {
        lemma_run_end(ks, i, i + 1);
        lemma_runs_len(ks, run_end(ks, i, i + 1));
    }
}

/// Whether `a` is a prefix of `b`.
fn chars_prefix(a: &Vec<char>, b: &Vec<char>) -> (r: bool)
    ensures
        r == a@.is_prefix_of(b@),
{
    if a.len() > b.len() {
        return false;
    }
    let mut i: usize = 0;
    while i < a.len()
        invariant
            a@.len() <= b@.len(),
            i <= a@.len(),
            forall|t: int| 0 <= t < i ==> a@[t] == b@[t],
        decreases a@.len() - i,
    {
        if a[i] != b[i] {
            assert(a@[i as int] != b@.subrange(0, a@.len() as int)[i as int]);
            return false;
        }
        i += 1;
    }
    assert(a@ =~= b@.subrange(0, a@.len() as int));
    true
}

/// The characters of each string of `ks`.
fn all_chars(ks: &[String]) -> (r: Vec<Vec<char>>)
    ensures
        r@.len() == ks@.len(),
        forall|t: int| 0 <= t < ks@.len() ==> #[trigger] r@[t]@ == ks@[t]@,
{
    let mut r: Vec<Vec<char>> = Vec::new();
    let mut t: usize = 0;
    while t < ks.len()
        invariant
            t <= ks@.len(),
            r@.len() == t,
            forall|u: int| 0 <= u < t ==> #[trigger] r@[u]@ == ks@[u]@,
        decreases ks@.len() - t,
    {
        r.push(chars_of(ks[t].as_str()));
        t += 1;
    }
    r
}

/// Runs as integer pairs.
pub open spec fn runs_view(rs: Seq<(usize, usize)>) -> Seq<(int, int)> {
    rs.map_values(|r: (usize, usize)| (r.0 as int, r.1 as int))
}

/// The characters of the first `n` entries of `cs`.
pub open spec fn chars_view(cs: Seq<Vec<char>>, n: int) -> Seq<Seq<char>> {
    cs.take(n).map_values(|c: Vec<char>| c@)
}

/// The end of the run that starts at `i`, over the first `n` keywords.
fn find_run_end(cs: &Vec<Vec<char>>, n: usize, i: usize) -> (j: usize)
    requires
        i < n <= cs@.len(),
    ensures
        j == run_end(chars_view(cs@, n as int), i as int, i + 1),
        i < j <= n,
{
    let ghost ks = chars_view(cs@, n as int);
    let mut j: usize = i + 1;
    assert forall|t: int| 0 <= t < n implies #[trigger] ks[t] == cs@[t]@ by {
        assert(cs@.take(n as int)[t] == cs@[t]);
    }
    while j < n
        invariant
            i < j <= n <= cs@.len(),
            ks == chars_view(cs@, n as int),
            ks.len() == n,
            forall|t: int| 0 <= t < n ==> #[trigger] ks[t] == cs@[t]@,
            run_end(ks, i as int, j as int) == run_end(ks, i as int, i + 1),
        decreases n - j,
    {
        let curr = &cs[i];
        let nxt = &cs[j];
        assert(ks[i as int] == curr@ && ks[j as int] == nxt@);
        if chars_prefix(curr, nxt) && nxt.len() - curr.len() == j - i {
            assert(extends_run(ks, i as int, j as int));
            j += 1;
        } else {
            assert(!extends_run(ks, i as int, j as int));
            return j;
        }
    }
    j
}

/// The maximal runs of the first `n` keywords.
fn find_runs(cs: &Vec<Vec<char>>, n: usize) -> (r: Vec<(usize, usize)>)
    requires
        n <= cs@.len(),
    ensures
        runs_view(r@) == runs(chars_view(cs@, n as int)),
{
    let ghost ks = chars_view(cs@, n as int);
    let mut out: Vec<(usize, usize)> = Vec::new();
    let mut i: usize = 0;
    proof {
        assert(runs(ks) == runs_view(out@) + runs_from(ks, 0));
    }
    while i < n
        invariant
            n <= cs@.len(),
            ks == chars_view(cs@, n as int),
            i <= n,
            runs(ks) == runs_view(out@) + runs_from(ks, i as int),
        decreases n - i,
    {
        let j = find_run_end(cs, n, i);
        proof {
            lemma_run_end(ks, i as int, i + 1);
            assert(runs_from(ks, i as int) == seq![(i as int, j as int)] + runs_from(ks, j as int));
        }
        let ghost prev = out@;
        out.push((i, j));
        proof {
            assert(runs_view(out@) =~= runs_view(prev).push((i as int, j as int)));
            assert(runs_view(prev) + runs_from(ks, i as int) =~= runs_view(out@) + runs_from(
                ks,
                j as int,
            ));
        }
        i = j;
    }
    proof {
        assert(runs_view(out@) + runs_from(ks, n as int) =~= runs_view(out@));
    }
    out
}

/// Collapse each maximal run of one-character extensions into its last
/// keyword, paired with the character count of the run's first keyword.
pub fn collapse_keywords(keywords: &[String]) -> (out: Vec<(String, usize)>)
    ensures
        collapsed_view(out@) == collapse_spec(strings_view(keywords@)),
{
    let ghost ks = strings_view(keywords@);
    let cs = all_chars(keywords);
    let n = keywords.len();
    proof {
        assert(chars_view(cs@, n as int) =~= ks);
        lemma_runs_from(ks, 0);
    }
    let rs = find_runs(&cs, n);
    let ghost rv = runs_view(rs@);
    let mut out: Vec<(String, usize)> = Vec::new();
    let mut t: usize = 0;
    while t < rs.len()
        invariant
            n == keywords@.len() == ks.len() == cs@.len(),
            ks == strings_view(keywords@),
            forall|u: int| 0 <= u < n ==> #[trigger] cs@[u]@ == ks[u],
            rv == runs_view(rs@),
            rv == runs(ks),
            forall|u: int|
                0 <= u < runs(ks).len() ==> {
                    let r = #[trigger] runs(ks)[u];
                    &&& 0 <= r.0 < r.1 <= ks.len()
                },
            t <= rs@.len(),
            collapsed_view(out@) == run_entries(ks, rv.take(t as int)),
        decreases rs@.len() - t,
    {
        let (s, e) = rs[t];
        assert(rv[t as int] == (s as int, e as int));
        let ghost prev = out@;
        out.push((keywords[e - 1].clone(), cs[s].len()));
        proof {
            assert(ks[e - 1] == keywords@[e - 1]@);
            assert(rv.take(t + 1) =~= rv.take(t as int).push((s as int, e as int)));
            assert(collapsed_view(out@) =~= collapsed_view(prev).push((ks[e - 1], ks[s as int].len())));
            assert(run_entries(ks, rv.take(t + 1)) =~= run_entries(ks, rv.take(t as int)).push(
                (ks[e - 1], ks[s as int].len()),
            ));
        }
        t += 1;
    }
    proof {
        assert(rv.take(t as int) =~= rv);
    }
    out
}

/// The expansion of the first `p` runs is a prefix of the expansion of the
/// first `q`.
pub proof fn lemma_expand_prefix(fk: Seq<(Seq<char>, nat)>, p: int, q: int)
    requires
        0 <= p <= q <= fk.len(),
    ensures
        expand_runs(fk.take(p)).is_prefix_of(expand_runs(fk.take(q))),
    decreases q - p,
{
    if p < q {
        lemma_expand_prefix(fk, p, q - 1);
        assert(fk.take(q).drop_last() =~= fk.take(q - 1));
    }
}

/// The number of keywords that a full keyword is paired with.
pub open spec fn zipped_len(ks: Seq<Seq<char>>, fk: Seq<(Seq<char>, nat)>) -> int {
    if ks.len() <= expand_runs(fk).len() {
        ks.len() as int
    } else {
        expand_runs(fk).len() as int
    }
}

/// The first `n` full keywords of the expansion of `fk` (all of them, when
/// there are fewer).
fn expand_full_keywords(fk: &[(String, usize)], n: usize) -> (r: Vec<String>)
    ensures
        r@.len() == n || r@.len() == expand_runs(rle_view(fk@)).len(),
        r@.len() <= n,
        r@.len() <= expand_runs(rle_view(fk@)).len(),
        strings_view(r@) == expand_runs(rle_view(fk@)).take(r@.len() as int),
{
    let ghost f = rle_view(fk@);
    let mut r: Vec<String> = Vec::new();
    let mut p: usize = 0;
    proof {
        assert(f.take(0) =~= Seq::<(Seq<char>, nat)>::empty());
        assert(strings_view(r@) =~= expand_runs(f.take(0)).take(0));
    }
    while p < fk.len() && r.len() < n
        invariant
            f == rle_view(fk@),
            p <= fk@.len(),
            r@.len() <= n,
            r@.len() <= expand_runs(f.take(p as int)).len(),
            strings_view(r@) == expand_runs(f.take(p as int)).take(r@.len() as int),
            r@.len() < n ==> r@.len() == expand_runs(f.take(p as int)).len(),
        decreases fk@.len() - p, n - r@.len(),
    {
        let ghost e = expand_runs(f.take(p as int));
        let text = &fk[p].0;
        let count = fk[p].1;
        let ghost rep = Seq::new(count as nat, |k: int| text@);
        proof {
            assert(f.take(p + 1).drop_last() =~= f.take(p as int));
            assert(f.take(p + 1).last() == (text@, count as nat));
            assert(expand_runs(f.take(p + 1)) == e + rep);
        }
        let mut c: usize = 0;
        assert(strings_view(r@) =~= e + rep.take(0));
        while c < count && r.len() < n
            invariant
                r@.len() <= n,
                c <= count,
                r@.len() == e.len() + c,
                rep.len() == count,
                forall|k: int| 0 <= k < count ==> rep[k] == text@,
                strings_view(r@) == e + rep.take(c as int),
            decreases count - c,
        {
            let ghost prev = r@;
            r.push(text.clone());
            proof {
                assert(strings_view(r@) =~= strings_view(prev).push(text@));
                assert(rep.take(c + 1) =~= rep.take(c as int).push(text@));
                assert(e + rep.take(c + 1) =~= (e + rep.take(c as int)).push(text@));
            }
            c += 1;
        }
        proof {
            assert(strings_view(r@) =~= (e + rep).take(r@.len() as int));
        }
        p += 1;
    }
    proof {
        lemma_expand_prefix(f, p as int, fk@.len() as int);
        assert(f.take(fk@.len() as int) =~= f);
        assert(expand_runs(f.take(p as int)).take(r@.len() as int) =~= expand_runs(f).take(
            r@.len() as int,
        ));
    }
    r
}

/// The plain view of collapsed entries with their full keywords.
pub open spec fn collapsed_ex_view(out: Seq<(String, usize, FullKeyword)>) -> Seq<
    (Seq<char>, nat, Seq<char>),
> {
    out.map_values(|p: (String, usize, FullKeyword)| (p.0@, p.1 as nat, p.2.text(p.0@)))
}

/// Like `collapse_keywords`, with each entry's full keyword: the keywords
/// are paired with the expansion of `full_keywords`, as far as both reach.
/// The full keyword is tagged `Same` exactly when it equals the entry's key.
pub fn collapse_keywords_ex(keywords: &[String], full_keywords: &[(String, usize)]) -> (out: Vec<
    (String, usize, FullKeyword),
>)
    ensures
        ({
            let ks = strings_view(keywords@);
            let fks = expand_runs(rle_view(full_keywords@));
            let n = zipped_len(ks, rle_view(full_keywords@));
            collapsed_ex_view(out@) == collapse_ex_spec(ks.take(n), fks.take(n))
        }),
        forall|t: int|
            0 <= t < out@.len() ==> ((#[trigger] out@[t]).2 is Same <==> out@[t].0@ == out@[
                t
            ].2.text(out@[t].0@)),
{
    let ghost fks = expand_runs(rle_view(full_keywords@));
    let fk = expand_full_keywords(full_keywords, keywords.len());
    let m = fk.len();
    let ghost ks = strings_view(keywords@).take(m as int);
    let ghost fs = fks.take(m as int);
    let cs = all_chars(keywords);
    proof {
        assert(chars_view(cs@, m as int) =~= ks);
        assert(strings_view(fk@) =~= fs);
        lemma_runs_from(ks, 0);
    }
    let rs = find_runs(&cs, m);
    let ghost rv = runs_view(rs@);
    let mut out: Vec<(String, usize, FullKeyword)> = Vec::new();
    let mut t: usize = 0;
    while t < rs.len()
        invariant
            m == fk@.len() <= keywords@.len() == cs@.len(),
            ks == strings_view(keywords@).take(m as int),
            fs == strings_view(fk@),
            forall|u: int| 0 <= u < keywords@.len() ==> #[trigger] cs@[u]@ == keywords@[u]@,
            rv == runs_view(rs@),
            rv == runs(ks),
            forall|u: int|
                0 <= u < runs(ks).len() ==> {
                    let r = #[trigger] runs(ks)[u];
                    &&& 0 <= r.0 < r.1 <= ks.len()
                },
            t <= rs@.len(),
            collapsed_ex_view(out@) == collapse_ex_spec(ks, fs).take(t as int),
            forall|u: int|
                0 <= u < out@.len() ==> ((#[trigger] out@[u]).2 is Same <==> out@[u].0@
                    == out@[u].2.text(out@[u].0@)),
        decreases rs@.len() - t,
    {
        let (s, e) = rs[t];
        assert(rv[t as int] == (s as int, e as int));
        let kw = &keywords[e - 1];
        let tag = FullKeyword::new(kw.as_str(), fk[e - 1].as_str());
        let ghost prev = out@;
        out.push((kw.clone(), cs[s].len(), tag));
        proof {
            assert(ks[e - 1] == keywords@[e - 1]@);
            assert(ks[s as int] == cs@[s as int]@);
            assert(fs[e - 1] == fk@[e - 1]@);
            assert(collapsed_ex_view(out@) =~= collapsed_ex_view(prev).push(
                (ks[e - 1], ks[s as int].len(), fs[e - 1]),
            ));
            assert(collapse_ex_spec(ks, fs).take(t + 1) =~= collapse_ex_spec(ks, fs).take(
                t as int,
            ).push((ks[e - 1], ks[s as int].len(), fs[e - 1])));
        }
        t += 1;
    }
    proof {
        assert(collapse_ex_spec(ks, fs).take(t as int) =~= collapse_ex_spec(ks, fs));
    }
    out
}

} // verus!
