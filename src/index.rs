//! The suggestion index: dictionary-encoded records, and a byte-keyed store
//! from collapsed keys to what they lead to.
use vstd::prelude::*;
use vstd::string::StringExecFns;
use crate::collapse::{
    collapse_ex_spec, collapse_keywords_ex, collapsed_ex_view, expand_runs, lemma_collapse_min_prefix,
    lemma_expand_prefix, rle_view, strings_view,
};
use crate::common::{
    chars_of, AmpError, AmpResult, AmpResultView, FullKeyword, OriginalAmp, RecordView,
};
use crate::dict::{lemma_utf8_injective, utf8, Dictionary, ID_LIMIT};
use crate::lex::{bytes_lt, lemma_lex_prefix, lemma_lex_total, lemma_lex_transitive, lex_le};
use crate::keys::KeyStore;
use crate::model::{
    admits, answer, best_match, build_keys, effective_full_keywords, insert_first,
    lemma_answer_is_best, record_is_valid, record_keys, records_of, KeyView,
};

verus! {

/// A stored record: dictionary ids, URL suffixes and the block id.
struct CompactSuggestion {
    title_id: u32,
    url_tid: u32,
    url_suffix: String,
    click_tid: u32,
    click_suffix: String,
    imp_tid: u32,
    imp_suffix: String,
    advertiser_id: u32,
    block_id: i32,
    iab_id: u32,
    icon_id: u32,
}

/// What a collapsed key leads to.
struct KeywordMetadata {
    suggestion_idx: usize,
    min_prefix_len: usize,
    full_keyword: FullKeyword,
    collapsed_keyword: String,
}

/// The view of a stored key's metadata.
pub open spec fn entry_view(
    suggestion_idx: usize,
    min_prefix_len: usize,
    full_keyword: FullKeyword,
    collapsed_keyword: String,
) -> KeyView {
    KeyView {
        record: suggestion_idx as nat,
        min_prefix: min_prefix_len as nat,
        full_keyword: full_keyword.text(collapsed_keyword@),
    }
}

/// A prefix suggestion index over a byte-keyed store of collapsed keys.
pub struct AmpIndex<S: KeyStore> {
    keys: S,
    entries: Vec<KeywordMetadata>,
    suggestions: Vec<CompactSuggestion>,
    advertisers: Dictionary,
    titles: Dictionary,
    url_templates: Dictionary,
    click_url_templates: Dictionary,
    impression_url_templates: Dictionary,
    iab_categories: Dictionary,
    icons: Dictionary,
}

impl<S: KeyStore> AmpIndex<S> {
    spec fn meta_view(e: KeywordMetadata) -> KeyView {
        entry_view(e.suggestion_idx, e.min_prefix_len, e.full_keyword, e.collapsed_keyword)
    }

    spec fn suggestion_view(&self, s: CompactSuggestion) -> RecordView {
        RecordView {
            title: self.titles@[s.title_id as int],
            url: self.url_templates@[s.url_tid as int] + s.url_suffix@,
            click_url: self.click_url_templates@[s.click_tid as int] + s.click_suffix@,
            impression_url: self.impression_url_templates@[s.imp_tid as int] + s.imp_suffix@,
            advertiser: self.advertisers@[s.advertiser_id as int],
            block_id: s.block_id,
            iab_category: self.iab_categories@[s.iab_id as int],
            icon: self.icons@[s.icon_id as int],
        }
    }

    spec fn ids_valid(&self, s: CompactSuggestion) -> bool {
        &&& s.title_id < self.titles@.len()
        &&& s.url_tid < self.url_templates@.len()
        &&& s.click_tid < self.click_url_templates@.len()
        &&& s.imp_tid < self.impression_url_templates@.len()
        &&& s.advertiser_id < self.advertisers@.len()
        &&& s.iab_id < self.iab_categories@.len()
        &&& s.icon_id < self.icons@.len()
    }

    /// The stored records, in the order they were added.
    pub closed spec fn records_view(&self) -> Seq<RecordView> {
        Seq::new(self.suggestions@.len(), |i: int| self.suggestion_view(self.suggestions@[i]))
    }

    /// The indexed keys (UTF-8 bytes of collapsed keywords), each with what it
    /// leads to.
    pub closed spec fn keys_view(&self) -> Map<Seq<u8>, KeyView> {
        Map::new(
            |k: Seq<u8>| self.keys.key_map().contains_key(k),
            |k: Seq<u8>| Self::meta_view(self.entries@[self.keys.key_map()[k] as int]),
        )
    }

    spec fn dicts_wf(&self) -> bool {
        &&& self.advertisers.wf()
        &&& self.titles.wf()
        &&& self.url_templates.wf()
        &&& self.click_url_templates.wf()
        &&& self.impression_url_templates.wf()
        &&& self.iab_categories.wf()
        &&& self.icons.wf()
        &&& self.advertisers@.len() <= self.suggestions@.len()
        &&& self.titles@.len() <= self.suggestions@.len()
        &&& self.url_templates@.len() <= self.suggestions@.len()
        &&& self.click_url_templates@.len() <= self.suggestions@.len()
        &&& self.impression_url_templates@.len() <= self.suggestions@.len()
        &&& self.iab_categories@.len() <= self.suggestions@.len()
        &&& self.icons@.len() <= self.suggestions@.len()
    }

    spec fn keys_wf(&self) -> bool {
        &&& self.keys.inv()
        &&& self.keys.key_map().dom().finite()
        &&& self.entries@.len() == self.keys.key_map().dom().len()
        &&& forall|k: Seq<u8>| #[trigger]
            self.keys.key_map().contains_key(k) ==> {
                let v = self.keys.key_map()[k] as int;
                &&& 0 <= v < self.entries@.len()
                &&& utf8(self.entries@[v].collapsed_keyword@) == k
                &&& self.entries@[v].suggestion_idx < self.suggestions@.len()
                &&& self.entries@[v].min_prefix_len <= self.entries@[v].collapsed_keyword@.len()
            }
    }

    /// The dictionaries and the trie agree with the stored records.
    pub closed spec fn wf(&self) -> bool {
        &&& self.dicts_wf()
        &&& self.suggestions@.len() <= ID_LIMIT
        &&& forall|i: int| 0 <= i < self.suggestions@.len() ==> self.ids_valid(#[trigger] self.suggestions@[i])
        &&& self.keys_wf()
    }

    /// An empty index.
    pub fn new() -> (r: AmpIndex<S>)
        ensures
            r.wf(),
            r.records_view() == Seq::<RecordView>::empty(),
            r.keys_view() == Map::<Seq<u8>, KeyView>::empty(),
    {
        let r = AmpIndex {
            keys: S::empty(),
            entries: Vec::new(),
            suggestions: Vec::new(),
            advertisers: Dictionary::new(),
            titles: Dictionary::new(),
            url_templates: Dictionary::new(),
            click_url_templates: Dictionary::new(),
            impression_url_templates: Dictionary::new(),
            iab_categories: Dictionary::new(),
            icons: Dictionary::new(),
        };
        assert(r.records_view() =~= Seq::<RecordView>::empty());
        assert(r.keys_view() =~= Map::<Seq<u8>, KeyView>::empty());
        r
    }
}

/// `b` keeps every entry of `a` where it was.
pub open spec fn extends_seq<T>(a: Seq<T>, b: Seq<T>) -> bool {
    &&& a.len() <= b.len()
    &&& forall|i: int| 0 <= i < a.len() ==> b[i] == a[i]
}

impl<S: KeyStore> AmpIndex<S> {
    /// A record stays the same while the dictionaries only grow.
    proof fn lemma_grown_dicts(&self, other: &Self, s: CompactSuggestion)
        requires
            self.ids_valid(s),
            extends_seq(self.titles@, other.titles@),
            extends_seq(self.url_templates@, other.url_templates@),
            extends_seq(self.click_url_templates@, other.click_url_templates@),
            extends_seq(self.impression_url_templates@, other.impression_url_templates@),
            extends_seq(self.advertisers@, other.advertisers@),
            extends_seq(self.iab_categories@, other.iab_categories@),
            extends_seq(self.icons@, other.icons@),
        ensures
            other.ids_valid(s),
            other.suggestion_view(s) == self.suggestion_view(s),
    {
    }

    /// Intern the metadata of `amp` and store it as a new record, whose
    /// position is returned.
    fn add_suggestion(&mut self, amp: &OriginalAmp) -> (sidx: usize)
        requires
            old(self).wf(),
            old(self).suggestions@.len() < ID_LIMIT,
        ensures
            final(self).wf(),
            sidx == old(self).records_view().len(),
            final(self).records_view() == old(self).records_view().push(amp@),
            final(self).keys_view() == old(self).keys_view(),
            final(self).suggestions@.len() == old(self).suggestions@.len() + 1,
    {
        let ghost pre = *self;
        let advertiser_id = self.advertisers.intern(amp.advertiser.as_str());
        let title_id = self.titles.intern(amp.title.as_str());
        let iab_id = self.iab_categories.intern(amp.iab_category.as_str());
        let icon_id = self.icons.intern(amp.icon_id.as_str());
        let (url_tid, url_suffix) = crate::dict::extract_template(
            amp.url.as_str(),
            &mut self.url_templates,
        );
        let (click_tid, click_suffix) = crate::dict::extract_template(
            amp.click_url.as_str(),
            &mut self.click_url_templates,
        );
        let (imp_tid, imp_suffix) = crate::dict::extract_template(
            amp.impression_url.as_str(),
            &mut self.impression_url_templates,
        );
        let sidx = self.suggestions.len();
        let s = CompactSuggestion {
            title_id,
            url_tid,
            url_suffix,
            click_tid,
            click_suffix,
            imp_tid,
            imp_suffix,
            advertiser_id,
            block_id: amp.block_id,
            iab_id,
            icon_id,
        };
        self.suggestions.push(s);
        proof {
            assert(extends_seq(pre.titles@, self.titles@));
            assert(extends_seq(pre.url_templates@, self.url_templates@));
            assert(extends_seq(pre.click_url_templates@, self.click_url_templates@));
            assert(extends_seq(pre.impression_url_templates@, self.impression_url_templates@));
            assert(extends_seq(pre.advertisers@, self.advertisers@));
            assert(extends_seq(pre.iab_categories@, self.iab_categories@));
            assert(extends_seq(pre.icons@, self.icons@));
            assert forall|i: int| 0 <= i < pre.suggestions@.len() implies self.ids_valid(
                #[trigger] self.suggestions@[i],
            ) && self.suggestion_view(self.suggestions@[i]) == pre.suggestion_view(
                pre.suggestions@[i],
            ) by {
                assert(self.suggestions@[i] == pre.suggestions@[i]);
                pre.lemma_grown_dicts(self, pre.suggestions@[i]);
            }
            let u = choose|k: int| #![trigger crate::dict::is_template_split(amp.url@, k)]
                crate::dict::is_template_split(amp.url@, k) && 0 <= k <= amp.url@.len()
                    && self.url_templates@[url_tid as int] == amp.url@.take(k)
                    && url_suffix@ == amp.url@.skip(k);
            assert(amp.url@ =~= amp.url@.take(u) + amp.url@.skip(u));
            let c = choose|k: int| #![trigger crate::dict::is_template_split(amp.click_url@, k)]
                crate::dict::is_template_split(amp.click_url@, k) && 0 <= k <= amp.click_url@.len()
                    && self.click_url_templates@[click_tid as int] == amp.click_url@.take(k)
                    && click_suffix@ == amp.click_url@.skip(k);
            assert(amp.click_url@ =~= amp.click_url@.take(c) + amp.click_url@.skip(c));
            let m = choose|k: int| #![trigger crate::dict::is_template_split(amp.impression_url@, k)]
                crate::dict::is_template_split(amp.impression_url@, k) && 0 <= k
                    <= amp.impression_url@.len() && self.impression_url_templates@[imp_tid as int]
                    == amp.impression_url@.take(k) && imp_suffix@ == amp.impression_url@.skip(k);
            assert(amp.impression_url@ =~= amp.impression_url@.take(m) + amp.impression_url@.skip(
                m,
            ));
            assert(self.suggestion_view(self.suggestions@[sidx as int]) == amp@);
            assert(self.records_view() =~= pre.records_view().push(amp@));
            assert(self.keys_view() =~= pre.keys_view());
        }
        sidx
    }

    /// Index `kw` for record `sidx`, unless its key is already present.
    fn add_key(&mut self, kw: String, min_prefix_len: usize, full_keyword: FullKeyword, sidx: usize)
        requires
            old(self).wf(),
            sidx < old(self).suggestions@.len(),
            min_prefix_len <= kw@.len(),
        ensures
            final(self).wf(),
            final(self).records_view() == old(self).records_view(),
            final(self).suggestions@.len() == old(self).suggestions@.len(),
            final(self).keys_view() == (if old(self).keys_view().contains_key(utf8(kw@)) {
                old(self).keys_view()
            } else {
                old(self).keys_view().insert(
                    utf8(kw@),
                    entry_view(sidx, min_prefix_len, full_keyword, kw),
                )
            }),
    {
        let ghost pre = *self;
        let ghost key = utf8(kw@);
        match self.keys.find(kw.as_str()) {
            Some(_) => {},
            None => {
                let idx = self.entries.len();
                let ghost kv = entry_view(sidx, min_prefix_len, full_keyword, kw);
                self.keys.add(kw.as_str(), idx);
                self.entries.push(
                    KeywordMetadata {
                        suggestion_idx: sidx,
                        min_prefix_len,
                        full_keyword,
                        collapsed_keyword: kw,
                    },
                );
                proof {
                    assert forall|k: Seq<u8>| #[trigger]
                        self.keys.key_map().contains_key(k) && k != key implies self.keys.key_map()[k]
                        < pre.entries@.len() && self.entries@[self.keys.key_map()[k] as int]
                        == pre.entries@[pre.keys.key_map()[k] as int] by {
                        assert(pre.keys.key_map().contains_key(k));
                    }
                    assert(self.keys_view() =~= pre.keys_view().insert(key, kv));
                    assert(self.records_view() =~= pre.records_view());
                }
            },
        }
    }

    /// Index the collapsed keys of `amp`, stored at position `sidx`.
    fn index_record(&mut self, amp: &OriginalAmp, sidx: usize)
        requires
            old(self).wf(),
            sidx < old(self).suggestions@.len(),
            record_is_valid(*amp),
        ensures
            final(self).wf(),
            final(self).records_view() == old(self).records_view(),
            final(self).suggestions@.len() == old(self).suggestions@.len(),
            final(self).keys_view() == insert_first(
                old(self).keys_view(),
                record_keys(*amp, sidx as nat),
            ),
    {
        let ghost ks = strings_view(amp.keywords@);
        let ghost fks = expand_runs(effective_full_keywords(*amp));
        let collapsed = if amp.full_keywords.len() == 0 {
            let fallback = vec![(amp.advertiser.clone(), amp.keywords.len())];
            proof {
                let f = rle_view(fallback@);
                assert(f.drop_last() =~= Seq::<(Seq<char>, nat)>::empty());
                assert(f =~= effective_full_keywords(*amp));
                assert(expand_runs(f.drop_last()).len() == 0);
                assert(expand_runs(f).len() == amp.keywords@.len());
            }
            collapse_keywords_ex(amp.keywords.as_slice(), fallback.as_slice())
        } else {
            collapse_keywords_ex(amp.keywords.as_slice(), amp.full_keywords.as_slice())
        };
        proof {
            assert(fks.len() == ks.len());
            assert(ks.take(ks.len() as int) =~= ks);
            assert(fks.take(ks.len() as int) =~= fks);
            lemma_collapse_min_prefix(ks, fks);
        }
        let ghost rk = record_keys(*amp, sidx as nat);
        let ghost k0 = self.keys_view();
        let ghost cv = collapsed_ex_view(collapsed@);
        assert(cv == collapse_ex_spec(ks, fks));
        for e in it: collapsed
            invariant
                self.wf(),
                sidx < self.suggestions@.len(),
                self.records_view() == old(self).records_view(),
                self.suggestions@.len() == old(self).suggestions@.len(),
                it.seq() == collapsed@,
                cv == collapsed_ex_view(collapsed@),
                cv == collapse_ex_spec(ks, fks),
                rk == record_keys(*amp, sidx as nat),
                rk == cv.map_values(
                    |e: (Seq<char>, nat, Seq<char>)|
                        (utf8(e.0), KeyView { record: sidx as nat, min_prefix: e.1, full_keyword: e.2 }),
                ),
                forall|t: int| 0 <= t < cv.len() ==> (#[trigger] cv[t]).1 <= cv[t].0.len(),
                self.keys_view() == insert_first(k0, rk.take(it.index() as int)),
        {
            let (kw, m, fk) = e;
            let ghost t = it.index() as int;
            proof {
                assert(collapsed@[t] == (kw, m, fk));
                assert(cv[t] == (kw@, m as nat, fk.text(kw@)));
                assert(rk.take(t + 1).drop_last() =~= rk.take(t));
                assert(rk.take(t + 1).last() == rk[t]);
            }
            self.add_key(kw, m, fk, sidx);
        }
        proof {
            assert(rk.take(rk.len() as int) =~= rk);
        }
    }

    /// Add `amps` to the index, in order. The whole input is rejected, and
    /// the index left as it was, when the index would then hold more than
    /// `ID_LIMIT` records (a dictionary gains at most one string per record,
    /// so below that its `u32` ids cannot run out), or when a record's full
    /// keywords are present but do not expand to one per keyword. Otherwise
    /// each record is stored and each of its collapsed keys is indexed, unless
    /// an earlier key is the same; a record without full keywords shows its
    /// advertiser as the full keyword of each of its keys.
    pub fn build(&mut self, amps: &[OriginalAmp]) -> (r: Result<(), AmpError>)
        requires
            old(self).wf(),
        ensures
            final(self).wf(),
            ({
                let before = old(self).records_view().len();
                if before + amps@.len() > ID_LIMIT {
                    r == Err::<(), AmpError>(AmpError::BuildCapacityExceeded) && *final(self)
                        == *old(self)
                } else if exists|i: int| 0 <= i < amps@.len() && !record_is_valid(#[trigger] amps@[i]) {
                    r == Err::<(), AmpError>(AmpError::InputMalformed) && *final(self) == *old(self)
                } else {
                    &&& r == Ok::<(), AmpError>(())
                    &&& final(self).records_view() == old(self).records_view() + records_of(amps@)
                    &&& final(self).keys_view() == build_keys(old(self).keys_view(), amps@, before)
                }
            }),
    {
        let base = self.suggestions.len();
        assert(base == self.records_view().len());
        if amps.len() as u64 > ID_LIMIT - base as u64 {
            return Err(AmpError::BuildCapacityExceeded);
        }
        let mut v: usize = 0;
        while v < amps.len()
            invariant
                *self == *old(self),
                self.wf(),
                base == old(self).records_view().len(),
                base + amps@.len() <= ID_LIMIT,
                v <= amps@.len(),
                forall|i: int| 0 <= i < v ==> record_is_valid(#[trigger] amps@[i]),
            decreases amps@.len() - v,
        {
            if !record_valid(&amps[v]) {
                return Err(AmpError::InputMalformed);
            }
            v += 1;
        }
        let ghost k_old = self.keys_view();
        let ghost r_old = self.records_view();
        let mut t: usize = 0;
        while t < amps.len()
            invariant
                self.wf(),
                base == r_old.len(),
                base + amps@.len() <= ID_LIMIT,
                forall|i: int| 0 <= i < amps@.len() ==> record_is_valid(#[trigger] amps@[i]),
                t <= amps@.len(),
                self.suggestions@.len() == base + t,
                self.records_view() == r_old + records_of(amps@.take(t as int)),
                self.keys_view() == build_keys(k_old, amps@.take(t as int), base as nat),
            decreases amps@.len() - t,
        {
            let sidx = self.add_suggestion(&amps[t]);
            self.index_record(&amps[t], sidx);
            proof {
                let pre = amps@.take(t as int);
                let post = amps@.take(t + 1);
                assert(post.drop_last() =~= pre);
                assert(post.last() == amps@[t as int]);
                assert(records_of(post) =~= records_of(pre).push(amps@[t as int]@));
                assert(r_old + records_of(post) =~= (r_old + records_of(pre)).push(amps@[t as int]@));
            }
            t += 1;
        }
        proof {
            assert(amps@.take(amps@.len() as int) =~= amps@);
        }
        let ghost before_seal = *self;
        self.keys.seal();
        assert(self.keys_view() =~= before_seal.keys_view());
        assert(self.records_view() =~= before_seal.records_view());
        Ok(())
    }
}

/// A URL from its template id and suffix: the template followed by the
/// suffix, or the suffix alone when the id is unknown.
fn reconstruct_url(template_id: u32, suffix: &String, templates: &Dictionary) -> (r: String)
    ensures
        r@ == (if template_id < templates@.len() {
            templates@[template_id as int] + suffix@
        } else {
            suffix@
        }),
{
    match templates.get(template_id) {
        Some(t) => t.clone().concat(suffix.as_str()),
        None => suffix.clone(),
    }
}

/// The string with id `id`, or an empty one when the id is unknown.
fn lookup_or_empty(d: &Dictionary, id: u32) -> (r: String)
    ensures
        id < d@.len() ==> r@ == d@[id as int],
{
    match d.get(id) {
        Some(s) => s.clone(),
        None => String::new(),
    }
}

impl<S: KeyStore> AmpIndex<S> {
    /// The result for a stored key: its record, rebuilt from the
    /// dictionaries, and its full keyword.
    fn build_result(&self, meta: &KeywordMetadata) -> (r: AmpResult)
        requires
            self.wf(),
            meta.suggestion_idx < self.suggestions@.len(),
        ensures
            r@ == (AmpResultView {
                record: self.records_view()[meta.suggestion_idx as int],
                full_keyword: meta.full_keyword.text(meta.collapsed_keyword@),
            }),
    {
        let sug = &self.suggestions[meta.suggestion_idx];
        assert(self.ids_valid(self.suggestions@[meta.suggestion_idx as int]));
        let r = AmpResult {
            title: lookup_or_empty(&self.titles, sug.title_id),
            url: reconstruct_url(sug.url_tid, &sug.url_suffix, &self.url_templates),
            click_url: reconstruct_url(sug.click_tid, &sug.click_suffix, &self.click_url_templates),
            impression_url: reconstruct_url(
                sug.imp_tid,
                &sug.imp_suffix,
                &self.impression_url_templates,
            ),
            advertiser: lookup_or_empty(&self.advertisers, sug.advertiser_id),
            block_id: sug.block_id,
            iab_category: lookup_or_empty(&self.iab_categories, sug.iab_id),
            icon: lookup_or_empty(&self.icons, sug.icon_id),
            full_keyword: meta.full_keyword.full_keyword(meta.collapsed_keyword.as_str()),
        };
        assert(r@.record == self.records_view()[meta.suggestion_idx as int]);
        r
    }

    /// The suggestions for `query`: none when no indexed key may answer it;
    /// else the one that the lexicographically smallest such key leads to. A
    /// key may answer when it begins with the query's bytes and the query has
    /// at least the key's min-prefix characters.
    pub fn query(&self, query: &str) -> (r: Result<Vec<AmpResult>, AmpError>)
        requires
            self.wf(),
        ensures
            r is Ok,
            r matches Ok(v) && match answer(self.keys_view(), self.records_view(), query@) {
                None => v@.len() == 0,
                Some(a) => v@.len() == 1 && v@[0]@ == a,
            },
            r matches Ok(v) && (v@.len() == 1 ==> exists|k: Seq<u8>|
                #[trigger] best_match(self.keys_view(), query@, k) && v@[0]@ == (AmpResultView {
                    record: self.records_view()[self.keys_view()[k].record as int],
                    full_keyword: self.keys_view()[k].full_keyword,
                })),
    {
        let ghost keys = self.keys_view();
        let ghost q = query@;
        let ghost qb = utf8(q);
        let qlen = chars_of(query).len();
        match self.keys.find(query) {
            Some(v) => {
                let meta = &self.entries[v];
                if meta.min_prefix_len <= qlen {
                    proof {
                        assert(keys.contains_key(qb));
                        assert(utf8(q).is_prefix_of(qb));
                        assert forall|k2: Seq<u8>| #[trigger] admits(keys, q, k2) implies lex_le(
                            qb,
                            k2,
                        ) by {
                            lemma_lex_prefix(qb, k2);
                        }
                        assert(best_match(keys, q, qb));
                        lemma_answer_is_best(keys, self.records_view(), q, qb);
                    }
                    let res = self.build_result(meta);
                    return Ok(vec![res]);
                }
            },
            None => {},
        }
        let cands = self.keys.with_prefix(query);
        let mut best: Option<usize> = None;
        let mut t: usize = 0;
        while t < cands.len()
            invariant
                self.wf(),
                keys == self.keys_view(),
                q == query@,
                qb == utf8(q),
                qlen == q.len(),
                t <= cands@.len(),
                forall|i: int|
                    0 <= i < cands@.len() ==> {
                        &&& utf8(q).is_prefix_of(#[trigger] cands@[i].0@)
                        &&& self.keys.key_map().contains_key(cands@[i].0@)
                        &&& self.keys.key_map()[cands@[i].0@] == cands@[i].1
                    },
                match best {
                    Some(b) => {
                        &&& b < t
                        &&& admits(keys, q, cands@[b as int].0@)
                        &&& forall|j: int|
                            0 <= j < t && admits(keys, q, #[trigger] cands@[j].0@) ==> lex_le(
                                cands@[b as int].0@,
                                cands@[j].0@,
                            )
                    },
                    None => forall|j: int| 0 <= j < t ==> !admits(keys, q, #[trigger] cands@[j].0@),
                },
            decreases cands@.len() - t,
        {
            let (ref k, v) = cands[t];
            assert(keys[k@] == Self::meta_view(self.entries@[v as int]));
            if self.entries[v].min_prefix_len <= qlen {
                let better = match best {
                    None => true,
                    Some(b) => bytes_lt(k.as_slice(), cands[b].0.as_slice()),
                };
                if better {
                    proof {
                        if let Some(b) = best {
                            assert forall|j: int|
                                0 <= j <= t && admits(keys, q, #[trigger] cands@[j].0@) implies lex_le(
                                k@,
                                cands@[j].0@,
                            ) by {
                                if j < t {
                                    if cands@[b as int].0@ != cands@[j].0@ {
                                        lemma_lex_transitive(k@, cands@[b as int].0@, cands@[j].0@);
                                    }
                                }
                            }
                        }
                    }
                    best = Some(t);
                } else {
                    proof {
                        let b = best.unwrap();
                        lemma_lex_total(k@, cands@[b as int].0@);
                    }
                }
            }
            t += 1;
        }
        match best {
            Some(b) => {
                let v = cands[b].1;
                proof {
                    let kb = cands@[b as int].0@;
                    assert forall|k2: Seq<u8>| #[trigger] admits(keys, q, k2) implies lex_le(
                        kb,
                        k2,
                    ) by {
                        let j = choose|j: int| 0 <= j < cands@.len() && cands@[j].0@ == k2;
                    }
                    assert(best_match(keys, q, kb));
                    lemma_answer_is_best(keys, self.records_view(), q, kb);
                }
                let res = self.build_result(&self.entries[v]);
                Ok(vec![res])
            },
            None => {
                proof {
                    assert forall|k2: Seq<u8>| !admits(keys, q, k2) by {
                        if admits(keys, q, k2) {
                            let j = choose|j: int| 0 <= j < cands@.len() && cands@[j].0@ == k2;
                        }
                    }
                }
                Ok(Vec::new())
            },
        }
    }
}

impl<S: KeyStore> AmpIndex<S> {
    /// Querying with the text of an indexed key answers with what that key
    /// leads to: the key itself is the best match.
    pub proof fn lemma_indexed_key_answers(&self, k: Seq<char>)
        requires
            self.wf(),
            self.keys_view().contains_key(utf8(k)),
        ensures
            best_match(self.keys_view(), k, utf8(k)),
            answer(self.keys_view(), self.records_view(), k) == Some(
                AmpResultView {
                    record: self.records_view()[self.keys_view()[utf8(k)].record as int],
                    full_keyword: self.keys_view()[utf8(k)].full_keyword,
                },
            ),
    {
        let keys = self.keys_view();
        let kb = utf8(k);
        let v = self.keys.key_map()[kb] as int;
        lemma_utf8_injective(self.entries@[v].collapsed_keyword@, k);
        assert(kb.is_prefix_of(kb));
        assert forall|k2: Seq<u8>| #[trigger] admits(keys, k, k2) implies lex_le(kb, k2) by {
            lemma_lex_prefix(kb, k2);
        }
        lemma_answer_is_best(keys, self.records_view(), k, kb);
    }
}

/// A named counter.
fn counter(name: &str, value: usize) -> (r: (String, usize))
    ensures
        r.0@ == name@,
        r.1 == value,
{
    (name.to_string(), value)
}

impl<S: KeyStore> AmpIndex<S> {
    /// Sizes of the dictionaries: advertisers, titles, URL templates, IAB
    /// categories and icons.
    pub closed spec fn dictionary_sizes(&self) -> Seq<nat> {
        seq![
            self.advertisers@.len(),
            self.titles@.len(),
            self.url_templates@.len(),
            self.iab_categories@.len(),
            self.icons@.len(),
        ]
    }

    /// Diagnostic counters, by name: the number of keys and of records, and
    /// the sizes of the dictionaries.
    pub fn stats(&self) -> (r: Vec<(String, usize)>)
        requires
            self.wf(),
        ensures
            r@.len() == 7,
            r@[0].0@ == "keyword_count"@ && r@[0].1 == self.keys_view().dom().len(),
            r@[1].0@ == "suggestions_count"@ && r@[1].1 == self.records_view().len(),
            r@[2].0@ == "advertisers_count"@ && r@[2].1 == self.dictionary_sizes()[0],
            r@[3].0@ == "titles_count"@ && r@[3].1 == self.dictionary_sizes()[1],
            r@[4].0@ == "url_templates_count"@ && r@[4].1 == self.dictionary_sizes()[2],
            r@[5].0@ == "iab_categories_count"@ && r@[5].1 == self.dictionary_sizes()[3],
            r@[6].0@ == "icons_count"@ && r@[6].1 == self.dictionary_sizes()[4],
    {
        assert(self.keys_view().dom() =~= self.keys.key_map().dom());
        let mut r: Vec<(String, usize)> = Vec::new();
        r.push(counter("keyword_count", self.entries.len()));
        r.push(counter("suggestions_count", self.suggestions.len()));
        r.push(counter("advertisers_count", self.advertisers.len()));
        r.push(counter("titles_count", self.titles.len()));
        r.push(counter("url_templates_count", self.url_templates.len()));
        r.push(counter("iab_categories_count", self.iab_categories.len()));
        r.push(counter("icons_count", self.icons.len()));
        r
    }
}

/// Whether the full keywords of `amp` are absent, or expand to exactly one
/// per keyword.
fn record_valid(amp: &OriginalAmp) -> (r: bool)
    ensures
        r == record_is_valid(*amp),
{
    if amp.full_keywords.len() == 0 {
        return true;
    }
    let fk = amp.full_keywords.as_slice();
    let n = amp.keywords.len();
    let ghost f = rle_view(fk@);
    let mut total: usize = 0;
    let mut p: usize = 0;
    proof {
        assert(f.take(0) =~= Seq::<(Seq<char>, nat)>::empty());
    }
    while p < fk.len()
        invariant
            f == rle_view(fk@),
            fk@ == amp.full_keywords@,
            fk@.len() > 0,
            n == amp.keywords@.len(),
            p <= fk@.len(),
            total <= n,
            total == expand_runs(f.take(p as int)).len(),
        decreases fk@.len() - p,
    {
        let c = fk[p].1;
        proof {
            assert(f.take(p + 1).drop_last() =~= f.take(p as int));
            assert(f.take(p + 1).last() == f[p as int]);
            assert(expand_runs(f.take(p + 1)).len() == total + c);
        }
        if c > n - total {
            proof {
                lemma_expand_prefix(f, p + 1, fk@.len() as int);
                assert(f.take(fk@.len() as int) =~= f);
            }
            return false;
        }
        total += c;
        p += 1;
    }
    proof {
        assert(f.take(fk@.len() as int) =~= f);
    }
    total == n
}

} // verus!
