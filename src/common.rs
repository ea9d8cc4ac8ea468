//! Data types shared by the index and the keyword collapser.
use vstd::prelude::*;

verus! {

/// The characters of `s`, in order.
pub fn chars_of(s: &str) -> (r: Vec<char>)
    ensures
        r@ == s@,
{
    let mut r: Vec<char> = Vec::new();
    for c in it: s.chars()
        invariant
            r@ == it.seq().take(it.index() as int),
            it.seq() == s@,
    {
        r.push(c);
    }
    r
}

/// Full keyword attached to a collapsed keyword.
#[derive(Debug, Clone)]
pub enum FullKeyword {
    /// The full keyword equals the collapsed keyword.
    Same,
    /// The full keyword differs from the collapsed keyword, and is stored here.
    Different(String),
}

impl FullKeyword {
    /// The full keyword text, given the collapsed keyword it belongs to.
    pub open spec fn text(self, keyword: Seq<char>) -> Seq<char> {
        match self {
            FullKeyword::Same => keyword,
            FullKeyword::Different(fw) => fw@,
        }
    }

    /// Tag `full_keyword` relative to `keyword`.
    pub fn new(keyword: &str, full_keyword: &str) -> (r: FullKeyword)
        ensures
            r.text(keyword@) == full_keyword@,
            r is Same <==> keyword@ == full_keyword@,
    {
        let a = keyword.to_string();
        let b = full_keyword.to_string();
        if a == b {
            FullKeyword::Same
        } else {
            FullKeyword::Different(b)
        }
    }

    /// The full keyword text, given the collapsed keyword it belongs to.
    pub fn full_keyword(&self, keyword: &str) -> (r: String)
        ensures
            r@ == self.text(keyword@),
    {
        match self {
            FullKeyword::Same => keyword.to_string(),
            FullKeyword::Different(fw) => fw.clone(),
        }
    }
}


/// An input record: a suggestion with its keywords and metadata.
#[derive(Debug, Clone)]
pub struct OriginalAmp {
    pub keywords: Vec<String>,
    pub title: String,
    pub url: String,
    /// Run-length list of full keywords, parallel to `keywords` once expanded.
    pub full_keywords: Vec<(String, usize)>,
    pub advertiser: String,
    pub block_id: i32,
    pub iab_category: String,
    pub click_url: String,
    pub impression_url: String,
    pub icon_id: String,
}

/// A query result.
#[derive(Debug, Clone)]
pub struct AmpResult {
    pub title: String,
    pub url: String,
    pub click_url: String,
    pub impression_url: String,
    pub advertiser: String,
    pub block_id: i32,
    pub iab_category: String,
    pub icon: String,
    pub full_keyword: String,
}

/// The metadata of a suggestion, as plain values.
pub struct RecordView {
    pub title: Seq<char>,
    pub url: Seq<char>,
    pub click_url: Seq<char>,
    pub impression_url: Seq<char>,
    pub advertiser: Seq<char>,
    pub block_id: i32,
    pub iab_category: Seq<char>,
    pub icon: Seq<char>,
}

/// A query result, as plain values.
pub struct AmpResultView {
    pub record: RecordView,
    pub full_keyword: Seq<char>,
}

impl View for OriginalAmp {
    type V = RecordView;

    open spec fn view(&self) -> RecordView {
        RecordView {
            title: self.title@,
            url: self.url@,
            click_url: self.click_url@,
            impression_url: self.impression_url@,
            advertiser: self.advertiser@,
            block_id: self.block_id,
            iab_category: self.iab_category@,
            icon: self.icon_id@,
        }
    }
}

impl View for AmpResult {
    type V = AmpResultView;

    open spec fn view(&self) -> AmpResultView {
        AmpResultView {
            record: RecordView {
                title: self.title@,
                url: self.url@,
                click_url: self.click_url@,
                impression_url: self.impression_url@,
                advertiser: self.advertiser@,
                block_id: self.block_id,
                iab_category: self.iab_category@,
                icon: self.icon@,
            },
            full_keyword: self.full_keyword@,
        }
    }
}

/// What can go wrong at the boundary of `build` or `query`.
#[derive(Debug, Clone, Copy, PartialEq, Eq, Structural)]
pub enum AmpError {
    /// A record is structurally invalid.
    InputMalformed,
    /// A dictionary would run out of `u32` ids.
    BuildCapacityExceeded,
    /// Reserved: no query is rejected.
    QueryInvalid,
}

} // verus!
