use rethink_about_amp::{AmpError, AmpResult, HybridAmpIndex, OriginalAmp};

fn strings(items: &[&str]) -> Vec<String> {
    items.iter().map(|s| s.to_string()).collect()
}

fn amp(keywords: &[&str], full_keywords: &[(&str, usize)], advertiser: &str, url: &str, id: i32) -> OriginalAmp {
    OriginalAmp {
        keywords: strings(keywords),
        title: format!("{} title", advertiser),
        url: url.to_string(),
        full_keywords: full_keywords.iter().map(|(k, n)| (k.to_string(), *n)).collect(),
        advertiser: advertiser.to_string(),
        block_id: id,
        iab_category: "22 - Shopping".to_string(),
        click_url: format!("https://click.example.com/c?id={}", id),
        impression_url: format!("https://imp.example.com/i?id={}", id),
        icon_id: format!("icon-{}", id),
    }
}

fn built(amps: &[OriginalAmp]) -> HybridAmpIndex {
    let mut index = HybridAmpIndex::new();
    index.build(amps).expect("build failed");
    index
}

fn one(index: &HybridAmpIndex, q: &str) -> Option<AmpResult> {
    let mut r = index.query(q).expect("query failed");
    assert!(r.len() <= 1);
    r.pop()
}

fn amazon() -> OriginalAmp {
    amp(
        &["am", "ama", "amaz", "amazo", "amazon"],
        &[("amazon", 5)],
        "Amazon",
        "https://www.amazon.com/x?tag=a",
        10,
    )
}

#[test]
fn single_suggestion_run_collapsing() {
    let a = amazon();
    let collapsed = rethink_about_amp::collapse_keywords(&a.keywords);
    assert_eq!(collapsed, vec![("amazon".to_string(), 2)]);
    let index = built(&[a]);
    for q in ["am", "ama", "amaz", "amazo", "amazon"] {
        let r = one(&index, q).expect("expected a result");
        assert!(r.url.contains("amazon.com"));
        assert_eq!(r.url, "https://www.amazon.com/x?tag=a");
        assert_eq!(r.advertiser, "Amazon");
        assert_eq!(r.full_keyword, "amazon");
    }
}

#[test]
fn min_prefix_rejection() {
    let index = built(&[amazon()]);
    assert!(one(&index, "a").is_none());
}

#[test]
fn no_match() {
    let index = built(&[amazon()]);
    assert!(one(&index, "k c").is_none());
}

#[test]
fn multi_word_prefix() {
    let w = amp(&["k cup", "k cups"], &[("k cups", 2)], "Wayfair", "https://www.wayfair.com/k?ref=1", 20);
    let index = built(&[amazon(), w]);
    let r = one(&index, "k cup").expect("expected Wayfair");
    assert_eq!(r.advertiser, "Wayfair");
    assert!(r.url.contains("www.wayfair.com"));
    assert!(one(&index, "k c").is_none());
}

#[test]
fn trailing_space_prefix() {
    let h = amp(
        &["mini ", "mini s", "mini sp", "mini spa"],
        &[("mini spa", 4)],
        "Spa Co",
        "https://www.spa.com/m?x=1",
        30,
    );
    assert_eq!(
        rethink_about_amp::collapse_keywords(&h.keywords),
        vec![("mini spa".to_string(), 5)]
    );
    let index = built(&[h]);
    assert_eq!(one(&index, "mini ").expect("result").advertiser, "Spa Co");
    assert_eq!(one(&index, "mini s").expect("result").advertiser, "Spa Co");
    assert!(one(&index, "mini x").is_none());
    assert!(one(&index, "mini").is_none());
}

#[test]
fn duplicate_key_first_inserter_wins() {
    let first = amp(&["fr", "fre", "free"], &[("free stuff", 3)], "First", "https://first.com/a?b", 1);
    let second = amp(&["free", "other"], &[("free things", 2)], "Second", "https://second.com/a?b", 2);
    let index = built(&[first, second]);
    let r = one(&index, "free").expect("result");
    assert_eq!(r.advertiser, "First");
    assert_eq!(r.block_id, 1);
    assert_eq!(r.full_keyword, "free stuff");
    assert_eq!(one(&index, "other").expect("result").advertiser, "Second");
}

#[test]
fn short_query_below_every_min_prefix_is_empty() {
    let a = amp(&["abc", "abcd"], &[("abcd", 2)], "A", "https://a.com/x", 1);
    let b = amp(&["abz", "abzz"], &[("abzz", 2)], "B", "https://b.com/x", 2);
    let index = built(&[a, b]);
    assert!(one(&index, "ab").is_none());
    assert_eq!(one(&index, "abc").expect("result").advertiser, "A");
}

#[test]
fn every_indexed_key_finds_its_owner() {
    let recs = vec![
        amazon(),
        amp(&["k cup", "k cups", "kettle"], &[("k cups", 2), ("kettle", 1)], "Wayfair", "https://w.com/k?r", 2),
        amp(&["café", "cafés"], &[("café", 2)], "Cafe", "https://c.com/c?x", 3),
    ];
    let index = built(&recs);
    for r in &recs {
        for (key, _) in rethink_about_amp::collapse_keywords(&r.keywords) {
            let res = one(&index, &key).expect("every key answers");
            assert_eq!(res.advertiser, r.advertiser);
            assert_eq!(res.title, r.title);
            assert_eq!(res.block_id, r.block_id);
            assert_eq!(res.iab_category, r.iab_category);
            assert_eq!(res.icon, r.icon_id);
            assert_eq!(res.url, r.url);
            assert_eq!(res.click_url, r.click_url);
            assert_eq!(res.impression_url, r.impression_url);
        }
    }
}

#[test]
fn building_twice_answers_alike() {
    let recs = vec![
        amazon(),
        amp(&["k cup", "k cups"], &[("k cups", 2)], "Wayfair", "https://w.com/k?r", 2),
    ];
    let a = built(&recs);
    let b = built(&recs);
    for q in ["", "a", "am", "amazon", "k", "k c", "k cup", "k cups", "zzz"] {
        let ra = one(&a, q).map(|r| (r.url, r.full_keyword, r.block_id));
        let rb = one(&b, q).map(|r| (r.url, r.full_keyword, r.block_id));
        assert_eq!(ra, rb);
    }
}

#[test]
fn smallest_admitted_key_wins() {
    let a = amp(&["abd"], &[("abd", 1)], "D", "https://d.com/x", 4);
    let b = amp(&["abc"], &[("abc", 1)], "C", "https://c.com/x", 3);
    let c = amp(&["ab"], &[("ab", 1)], "B", "https://b.com/x", 2);
    let index = built(&[a, b, c]);
    assert_eq!(one(&index, "ab").expect("result").advertiser, "B");
    assert_eq!(one(&index, "abc").expect("result").advertiser, "C");
    // "ab" needs two characters, so "a" may use neither; "abc" and "abd" need three.
    assert!(one(&index, "a").is_none());
    let long = amp(&["xa", "xab", "xabc"], &[("xabc", 3)], "L", "https://l.com/x", 5);
    let short = amp(&["xaz"], &[("xaz", 1)], "S", "https://s.com/x", 6);
    let index = built(&[long, short]);
    // "xabc" sorts first but "xa" is enough for it; "xaz" is the only other.
    assert_eq!(one(&index, "xa").expect("result").advertiser, "L");
}

#[test]
fn smallest_key_skips_unadmitted_ones() {
    let long = amp(&["xabc", "xabcd"], &[("xabcd", 2)], "L", "https://l.com/x", 5);
    let short = amp(&["xa", "xaz"], &[("xaz", 2)], "S", "https://s.com/x", 6);
    let index = built(&[long, short]);
    // "xabcd" sorts before "xaz" but needs four characters.
    assert_eq!(one(&index, "xa").expect("result").advertiser, "S");
    assert_eq!(one(&index, "xabc").expect("result").advertiser, "L");
}

#[test]
fn empty_keywords_add_no_keys() {
    let index = built(&[amp(&[], &[], "Nobody", "https://n.com/x", 1)]);
    let stats = index.stats();
    assert_eq!(stats[0], ("keyword_count".to_string(), 0));
    assert_eq!(stats[1], ("suggestions_count".to_string(), 1));
    assert!(one(&index, "").is_none());
}

#[test]
fn empty_query_is_empty() {
    let index = built(&[amazon()]);
    assert!(one(&index, "").is_none());
}

#[test]
fn single_keyword_suggestion() {
    let index = built(&[amp(&["target"], &[("target", 1)], "Target", "https://t.com/x", 1)]);
    assert!(one(&index, "targe").is_none());
    assert_eq!(one(&index, "target").expect("result").advertiser, "Target");
}

#[test]
fn run_of_two() {
    let index = built(&[amp(&["eb", "eba"], &[("ebay", 2)], "eBay", "https://e.com/x", 1)]);
    assert_eq!(one(&index, "eb").expect("result").full_keyword, "ebay");
    assert!(one(&index, "e").is_none());
}

#[test]
fn unicode_counts_characters() {
    let index = built(&[amp(&["ca", "caf", "café"], &[("café", 3)], "Cafe", "https://c.com/x", 1)]);
    // "café" has four characters but five bytes.
    assert_eq!(one(&index, "ca").expect("result").full_keyword, "café");
    assert_eq!(one(&index, "caf").expect("result").advertiser, "Cafe");
    assert!(one(&index, "c").is_none());
}

#[test]
fn missing_full_keywords_fall_back_to_advertiser() {
    let index = built(&[amp(&["wal", "walm"], &[], "Walmart", "https://w.com/x", 1)]);
    assert_eq!(one(&index, "wal").expect("result").full_keyword, "Walmart");
}

#[test]
fn mismatched_full_keywords_are_rejected() {
    let mut index = HybridAmpIndex::new();
    let good = amazon();
    let bad = amp(&["bad", "badx"], &[("bad", 3)], "Bad", "https://b.com/x", 2);
    assert_eq!(index.build(&[good.clone(), bad]), Err(AmpError::InputMalformed));
    assert!(one(&index, "amazon").is_none());
    assert_eq!(index.stats()[1].1, 0);
    assert_eq!(index.build(&[good]), Ok(()));
    assert!(one(&index, "amazon").is_some());
}

#[test]
fn stats_names_and_counts() {
    let recs = vec![
        amazon(),
        amp(&["k cup", "k cups"], &[("k cups", 2)], "Amazon", "https://www.amazon.com/x?tag=b", 2),
    ];
    let index = built(&recs);
    let stats = index.stats();
    let names: Vec<&str> = stats.iter().map(|(n, _)| n.as_str()).collect();
    assert_eq!(
        names,
        vec![
            "keyword_count",
            "suggestions_count",
            "advertisers_count",
            "titles_count",
            "url_templates_count",
            "iab_categories_count",
            "icons_count"
        ]
    );
    let counts: Vec<usize> = stats.iter().map(|(_, c)| *c).collect();
    assert_eq!(counts, vec![2, 2, 1, 1, 1, 1, 2]);
}

#[test]
fn urls_rebuilt_from_templates() {
    let a = amp(&["aa", "aab"], &[("aab", 2)], "A", "https://shop.com/p/1?ref=a", 1);
    let b = amp(&["bb", "bbc"], &[("bbc", 2)], "B", "https://shop.com/p/1?ref=b", 2);
    let c = amp(&["cc", "ccd"], &[("ccd", 2)], "C", "plainhost", 3);
    let index = built(&[a, b, c]);
    assert_eq!(one(&index, "aa").unwrap().url, "https://shop.com/p/1?ref=a");
    assert_eq!(one(&index, "bb").unwrap().url, "https://shop.com/p/1?ref=b");
    assert_eq!(one(&index, "cc").unwrap().url, "plainhost");
    assert_eq!(index.stats()[4].1, 2);
}

#[test]
fn radix_tree_holds_keys_that_prefix_others() {
    let a = amp(&["ab"], &[("ab", 1)], "A", "https://a.com/x", 1);
    let b = amp(&["abc"], &[("abc", 1)], "B", "https://b.com/x", 2);
    let c = amp(&["abcd"], &[("abcd", 1)], "C", "https://c.com/x", 3);
    let mut index = rethink_about_amp::BlartAmpIndex::new();
    index.build(&[c, b, a]).expect("build failed");
    assert_eq!(index.stats()[0].1, 3);
    let adv = |q: &str| index.query(q).unwrap().pop().map(|r| r.advertiser);
    assert_eq!(adv("a"), None);
    assert_eq!(adv("ab"), Some("A".to_string()));
    assert_eq!(adv("abc"), Some("B".to_string()));
    assert_eq!(adv("abcd"), Some("C".to_string()));
    assert_eq!(adv("abcde"), None);
}

#[test]
fn radix_tree_first_inserter_wins_and_nul_keys() {
    let first = amp(&["x\u{0}", "x\u{0}y"], &[("x", 2)], "First", "https://f.com/x", 1);
    let second = amp(&["x\u{0}y", "x"], &[("x", 2)], "Second", "https://s.com/x", 2);
    let mut index = rethink_about_amp::BlartAmpIndex::new();
    index.build(&[first, second]).expect("build failed");
    let adv = |q: &str| index.query(q).unwrap().pop().map(|r| r.advertiser);
    assert_eq!(adv("x\u{0}y"), Some("First".to_string()));
    assert_eq!(adv("x"), Some("Second".to_string()));
    assert_eq!(adv("x\u{0}"), Some("First".to_string()));
}
