use rethink_about_amp::{AmpIndex, BlartAmpIndex, FstAmpIndex, HybridAmpIndex, KeyStore, OriginalAmp};
use std::collections::HashMap;

fn record(
    keywords: &[&str],
    full_keywords: &[(&str, usize)],
    advertiser: &str,
    url: &str,
    block_id: i32,
) -> OriginalAmp {
    OriginalAmp {
        keywords: keywords.iter().map(|k| k.to_string()).collect(),
        title: format!("{} - Official Site", advertiser),
        url: url.to_string(),
        full_keywords: full_keywords
            .iter()
            .map(|(k, n)| (k.to_string(), *n))
            .collect(),
        advertiser: advertiser.to_string(),
        block_id,
        iab_category: "22 - Shopping".to_string(),
        click_url: format!("https://click.example.com/ctaid={}", block_id),
        impression_url: format!("https://imp.example.com/ctaid={}", block_id),
        icon_id: format!("{}", 1000 + block_id),
    }
}

fn sample_records() -> Vec<OriginalAmp> {
    vec![
        record(
            &["am", "ama", "amaz", "amazo", "amazon"],
            &[("amazon", 5)],
            "Amazon",
            "https://www.amazon.com/?tag=admarketus-20&ref=pd_sl_a",
            1,
        ),
        record(
            &["k cup", "k cups"],
            &[("k cups", 2)],
            "Wayfair",
            "https://www.wayfair.com/kitchen/k-cups?refid=1",
            2,
        ),
        record(
            &["mini ", "mini f", "mini fr", "mini fri", "mini frid", "mini fridg", "mini fridge"],
            &[("mini fridge", 7)],
            "Home Depot",
            "https://www.homedepot.com/b/mini-fridges?cm_mmc=1",
            3,
        ),
        record(&["foo", "food"], &[("food delivery", 2)], "Grubhub", "https://www.grubhub.com/?q=1", 4),
    ]
}

fn prepare_index<S: KeyStore>() -> AmpIndex<S> {
    let amps = sample_records();
    let mut index = AmpIndex::<S>::new();
    index.build(&amps).expect("Failed to build index");
    index
}

fn prepare_hybrid_index() -> HybridAmpIndex {
    prepare_index()
}

fn prepare_blart_index() -> BlartAmpIndex {
    prepare_index()
}

fn prepare_fst_index() -> FstAmpIndex {
    prepare_index()
}

fn test_amazon_prefix_queries_for<S: KeyStore>(index: &AmpIndex<S>, indexer_name: &str) {
    let test_cases = [("am", 1), ("ama", 1), ("amaz", 1), ("amazo", 1), ("amazon", 1), ("k c", 0)];
    for (query, expected_count) in test_cases {
        let results = index.query(query).expect("Query failed");
        assert_eq!(results.len(), expected_count, "{}: query {:?}", indexer_name, query);
    }
}

fn test_query_urls_for<S: KeyStore>(index: &AmpIndex<S>, indexer_name: &str) {
    let test_cases: &[(&str, Option<&str>)] = &[
        ("am", Some("amazon.com")),
        ("ama", Some("amazon.com")),
        ("amaz", Some("amazon.com")),
        ("amazo", Some("amazon.com")),
        ("amazon", Some("amazon.com")),
        ("fo", None),
        ("k c", None),
        ("k cup", Some("www.wayfair.com")),
        ("mini ", Some("www.homedepot.com")),
        ("mini s", None),
    ];
    for &(query, expected) in test_cases {
        let results = index.query(query).expect("Query failed");
        match expected {
            Some(substr) => {
                assert!(!results.is_empty(), "{}: expected a result for {:?}", indexer_name, query);
                assert!(
                    results[0].url.contains(substr),
                    "{}: url {:?} for {:?}",
                    indexer_name,
                    results[0].url,
                    query
                );
            }
            None => assert!(results.is_empty(), "{}: expected no result for {:?}", indexer_name, query),
        }
    }
}

fn test_stats_for<S: KeyStore>(index: &AmpIndex<S>, indexer_name: &str) {
    let stats: HashMap<String, usize> = index.stats().into_iter().collect();
    let count = stats.get("suggestions_count").copied().unwrap_or(0);
    assert!(count > 0, "{}: expected suggestions_count > 0, got {}", indexer_name, count);
    assert_eq!(count, 4);
    assert_eq!(stats.get("keyword_count").copied(), Some(4));
    assert_eq!(stats.get("advertisers_count").copied(), Some(4));
}

#[test]
fn test_hybrid_amazon_prefix_queries() {
    let index = prepare_hybrid_index();
    test_amazon_prefix_queries_for(&index, "Hybrid");
}

#[test]
fn test_hybrid_query_urls() {
    let index = prepare_hybrid_index();
    test_query_urls_for(&index, "Hybrid");
}

#[test]
fn test_hybrid_stats() {
    let index = prepare_hybrid_index();
    test_stats_for(&index, "Hybrid");
}

#[test]
fn test_blart_amazon_prefix_queries() {
    let index = prepare_blart_index();
    test_amazon_prefix_queries_for(&index, "Blart");
}

#[test]
fn test_blart_query_urls() {
    let index = prepare_blart_index();
    test_query_urls_for(&index, "Blart");
}

#[test]
fn test_blart_stats() {
    let index = prepare_blart_index();
    test_stats_for(&index, "Blart");
}

#[test]
fn test_fst_amazon_prefix_queries() {
    let index = prepare_fst_index();
    test_amazon_prefix_queries_for(&index, "Fst");
}

#[test]
fn test_fst_query_urls() {
    let index = prepare_fst_index();
    test_query_urls_for(&index, "Fst");
}

#[test]
fn test_fst_stats() {
    let index = prepare_fst_index();
    test_stats_for(&index, "Fst");
}

#[test]
fn test_fst_builds_in_batches() {
    let records = sample_records();
    let mut index = FstAmpIndex::new();
    index.build(&records[..2]).expect("first batch");
    index.build(&records[2..]).expect("second batch");
    test_query_urls_for(&index, "Fst in batches");
    let again = vec![record(&["amazon"], &[("amazon", 1)], "Other", "https://other.com/?x", 9)];
    index.build(&again).expect("third batch");
    let r = index.query("amazon").unwrap();
    assert_eq!(r[0].advertiser, "Amazon");
    test_stats_for_count(&index, 5);
}

fn test_stats_for_count<S: KeyStore>(index: &AmpIndex<S>, n: usize) {
    let stats: HashMap<String, usize> = index.stats().into_iter().collect();
    assert_eq!(stats.get("suggestions_count").copied(), Some(n));
    assert_eq!(stats.get("keyword_count").copied(), Some(4));
}
