use rethink_about_amp::{
    collapse_keywords, collapse_keywords_ex, extract_template, Dictionary, FullKeyword, RunEndEncoding,
};

fn strings(items: &[&str]) -> Vec<String> {
    items.iter().map(|s| s.to_string()).collect()
}

#[test]
fn collapse_single_run() {
    let ks = strings(&["fo", "foo", "foob", "fooba", "foobar"]);
    assert_eq!(collapse_keywords(&ks), vec![("foobar".to_string(), 2)]);
}

#[test]
fn collapse_empty_and_single() {
    assert!(collapse_keywords(&[]).is_empty());
    assert_eq!(collapse_keywords(&strings(&["x"])), vec![("x".to_string(), 1)]);
}

#[test]
fn collapse_mixed_runs() {
    let ks = strings(&[
        "am", "ama", "amaz", "amazi", "amazin", "amazo", "amazon", "amazon ", "amazon f", "amon", "bmaz",
        "bmazi",
    ]);
    let out = collapse_keywords(&ks);
    assert_eq!(
        out,
        vec![
            ("amazin".to_string(), 2),
            ("amazon f".to_string(), 5),
            ("amon".to_string(), 4),
            ("bmazi".to_string(), 4),
        ]
    );
    for (k, m) in &out {
        assert!(*m <= k.chars().count());
    }
}

#[test]
fn collapse_counts_characters_not_bytes() {
    let ks = strings(&["é", "éa", "éab"]);
    assert_eq!(collapse_keywords(&ks), vec![("éab".to_string(), 1)]);
}

#[test]
fn collapse_ex_tags_full_keywords() {
    let ks = strings(&["am", "ama", "amazon", "b"]);
    let fk = vec![("amazon".to_string(), 2), ("amazon".to_string(), 1), ("bee".to_string(), 1)];
    let out = collapse_keywords_ex(&ks, &fk);
    assert_eq!(out.len(), 3);
    assert_eq!((out[0].0.as_str(), out[0].1), ("ama", 2));
    assert!(matches!(&out[0].2, FullKeyword::Different(s) if s == "amazon"));
    assert_eq!((out[1].0.as_str(), out[1].1), ("amazon", 6));
    assert!(matches!(out[1].2, FullKeyword::Same));
    assert_eq!(out[2].2.full_keyword("b"), "bee");
}

#[test]
fn collapse_ex_zips_to_shorter() {
    let ks = strings(&["a", "ab", "abc"]);
    let fk = vec![("alpha".to_string(), 2)];
    let out = collapse_keywords_ex(&ks, &fk);
    assert_eq!(out.len(), 1);
    assert_eq!((out[0].0.as_str(), out[0].1), ("ab", 1));
    assert_eq!(out[0].2.full_keyword("ab"), "alpha");
    assert!(collapse_keywords_ex(&ks, &[]).is_empty());
}

#[test]
fn full_keyword_same_and_different() {
    let same = FullKeyword::new("shoes", "shoes");
    assert!(matches!(same, FullKeyword::Same));
    assert_eq!(same.full_keyword("shoes"), "shoes");
    let diff = FullKeyword::new("shoe", "shoes");
    assert_eq!(diff.full_keyword("shoe"), "shoes");
}

#[test]
fn run_end_encoding_lookup() {
    let mut r = RunEndEncoding::new();
    r.add("a".to_string(), 3);
    r.add("skip".to_string(), 0);
    r.add("b".to_string(), 2);
    assert_eq!(r.len(), 3);
    assert_eq!(r.total_len(), 5);
    let got: Vec<Option<&str>> = (0..6).map(|i| r.get(i).map(|s| s.as_str())).collect();
    assert_eq!(got, vec![Some("a"), Some("a"), Some("a"), Some("b"), Some("b"), None]);
}

#[test]
fn run_end_encoding_empty() {
    let mut r = RunEndEncoding::new();
    assert_eq!(r.get(0), None);
    r.add("z".to_string(), 0);
    assert_eq!(r.get(0), None);
    assert_eq!(r.total_len(), 0);
}

#[test]
fn template_split_at_question_mark() {
    let mut d = Dictionary::new();
    let (id, suffix) = extract_template("https://www.amazon.com/x?tag=a?b", &mut d);
    assert_eq!(id, 0);
    assert_eq!(suffix, "?tag=a?b");
    assert_eq!(d.get(0).map(|s| s.as_str()), Some("https://www.amazon.com/x"));
}

#[test]
fn template_split_at_last_slash() {
    let mut d = Dictionary::new();
    let (id, suffix) = extract_template("https://a.com/b/c", &mut d);
    assert_eq!((id, suffix.as_str()), (0, "/c"));
    assert_eq!(d.get(0).map(|s| s.as_str()), Some("https://a.com/b"));
}

#[test]
fn template_split_without_separator() {
    let mut d = Dictionary::new();
    assert_eq!(extract_template("host", &mut d), (0, "host".to_string()));
    assert_eq!(extract_template("", &mut d), (0, String::new()));
    assert_eq!(d.get(0).map(|s| s.as_str()), Some(""));
    assert_eq!(d.len(), 1);
}

#[test]
fn templates_are_shared() {
    let mut d = Dictionary::new();
    assert_eq!(extract_template("https://s.com/p?x=1", &mut d), (0, "?x=1".to_string()));
    assert_eq!(extract_template("https://t.com/p?x=1", &mut d), (1, "?x=1".to_string()));
    assert_eq!(extract_template("https://s.com/p?y=2", &mut d), (0, "?y=2".to_string()));
    assert_eq!(d.len(), 2);
}

#[test]
fn intern_assigns_dense_ids() {
    let mut d = Dictionary::new();
    assert_eq!(d.intern("x"), 0);
    assert_eq!(d.intern("y"), 1);
    assert_eq!(d.intern("x"), 0);
    assert_eq!(d.intern("ÿ"), 2);
    assert_eq!(d.len(), 3);
    assert_eq!(d.get(1).map(|s| s.as_str()), Some("y"));
    assert_eq!(d.get(3), None);
}
