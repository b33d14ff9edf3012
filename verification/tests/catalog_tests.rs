use doc_catalog::catalog::Catalog;
use doc_catalog::catalog::CatalogError;

#[test]
fn upsert_twice_keeps_one() {
    let mut c = Catalog::new();
    c.add_at("https://a.example", "first title", "first body", 10, 100);
    c.add_at("https://a.example", "second title", "second body", 20, 200);
    assert_eq!(c.get_last_modified("https://a.example"), (20, 200));
    let (hits, total) = c.search("title", 0, 10, "en").unwrap();
    assert_eq!(total, 1);
    assert_eq!(hits.len(), 1);
    assert_eq!(hits[0].url, "https://a.example");
    assert_eq!(hits[0].title, "second title");
    assert_eq!(hits[0].visited, 20);
    assert_eq!(hits[0].last_modified, 200);
}

#[test]
fn exact_key_isolation() {
    let mut c = Catalog::new();
    c.add_at("a", "alpha doc", "body one", 1, 11);
    c.add_at("ab", "beta doc", "body two", 2, 22);
    assert_eq!(c.get_last_modified("a"), (1, 11));
    assert_eq!(c.get_last_modified("ab"), (2, 22));
    c.add_at("ab", "beta doc again", "body three", 3, 33);
    assert_eq!(c.get_last_modified("a"), (1, 11));
}

#[test]
fn freshness_sentinel() {
    let c = Catalog::new();
    assert_eq!(c.get_last_modified("https://never.example"), (0, 0));
    let mut c = Catalog::new();
    c.add_at("https://there.example", "something", "here", 5, 6);
    assert_eq!(c.get_last_modified("https://never.example"), (0, 0));
}

#[test]
fn conjunctive_search() {
    let mut c = Catalog::new();
    c.add_at("u1", "red fox", "", 1, 1);
    c.add_at("u2", "red dog", "", 2, 2);
    let (hits, total) = c.search("red fox", 0, 10, "en").unwrap();
    assert_eq!(total, 1);
    assert_eq!(hits.len(), 1);
    assert_eq!(hits[0].url, "u1");
    let (hits, total) = c.search("red", 0, 10, "en").unwrap();
    assert_eq!(total, 2);
    assert_eq!(hits.len(), 2);
    // The count reflects every match even when the hits are capped.
    let (hits, total) = c.search("red", 0, 1, "en").unwrap();
    assert_eq!(total, 2);
    assert_eq!(hits.len(), 1);
}

#[test]
fn body_text_matches_too() {
    let mut c = Catalog::new();
    c.add_at("u1", "plain title", "the hidden treasure map", 1, 1);
    let (hits, total) = c.search("treasure", 0, 10, "en").unwrap();
    assert_eq!(total, 1);
    assert_eq!(hits[0].url, "u1");
}

#[test]
fn result_cap_regardless_of_page() {
    let mut c = Catalog::new();
    // Ten matching documents with strictly decreasing relevance.
    for i in 0..10u32 {
        let url = format!("u{}", i);
        let body = "common ".repeat(10 - i as usize);
        c.add_at(&url, "page", &body, i as i64, i as i64);
    }
    let (h0, t0) = c.search("common", 0, 3, "en").unwrap();
    let (h5, t5) = c.search("common", 5, 3, "en").unwrap();
    assert_eq!(t0, 10);
    assert_eq!(t5, 10);
    assert_eq!(h0.len(), 3);
    assert_eq!(h5.len(), 3);
    let urls0: Vec<&str> = h0.iter().map(|h| h.url.as_str()).collect();
    let urls5: Vec<&str> = h5.iter().map(|h| h.url.as_str()).collect();
    assert_eq!(urls0, vec!["u0", "u1", "u2"]);
    assert_eq!(urls5, vec!["u0", "u1", "u2"]);
}

#[test]
fn remove_then_search() {
    let mut c = Catalog::new();
    c.add_at("keep", "shared words here", "", 1, 1);
    c.add_at("drop", "shared words there", "", 2, 2);
    let (_, total) = c.search("shared", 0, 10, "en").unwrap();
    assert_eq!(total, 2);
    c.remove("drop").unwrap();
    let (hits, total) = c.search("shared", 0, 10, "en").unwrap();
    assert_eq!(total, 1);
    assert_eq!(hits.len(), 1);
    assert_eq!(hits[0].url, "keep");
    assert_eq!(c.get_last_modified("drop"), (0, 0));
    // Removing a key that is not there succeeds and changes nothing.
    c.remove("absent").unwrap();
    let (_, total) = c.search("shared", 0, 10, "en").unwrap();
    assert_eq!(total, 1);
}

#[test]
fn round_trip() {
    let mut c = Catalog::new();
    c.add_at(
        "https://rt.example/page",
        "unique marker words",
        "some body text",
        42,
        77,
    );
    let (hits, total) = c.search("marker", 0, 6, "en").unwrap();
    assert_eq!(total, 1);
    assert_eq!(hits[0].url, "https://rt.example/page");
    assert_eq!(hits[0].title, "unique marker words");
    assert_eq!(hits[0].visited, 42);
    assert_eq!(hits[0].last_modified, 77);
    let (hits, _) = c.search("body text", 0, 6, "en").unwrap();
    assert_eq!(hits[0].last_modified, 77);
}

#[test]
fn add_stamps_the_clock() {
    let mut c = Catalog::new();
    c.add("https://now.example", "clock test", "", 123).unwrap();
    let (visited, modified) = c.get_last_modified("https://now.example");
    assert_eq!(modified, 123);
    // The visit time comes from the wall clock: after 2020, before 2100.
    assert!(visited > 1_577_836_800);
    assert!(visited < 4_102_444_800);
}

#[test]
fn empty_query_is_parse_error() {
    let mut c = Catalog::new();
    c.add_at("u", "anything", "at all", 1, 1);
    let e = c.search("", 0, 5, "en").unwrap_err();
    assert_eq!(e, CatalogError::QueryParse);
    let e = c.search("   !!! ???", 0, 5, "en").unwrap_err();
    assert_eq!(e, CatalogError::QueryParse);
    assert_eq!(e.message(), "query parse error");
}

#[test]
fn tokenization_folds_case_and_splits() {
    let mut c = Catalog::new();
    c.add_at("u", "Red-FOX, Jumps!", "", 1, 1);
    let (_, total) = c.search("red fox", 0, 5, "en").unwrap();
    assert_eq!(total, 1);
    let (_, total) = c.search("RED", 0, 5, "en").unwrap();
    assert_eq!(total, 1);
    let (_, total) = c.search("redfox", 0, 5, "en").unwrap();
    assert_eq!(total, 0);
}

#[test]
fn score_counts_term_occurrences() {
    let mut c = Catalog::new();
    c.add_at("twice", "apple apple", "", 1, 1);
    c.add_at("thrice", "apple banana apple", "apple", 2, 2);
    c.add_at("once", "apple", "", 3, 3);
    let (hits, total) = c.search("apple", 0, 10, "en").unwrap();
    assert_eq!(total, 3);
    let urls: Vec<&str> = hits.iter().map(|h| h.url.as_str()).collect();
    assert_eq!(urls, vec!["thrice", "twice", "once"]);
}

#[test]
fn hits_per_page_zero_returns_count_only() {
    let mut c = Catalog::new();
    c.add_at("u1", "needle", "", 1, 1);
    c.add_at("u2", "needle", "", 2, 2);
    let (hits, total) = c.search("needle", 3, 0, "en").unwrap();
    assert_eq!(total, 2);
    assert!(hits.is_empty());
}
