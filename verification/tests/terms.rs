use mini_lm::digest::content_hash;
use mini_lm::listing::normalize_string_list;
use mini_lm::tally::Tally;
use mini_lm::terms::{
    embedding_counts, extract_terms, flush_token, term_rows, term_weight, term_weights, token_kind,
    EMBEDDING_DIMS,
};

#[test]
fn characters_have_kinds() {
    assert_eq!(token_kind('a'), 1);
    assert_eq!(token_kind('_'), 1);
    assert_eq!(token_kind('あ'), 2);
    assert_eq!(token_kind('手'), 2);
    assert_eq!(token_kind('ｱ'), 2);
    assert_eq!(token_kind('。'), 0);
    assert_eq!(token_kind(' '), 0);
}

#[test]
fn tokens_give_their_grams() {
    let mut terms = Vec::new();
    flush_token(&mut terms, "扶養手当", 2);
    assert_eq!(terms, vec!["扶養手当", "扶養", "養手", "手当", "扶養手", "養手当"]);
    let mut latin = Vec::new();
    flush_token(&mut latin, "DeepSeek", 1);
    flush_token(&mut latin, "x", 1);
    flush_token(&mut latin, " ", 1);
    assert_eq!(latin, vec!["deepseek"]);
}

#[test]
fn terms_are_distinct_and_sorted() {
    assert_eq!(extract_terms("手当は手当"), vec!["は手", "は手当", "当は", "当は手", "手当", "手当は", "手当は手当"]);
    assert_eq!(extract_terms("ABC abc, 12"), vec!["12", "abc"]);
    assert!(extract_terms("。、 !").is_empty());
    let mut parts = extract_terms("手当 abc");
    parts.extend(extract_terms("旅費手当"));
    parts.sort();
    parts.dedup();
    assert_eq!(extract_terms("手当 abc。旅費手当"), parts);
}

#[test]
fn long_terms_weigh_twice() {
    assert_eq!(term_weight("手当"), 1);
    assert_eq!(term_weight("扶養手当"), 2);
    assert_eq!(term_weights("扶養手当").get("扶養手当"), 2);
    assert_eq!(term_weights("扶養手当").get("養手"), 1);
    assert_eq!(term_weights("扶養手当").get("通勤"), 0);
}

#[test]
fn terms_of_headings_count_twice_more() {
    let rows = term_rows("手当", "手当 abcd");
    let stored: Vec<(String, u64)> = rows.into_iter().map(|r| (r.term, r.weight)).collect();
    assert_eq!(stored, vec![("abcd".to_string(), 4), ("手当".to_string(), 3)]);
}

#[test]
fn embeddings_follow_the_digests_of_terms() {
    let counts = embedding_counts("abcd");
    assert_eq!(counts.len(), EMBEDDING_DIMS);
    assert_eq!(counts[8], 2);
    assert_eq!(counts.iter().filter(|c| **c != 0).count(), 1);
    let counts = embedding_counts("扶養手当");
    assert_eq!((counts[20], counts[356], counts[174], counts[27]), (-2, 1, -1, -1));
    assert_eq!((counts[299], counts[134]), (-1, 1));
    assert_eq!(counts.iter().filter(|c| **c != 0).count(), 6);
}

#[test]
fn hashes_are_those_of_sha256() {
    assert_eq!(
        content_hash("扶養手当".as_bytes()),
        "147e2d127953f0201af710b8597f7dec5522e3b4c3f0903d8e41255a4bc13d53"
    );
    assert_eq!(
        content_hash(b""),
        "e3b0c44298fc1c149afbf4c8996fb92427ae41e4649b934ca495991b7852b855"
    );
}

#[test]
fn lists_are_cleaned() {
    let mut items: Vec<String> =
        [" b ", "a", "扶養", "b1", "扶養", ""].iter().map(|s| s.to_string()).collect();
    items.push("x".repeat(80));
    items.push("y".repeat(81));
    normalize_string_list(&mut items);
    assert_eq!(items, vec!["b1".to_string(), "x".repeat(80), "扶養".to_string()]);
    let once = items.clone();
    normalize_string_list(&mut items);
    assert_eq!(items, once);
}

#[test]
fn tallies_rank_by_score_and_then_by_text() {
    let mut tally = Tally::new();
    tally.add("b", 2);
    tally.add("a", 2);
    tally.add("c", 3);
    tally.add("d", 1);
    tally.add("d", u64::MAX);
    assert_eq!(tally.get("d"), u64::MAX);
    assert_eq!(tally.len(), 4);
    assert_eq!(tally.top(3), vec!["a", "c", "d"]);
    assert_eq!(tally.top(0), Vec::<String>::new());
    assert_eq!(tally.top(9).len(), 4);
}
