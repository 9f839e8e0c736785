use mini_lm::concepts::{
    concept_start_index, concept_suffixes, concepts_from_heading, content_concept_counts,
    heading_mentions_concept, is_concept_boundary, is_concept_connector, is_generic_concept,
    is_japanese_word_char, is_stop_term, is_valid_source_concept, normalize_content_concept,
    normalize_heading_concept, split_japanese_segments, top_concepts_from_texts,
};

#[test]
fn segments_are_runs_of_japanese_words() {
    assert_eq!(split_japanese_segments("扶養手当は、abc支給する。"), vec!["扶養手当は", "支給する"]);
    assert!(split_japanese_segments("abc 12").is_empty());
    let mut parts = split_japanese_segments("手当、旅費");
    parts.extend(split_japanese_segments("規程"));
    assert_eq!(split_japanese_segments("手当、旅費。規程"), parts);
    assert!(is_japanese_word_char('々'));
    assert!(is_japanese_word_char('ー'));
    assert!(!is_japanese_word_char('、'));
}

#[test]
fn concepts_begin_after_connectors_and_boundaries() {
    assert!(concept_suffixes().contains(&"手当"));
    assert_eq!(concept_suffixes().len(), 19);
    assert!(is_concept_connector('の'));
    assert!(!is_concept_connector('者'));
    assert!(is_concept_boundary('者'));
    let chars: Vec<char> = "職員の扶養手当".chars().collect();
    assert_eq!(concept_start_index(&chars, 5), 3);
    let long: Vec<char> = "あいうえおかきくけこさし手当".chars().collect();
    assert_eq!(concept_start_index(&long, 12), 2);
}

#[test]
fn names_lose_marks_and_prefixes() {
    assert_eq!(normalize_content_concept(" 第1条当該扶養手当 "), "扶養手当");
    assert_eq!(normalize_content_concept("このこの手当"), "手当");
    assert_eq!(normalize_heading_concept("第1条 扶養手当"), "扶養手当");
    assert_eq!(normalize_heading_concept("（目的）"), "目的");
    assert_eq!(normalize_heading_concept("「住宅手当」"), "住宅手当");
}

#[test]
fn some_words_are_no_concepts() {
    assert!(is_stop_term("場合"));
    assert!(!is_stop_term("手当"));
    assert!(is_generic_concept("総則"));
    assert!(!is_generic_concept("扶養手当"));
    assert!(is_valid_source_concept("扶養手当"));
    assert!(!is_valid_source_concept("手"));
    assert!(!is_valid_source_concept("第条"));
    assert!(!is_valid_source_concept("教えて"));
    assert!(!is_valid_source_concept(&"あ".repeat(19)));
    assert!(is_valid_source_concept(&"あ".repeat(18)));
}

#[test]
fn mentions_are_counted() {
    let text = "住宅手当は借家に居住する職員に支給する。住宅手当の額は別表で定める。";
    let counts = content_concept_counts(text);
    assert_eq!(counts.get("住宅手当"), 2);
    for term in counts.terms() {
        assert!(text.contains(term.as_str()));
    }
}

#[test]
fn headings_state_concepts() {
    let path = "第1章 給与 > 第1条 扶養手当 > （支給）";
    assert_eq!(concepts_from_heading(path), vec!["扶養手当", "支給", "給与"]);
    for concept in concepts_from_heading(path) {
        assert!(path.contains(&concept));
        assert!(heading_mentions_concept(path, &concept));
    }
    assert!(!heading_mentions_concept(path, " "));
    assert!(concepts_from_heading("").is_empty());
}

#[test]
fn main_concepts_are_those_of_highest_score() {
    let texts = [
        ("第1章 総則", "扶養手当と扶養手当と住宅手当を支給する。"),
        ("第1条 通勤手当", "通勤手当を支給する。"),
    ];
    assert_eq!(top_concepts_from_texts(&texts, 1), vec!["通勤手当"]);
    assert_eq!(top_concepts_from_texts(&texts, 3), vec!["扶養", "扶養手当", "通勤手当"]);
    let all = top_concepts_from_texts(&texts, 40);
    assert!(!all.contains(&"総則".to_string()));
    for concept in all {
        assert!(texts.iter().any(|(heading, text)| heading.contains(&concept) || text.contains(&concept)));
    }
}
