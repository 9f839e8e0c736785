use mini_lm::json::Json;
use mini_lm::profile::{
    build_question_profile, concept_matches_question, enrich_profile_with_source_concepts,
    is_broad_question, meaningful_question_terms, profile_from_json, source_derived_concepts,
    QuestionProfile,
};
use mini_lm::records::ChunkRecord;

fn chunk(id: i64, heading: &str, content: &str) -> ChunkRecord {
    ChunkRecord {
        id,
        document_id: 1,
        file_name: "rules.txt".to_string(),
        path: "/tmp/rules.txt".to_string(),
        heading_path: heading.to_string(),
        char_start: 0,
        char_end: 10,
        content: content.to_string(),
        prev_chunk_id: None,
        next_chunk_id: None,
    }
}

fn words(items: &[&str]) -> Vec<String> {
    items.iter().map(|s| s.to_string()).collect()
}

fn list(items: &[&str]) -> Json {
    Json::List(items.iter().map(|s| Json::Text(s.to_string())).collect())
}

#[test]
fn broad_question_discovers_source_derived_lower_concepts() {
    let chunks = vec![
        ChunkRecord {
            id: 1,
            document_id: 1,
            file_name: "rules.txt".to_string(),
            path: "/tmp/rules.txt".to_string(),
            heading_path: "第1章 給与 > 第1条 扶養手当".to_string(),
            char_start: 0,
            char_end: 10,
            content: "扶養手当は、扶養親族を有する職員に支給する。".to_string(),
            prev_chunk_id: None,
            next_chunk_id: Some(2),
        },
        ChunkRecord {
            id: 2,
            document_id: 1,
            file_name: "rules.txt".to_string(),
            path: "/tmp/rules.txt".to_string(),
            heading_path: "第1章 給与 > 第2条 通勤手当".to_string(),
            char_start: 11,
            char_end: 20,
            content: "通勤手当は、通勤距離に応じて支給する。".to_string(),
            prev_chunk_id: Some(1),
            next_chunk_id: None,
        },
    ];
    let mut profile = QuestionProfile::from_question("手当はどうなっていますか");
    enrich_profile_with_source_concepts(&mut profile, &chunks, "手当はどうなっていますか");

    assert!(profile.is_broad);
    assert!(profile.lower_concepts.contains(&"扶養手当".to_string()));
    assert!(profile.lower_concepts.contains(&"通勤手当".to_string()));
}

#[test]
fn broad_question_discovers_repeated_content_concepts_without_headings() {
    let chunks = vec![ChunkRecord {
        id: 1,
        document_id: 1,
        file_name: "rules.txt".to_string(),
        path: "/tmp/rules.txt".to_string(),
        heading_path: "第1章 給与".to_string(),
        char_start: 0,
        char_end: 80,
        content: "住宅手当は借家に居住する職員に支給する。住宅手当の額は別表で定める。".to_string(),
        prev_chunk_id: None,
        next_chunk_id: None,
    }];
    let mut profile = QuestionProfile::from_question("手当はどうなっていますか");
    enrich_profile_with_source_concepts(&mut profile, &chunks, "手当はどうなっていますか");

    assert!(profile.lower_concepts.contains(&"住宅手当".to_string()));
}

#[test]
fn questions_are_broad_when_short_or_asking_for_a_whole() {
    assert!(is_broad_question("手当", &words(&["手当"])));
    assert!(is_broad_question("この規程が定める手続の一覧を見せてほしい", &vec![]));
    assert!(!is_broad_question("扶養手当の支給額が変わるのはいつからですか", &vec![]));
    let many: Vec<String> = (0..9).map(|i| format!("語{}", i)).collect();
    assert!(!is_broad_question("短い質問", &many));
    assert!(is_broad_question("短い質問", &many[..8].to_vec()));
}

#[test]
fn stop_words_say_nothing() {
    let terms = meaningful_question_terms("手当", &words(&["場合", "手", " 扶養 "]));
    assert_eq!(terms, vec!["手当", "扶養"]);
    assert!(concept_matches_question("扶養手当", &words(&["手当"])));
    assert!(concept_matches_question("手当", &words(&["扶養手当"])));
    assert!(!concept_matches_question("扶養手当", &words(&["通勤", "手"])));
}

#[test]
fn source_concepts_stand_in_the_source() {
    let chunks = vec![
        chunk(1, "第1章 給与 > 第1条 扶養手当", "扶養手当は支給する。旅費規程による。"),
        chunk(2, "第2章 旅費", "旅費は別に定める旅費規程による。"),
    ];
    let question = "手当はどうなっていますか";
    let concepts = source_derived_concepts(&chunks, question, &words(&["手当"]));
    assert!(concepts.contains(&"扶養手当".to_string()));
    assert!(concepts.contains(&"旅費規程".to_string()));
    for concept in &concepts {
        assert!(chunks
            .iter()
            .any(|c| c.heading_path.contains(concept.as_str()) || c.content.contains(concept.as_str())));
    }
}

#[test]
fn narrow_questions_take_in_matching_concepts_only() {
    let chunks = vec![chunk(1, "第1条 扶養手当", "旅費規程による。")];
    let question = "扶養手当の支給額が変わるのはいつからでしょうか";
    let concepts = source_derived_concepts(&chunks, question, &words(&["扶養手当"]));
    assert!(concepts.contains(&"扶養手当".to_string()));
    assert!(!concepts.contains(&"旅費規程".to_string()));
}

#[test]
fn source_concepts_are_few_and_never_generic() {
    let mut chunks: Vec<ChunkRecord> =
        (1..=90).map(|n| chunk(n, &format!("第1条 扶養手当{}", n), "本文")).collect();
    chunks.push(chunk(91, "第1章 総則 > （目的）", "目的を定める。"));
    let narrow = "扶養手当の支給額が変わるのはいつからでしょうか";
    let concepts = source_derived_concepts(&chunks, narrow, &words(&["扶養手当"]));
    assert_eq!(concepts.len(), 30);
    let broad = source_derived_concepts(&chunks, "手当の一覧", &words(&["手当"]));
    assert_eq!(broad.len(), 80);
    let generic = source_derived_concepts(&chunks[90..], "規程の一覧", &words(&["目的"]));
    assert!(!generic.contains(&"総則".to_string()) && !generic.contains(&"目的".to_string()));
}

#[test]
fn search_terms_are_cleaned() {
    let profile = QuestionProfile {
        terms: words(&["手当", "手"]),
        aspects: words(&[" 対象 "]),
        lower_concepts: words(&["手当", "扶養手当"]),
        is_broad: false,
    };
    assert_eq!(profile.search_terms(), vec!["対象", "手当", "扶養手当"]);
}

#[test]
fn a_plain_profile_has_the_terms_of_the_question() {
    let profile = QuestionProfile::from_question("手当");
    assert_eq!(profile.terms, vec!["手当"]);
    assert!(profile.aspects.is_empty() && profile.lower_concepts.is_empty());
    assert!(profile.is_broad);
}

#[test]
fn replies_add_terms_and_aspects() {
    let reply = Some(Json::Object(vec![
        ("terms".to_string(), list(&["通勤手当", "x"])),
        ("aspects".to_string(), Json::List(vec![Json::Text("対象者".to_string()), Json::Null])),
        ("is_broad".to_string(), Json::Bool(true)),
    ]));
    let question = "住宅手当の支給額が変わるのはいつからでしょうか";
    let profile = profile_from_json(question, &reply);
    assert!(profile.terms.contains(&"通勤手当".to_string()));
    assert!(profile.terms.contains(&"通勤".to_string()));
    assert!(profile.terms.contains(&"住宅手当の".to_string()) || profile.terms.contains(&"住宅".to_string()));
    assert_eq!(profile.aspects, vec!["対象", "対象者", "象者"]);
    assert!(profile.is_broad);
    let silent = profile_from_json(question, &None);
    assert!(!silent.is_broad);
    assert!(silent.aspects.is_empty());
}

#[test]
fn a_failed_profile_request_leaves_the_question_to_itself() {
    let failed = build_question_profile("手当", &Err("timeout".to_string()));
    assert_eq!(failed.terms, vec!["手当"]);
    let replied = build_question_profile(
        "手当",
        &Ok(r#"{"terms":["扶養"],"aspects":["金額"],"is_broad":false}"#.to_string()),
    );
    assert_eq!(replied.terms, vec!["手当", "扶養"]);
    assert_eq!(replied.aspects, vec!["金額"]);
    let garbled = build_question_profile("手当", &Ok("no json".to_string()));
    assert_eq!(garbled.terms, vec!["手当"]);
}
