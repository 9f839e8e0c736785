use mini_lm::facts::{
    compose_fact_statement, facts_from_json, facts_from_reply, fallback_scope,
    format_fact_for_prompt, format_facts, needs_reduction, normalize_confidence,
    normalize_polarity, reduce_facts, reduce_with_json, ExtractedFact, MAX_REDUCED_FACTS,
};
use mini_lm::json::{fact_field, Json};
use mini_lm::records::ChunkRecord;

fn chunk(id: i64, heading: &str) -> ChunkRecord {
    ChunkRecord {
        id,
        document_id: 1,
        file_name: "rules.txt".to_string(),
        path: "/tmp/rules.txt".to_string(),
        heading_path: heading.to_string(),
        char_start: 3,
        char_end: 9,
        content: "扶養手当は支給する。".to_string(),
        prev_chunk_id: None,
        next_chunk_id: None,
    }
}

fn fact(n: i64) -> ExtractedFact {
    ExtractedFact {
        chunk_id: n,
        file_name: "rules.txt".to_string(),
        path: "/tmp/rules.txt".to_string(),
        heading_path: "第1条".to_string(),
        char_start: 0,
        char_end: 5,
        statement: format!("事実{}", n),
        scope: "範囲".to_string(),
        subject: "職員".to_string(),
        object: "手当".to_string(),
        condition: "条件".to_string(),
        effect: "支給".to_string(),
        exception: "".to_string(),
        polarity: "conditional".to_string(),
        quote: "引用".to_string(),
        confidence: "high".to_string(),
    }
}

#[test]
fn fact_statement_can_be_rebuilt_from_structured_fields() {
    let statement = compose_fact_statement("職員", "扶養手当", "扶養親族を有する場合", "支給する", "");
    assert!(statement.contains("subject=職員"));
    assert!(statement.contains("object=扶養手当"));
    assert!(statement.contains("condition=扶養親族を有する場合"));
    assert!(statement.contains("effect=支給する"));
}

#[test]
fn blank_fields_are_left_out_of_statements() {
    assert_eq!(compose_fact_statement(" 職員 ", " ", "", "支給", "例外"), "subject=職員 / effect=支給 / exception=例外");
    assert_eq!(compose_fact_statement("", "", "", "", " "), "");
}

#[test]
fn polarity_is_given_or_inferred() {
    assert_eq!(normalize_polarity(" Negative ", "", ""), "negative");
    assert_eq!(normalize_polarity("?", "条件", "支給しない"), "conditional");
    assert_eq!(normalize_polarity("", " ", "支給しない"), "negative");
    assert_eq!(normalize_polarity("", "", "対象外とする"), "negative");
    assert_eq!(normalize_polarity("", "", "これを除く"), "negative");
    assert_eq!(normalize_polarity("", "", "禁止する"), "negative");
    assert_eq!(normalize_polarity("", "", "支給する"), "positive");
}

#[test]
fn confidence_is_medium_by_default() {
    assert_eq!(normalize_confidence("HIGH"), "high");
    assert_eq!(normalize_confidence(" low\n"), "low");
    assert_eq!(normalize_confidence("certain"), "medium");
}

#[test]
fn scope_falls_back_to_the_place() {
    assert_eq!(fallback_scope(&chunk(1, "第1条")), "rules.txt / 第1条");
    assert_eq!(fallback_scope(&chunk(1, " ")), "rules.txt");
}

#[test]
fn facts_are_shown_field_by_field() {
    let shown = "[F2] file=rules.txt chunk=7 chars=0-5 heading=第1条\nscope: 範囲\nsubject: 職員\nobject: 手当\ncondition: 条件\neffect: 支給\nexception: \npolarity: conditional\nconfidence: high\nstatement: 事実7\nquote: 引用\n\n";
    assert_eq!(format_fact_for_prompt(2, &fact(7)), shown);
    let both = format_facts(&[fact(1), fact(7)]);
    assert!(both.starts_with("[F1] "));
    assert!(both.ends_with(shown));
}

#[test]
fn facts_cite_chunks_of_the_batch() {
    let reply = r#"{"facts":[
        {"chunk_id":4,"statement":" 支給する ","condition":"","effect":"支給する","quote":"扶養手当は支給する","confidence":"high"},
        {"chunk_id":5,"statement":"","subject":"職員","effect":"支給しない"},
        {"chunk_id":6,"statement":"","subject":" "},
        {"chunk_id":99,"statement":"どこにもない"},
        "not a fact"
    ]}"#;
    let batch = [chunk(4, "第1条"), chunk(5, "")];
    let facts = facts_from_reply(reply, &batch);
    assert_eq!(facts.len(), 2);
    assert_eq!(facts[0].chunk_id, 4);
    assert_eq!(facts[0].statement, "支給する");
    assert_eq!(facts[0].scope, "rules.txt / 第1条");
    assert_eq!(facts[0].polarity, "positive");
    assert_eq!(facts[0].confidence, "high");
    assert_eq!((facts[0].char_start, facts[0].char_end), (3, 9));
    assert_eq!(facts[1].statement, "subject=職員 / effect=支給しない");
    assert_eq!(facts[1].polarity, "negative");
    assert_eq!(facts[1].confidence, "medium");
    assert_eq!(facts[1].scope, "rules.txt");
    assert!(facts_from_reply("no json", &batch).is_empty());
    assert!(facts_from_json(&Some(Json::Null), &batch).is_empty());
}

#[test]
fn fields_are_trimmed_texts() {
    let item = Json::Object(vec![
        ("a".to_string(), Json::Text(" x ".to_string())),
        ("n".to_string(), Json::Int(3)),
    ]);
    assert_eq!(fact_field(&item, "a"), "x");
    assert_eq!(fact_field(&item, "n"), "");
    assert_eq!(fact_field(&item, "missing"), "");
}

#[test]
fn few_facts_are_all_kept() {
    let facts: Vec<ExtractedFact> = (1..=5).map(fact).collect();
    assert!(!needs_reduction(&facts));
    let kept = reduce_facts(&facts, r#"{"keep_indexes":[1]}"#);
    assert_eq!(kept.len(), 5);
}

#[test]
fn many_facts_are_reduced_to_those_picked() {
    let facts: Vec<ExtractedFact> = (1..=130).map(fact).collect();
    assert!(needs_reduction(&facts));
    let kept = reduce_facts(&facts, r#"{"keep_indexes":[130, 1, 0, 131, -2, "5", 2]}"#);
    let ids: Vec<i64> = kept.iter().map(|f| f.chunk_id).collect();
    assert_eq!(ids, vec![130, 1, 1, 2]);
    let first = reduce_facts(&facts, "garbled");
    assert_eq!(first.len(), MAX_REDUCED_FACTS);
    assert_eq!(first[119].chunk_id, 120);
    let all: Vec<Json> = (0..200).map(|_| Json::Large(3)).collect();
    let reply = Some(Json::Object(vec![("keep_indexes".to_string(), Json::List(all))]));
    let capped = reduce_with_json(&facts, &reply);
    assert_eq!(capped.len(), MAX_REDUCED_FACTS);
    assert!(capped.iter().all(|f| f.chunk_id == 3));
}
