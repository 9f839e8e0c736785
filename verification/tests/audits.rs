use mini_lm::audit::{
    audit_entry, audit_needs_revision, combine_audit_json, frame_audits, revision_needed,
};
use mini_lm::json::{
    parse_json_i64_vec, parse_json_string_vec, store_numbers, store_strings, Json,
};

#[test]
fn audit_revision_detector_checks_relationship_scope_and_polarity_errors() {
    assert!(audit_needs_revision(
        r#"{"verdict":"pass","unsupported_claims":[],"relationship_errors":[{"claim":"x"}],"scope_errors":[],"polarity_errors":[],"insufficient_evidence_overreach":[]}"#
    ));
    assert!(audit_needs_revision(
        r#"{"verdict":"warning","unsupported_claims":[],"relationship_errors":[],"scope_errors":[],"polarity_errors":[],"insufficient_evidence_overreach":[]}"#
    ));
    assert!(!audit_needs_revision(
        r#"{"verdict":"pass","unsupported_claims":[],"relationship_errors":[],"scope_errors":[],"polarity_errors":[],"insufficient_evidence_overreach":[]}"#
    ));
}

#[test]
fn every_kind_of_objection_asks_for_a_revision() {
    for key in [
        "unsupported_claims",
        "relationship_errors",
        "scope_errors",
        "polarity_errors",
        "insufficient_evidence_overreach",
    ] {
        let audit = Json::Object(vec![(key.to_string(), Json::List(vec![Json::Null]))]);
        assert!(revision_needed(&Some(audit)));
    }
    assert!(audit_needs_revision(r#"{"verdict":"FAIL"}"#));
    assert!(!audit_needs_revision(r#"{"verdict":" fail "}"#));
    assert!(!audit_needs_revision(r#"{"scope_errors":"many"}"#));
    assert!(!audit_needs_revision("not json"));
    assert!(!revision_needed(&None));
}

#[test]
fn records_hold_both_audits() {
    assert_eq!(
        combine_audit_json(r#"{ "verdict": "fail", "n": 1 }"#, Some(r#"{"verdict":"pass"}"#)),
        r#"{"final":{"verdict":"pass"},"initial":{"n":1,"verdict":"fail"},"revision_applied":true}"#
    );
    assert_eq!(
        combine_audit_json("say \"no\"\n", None),
        r#"{"final":{"error":"re-audit failed"},"initial":{"raw":"say \"no\"\n"},"revision_applied":true}"#
    );
    let record = combine_audit_json("x", Some("y"));
    let value: serde_json::Value = serde_json::from_str(&record).unwrap();
    assert_eq!(value["initial"]["raw"], "x");
    assert_eq!(value["final"]["raw"], "y");
    assert_eq!(value["revision_applied"], true);
}

#[test]
fn entries_are_json_or_raw() {
    assert_eq!(audit_entry("{}", &Some("{}".to_string())), "{}");
    assert_eq!(audit_entry("a\tb", &None), "{\"raw\":\"a\\tb\"}");
    assert_eq!(frame_audits("1", "2"), "{\"final\":2,\"initial\":1,\"revision_applied\":true}");
}

#[test]
fn stored_lists_read_back() {
    let items: Vec<String> = ["扶養手当", "a\"b\\c", "x\n\t\u{8}\u{c}\u{1}\r", ""]
        .iter()
        .map(|s| s.to_string())
        .collect();
    let stored = store_strings(&items);
    assert_eq!(stored, "[\"扶養手当\",\"a\\\"b\\\\c\",\"x\\n\\t\\b\\f\\u0001\\r\",\"\"]");
    assert_eq!(parse_json_string_vec(&stored), items);
    let numbers = vec![3, -4, i64::MIN, i64::MAX];
    let stored = store_numbers(&numbers);
    assert_eq!(stored, "[3,-4,-9223372036854775808,9223372036854775807]");
    assert_eq!(parse_json_i64_vec(&stored), numbers);
    assert_eq!(store_strings(&vec![]), "[]");
    assert_eq!(store_numbers(&vec![]), "[]");
}

#[test]
fn what_is_no_list_reads_as_empty() {
    assert!(parse_json_string_vec("[1]").is_empty());
    assert!(parse_json_string_vec("oops").is_empty());
    assert!(parse_json_i64_vec("[\"1\"]").is_empty());
    assert!(parse_json_i64_vec("[1.5]").is_empty());
    assert_eq!(parse_json_i64_vec(" [1, 2] "), vec![1, 2]);
}

#[test]
fn values_tell_what_they_are() {
    let object = Json::Object(vec![
        ("t".to_string(), Json::Text("x".to_string())),
        ("b".to_string(), Json::Bool(true)),
        ("i".to_string(), Json::Int(-1)),
        ("u".to_string(), Json::Large(u64::MAX)),
        ("l".to_string(), Json::List(vec![Json::Real])),
    ]);
    assert_eq!(object.get("t").unwrap().as_str(), Some("x"));
    assert_eq!(object.get("b").unwrap().as_bool(), Some(true));
    assert_eq!(object.get("i").unwrap().as_i64(), Some(-1));
    assert_eq!(object.get("i").unwrap().as_u64(), None);
    assert_eq!(object.get("u").unwrap().as_u64(), Some(u64::MAX));
    assert_eq!(object.get("u").unwrap().as_i64(), None);
    assert_eq!(object.get("l").unwrap().as_array().unwrap().len(), 1);
    assert!(object.get("x").is_none());
    assert!(Json::Null.get("t").is_none());
    assert_eq!(Json::Int(5).as_u64(), Some(5));
}
