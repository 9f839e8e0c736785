use mini_lm::answer::{
    check_question, plain_audit_request, plain_request, profile_request, AnswerRun, Stage,
    EMPTY_QUESTION,
};
use mini_lm::profile::QuestionProfile;
use mini_lm::prompts::NO_FACTS_ANSWER;
use mini_lm::records::{ChunkRecord, HierarchyContext};

fn record(id: i64) -> ChunkRecord {
    ChunkRecord {
        id,
        document_id: 1,
        file_name: "rules.txt".to_string(),
        path: "/s/rules.txt".to_string(),
        heading_path: "第1条".to_string(),
        char_start: 0,
        char_end: 20,
        content: "あ".repeat(20),
        prev_chunk_id: None,
        next_chunk_id: None,
    }
}

fn begin(chunks: i64) -> AnswerRun {
    let chunks: Vec<ChunkRecord> = (1..=chunks).map(record).collect();
    AnswerRun::begin(
        "手当は".to_string(),
        QuestionProfile::from_question("手当は"),
        HierarchyContext { sections: vec![], documents: vec![], corpus_concepts: vec![] },
        &chunks,
        100,
    )
}

fn ok(run: AnswerRun, reply: &str) -> AnswerRun {
    match run.accept(Ok(reply.to_string())) {
        Ok(next) => next,
        Err(error) => panic!("{}", error),
    }
}

fn fail(run: AnswerRun) -> Result<AnswerRun, String> {
    run.accept(Err("timeout".to_string()))
}

fn facts(ids: &[i64]) -> String {
    let items: Vec<String> =
        ids.iter().map(|id| format!("{{\"chunk_id\":{},\"statement\":\"事実\"}}", id)).collect();
    format!("{{\"facts\":[{}]}}", items.join(","))
}

#[test]
fn questions_must_say_something() {
    assert_eq!(check_question("手当は"), Ok(()));
    assert_eq!(check_question(" \u{3000}"), Err(EMPTY_QUESTION.to_string()));
}

#[test]
fn single_requests_have_their_limits() {
    let profile = profile_request("問");
    assert_eq!((profile.max_tokens, profile.json_mode, profile.stream), (800, true, false));
    assert_eq!(profile.messages[1].content, "問");
    let answer = plain_request("問", &[], 100);
    assert_eq!((answer.max_tokens, answer.json_mode, answer.stream), (2_000, false, true));
    let audit = plain_audit_request("答", &[], 100);
    assert_eq!((audit.max_tokens, audit.json_mode, audit.stream), (1_000, true, false));
    assert_eq!(audit.messages[1].content, "ANSWER:\n答\n\nSOURCE:\n");
}

#[test]
fn answers_run_through_every_batch() {
    let mut run = begin(2);
    assert_eq!(run.batches.len(), 2);
    let request = run.request().unwrap();
    assert_eq!((request.max_tokens, request.json_mode, request.stream), (1_400, true, false));
    assert!(request.messages[1].content.contains("[C1] "));
    run = ok(run, &facts(&[1, 2]));
    assert_eq!(run.facts.len(), 1);
    assert!(run.stage == Stage::Extract);
    assert!(run.request().unwrap().messages[1].content.contains("[C2] "));
    run = ok(run, &facts(&[2]));
    assert!(run.stage == Stage::Synthesize);
    assert_eq!(run.kept.len(), 2);
    let request = run.request().unwrap();
    assert_eq!((request.max_tokens, request.json_mode, request.stream), (3_500, false, true));
    run = ok(run, "答え");
    assert!(run.stage == Stage::Audit);
    assert_eq!(run.request().unwrap().max_tokens, 1_500);
    run = ok(run, "{\"verdict\":\"pass\"}");
    assert!(run.stage == Stage::Done);
    assert!(run.request().is_none());
    assert_eq!(run.answer, "答え");
    assert_eq!(run.audit, Some("{\"verdict\":\"pass\"}".to_string()));
}

#[test]
fn objections_lead_to_a_revision() {
    let mut run = ok(begin(1), &facts(&[1]));
    run = ok(run, "誤った答え");
    run = ok(run, "{\"verdict\":\"fail\"}");
    assert!(run.stage == Stage::Revise);
    let request = run.request().unwrap();
    assert_eq!((request.max_tokens, request.stream), (3_000, true));
    assert!(request.messages[1].content.contains("AUDIT:\n{\"verdict\":\"fail\"}"));
    run = ok(run, "正しい答え");
    assert!(run.stage == Stage::Reaudit);
    run = ok(run, "{\"verdict\":\"pass\"}");
    assert!(run.stage == Stage::Done);
    assert_eq!(run.answer, "正しい答え");
    assert_eq!(
        run.audit.unwrap(),
        "{\"final\":{\"verdict\":\"pass\"},\"initial\":{\"verdict\":\"fail\"},\"revision_applied\":true}"
    );
}

#[test]
fn answers_survive_failed_audits_and_revisions() {
    let run = ok(ok(begin(1), &facts(&[1])), "答え");
    let unaudited = fail(run).ok().unwrap();
    assert!(unaudited.stage == Stage::Done && unaudited.audit.is_none());
    assert_eq!(unaudited.answer, "答え");

    let run = ok(ok(ok(begin(1), &facts(&[1])), "答え"), "{\"verdict\":\"fail\"}");
    let unrevised = fail(run).ok().unwrap();
    assert!(unrevised.stage == Stage::Done);
    assert_eq!(unrevised.answer, "答え");
    assert_eq!(unrevised.audit, Some("{\"verdict\":\"fail\"}".to_string()));

    let run = ok(ok(ok(ok(begin(1), &facts(&[1])), "答え"), "{\"verdict\":\"fail\"}"), "改訂");
    let unchecked = fail(run).ok().unwrap();
    assert_eq!(unchecked.answer, "改訂");
    assert!(unchecked.audit.unwrap().contains("re-audit failed"));
}

#[test]
fn failures_before_the_answer_end_it() {
    assert_eq!(fail(begin(1)).err(), Some("timeout".to_string()));
    assert_eq!(fail(ok(begin(1), &facts(&[1]))).err(), Some("timeout".to_string()));
}

#[test]
fn no_facts_no_request_for_an_answer() {
    let run = ok(begin(1), "{\"facts\":[]}");
    assert!(run.stage == Stage::Audit);
    assert_eq!(run.answer, NO_FACTS_ANSWER);
    let nothing = begin(0);
    assert!(nothing.stage == Stage::Audit);
    assert_eq!(nothing.answer, NO_FACTS_ANSWER);
}

#[test]
fn many_facts_are_reduced_first() {
    let ids: Vec<i64> = vec![1; 121];
    let run = ok(begin(1), &facts(&ids));
    assert!(run.stage == Stage::Reduce);
    assert_eq!(run.request().unwrap().max_tokens, 1_200);
    let run = ok(run, "{\"keep_indexes\":[3,4]}");
    assert!(run.stage == Stage::Synthesize);
    assert_eq!(run.kept.len(), 2);
    assert_eq!(run.facts.len(), 121);
}
