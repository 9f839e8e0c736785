use mini_lm::chunking::{split_text_into_chunks, ChunkDraft};
use mini_lm::context::{
    build_answer_hierarchy_context, build_batch_hierarchy_context, build_chunk_batches,
    document_context, filter_hierarchy_sections, load_hierarchy_context, section_context,
};
use mini_lm::hierarchy::rebuild_hierarchy_contexts;
use mini_lm::profile::{enrich_profile_with_source_concepts, QuestionProfile};
use mini_lm::prompts::{
    answer_messages, audit_messages, build_context_from_hits, extraction_messages,
    fact_audit_messages, profile_messages, reduction_messages, revision_messages,
    synthesis_messages,
};
use mini_lm::records::{
    ChunkRecord, DocumentContext, HierarchyContext, SearchHit, SectionContext,
};

fn draft(heading: &str, content: &str, start: i64) -> ChunkDraft {
    ChunkDraft {
        content: content.to_string(),
        heading_path: heading.to_string(),
        char_start: start,
        char_end: start + content.chars().count() as i64,
    }
}

fn record(id: i64, heading: &str, content: &str) -> ChunkRecord {
    ChunkRecord {
        id,
        document_id: 1,
        file_name: "rules.txt".to_string(),
        path: "/s/rules.txt".to_string(),
        heading_path: heading.to_string(),
        char_start: 0,
        char_end: content.chars().count() as i64,
        content: content.to_string(),
        prev_chunk_id: None,
        next_chunk_id: None,
    }
}

fn section(file: &str, heading: &str, start: i64, ids: &[i64], concepts: &[&str]) -> SectionContext {
    SectionContext {
        document_id: 1,
        file_name: file.to_string(),
        path: "/s/rules.txt".to_string(),
        heading_path: heading.to_string(),
        char_start: start,
        char_end: start + 10,
        chunk_ids: ids.to_vec(),
        concepts: concepts.iter().map(|s| s.to_string()).collect(),
        summary_text: "要約".to_string(),
    }
}

fn document() -> DocumentContext {
    DocumentContext {
        document_id: 1,
        file_name: "rules.txt".to_string(),
        path: "/s/rules.txt".to_string(),
        chunk_count: 2,
        char_count: 30,
        concepts: vec!["扶養手当".to_string()],
        heading_index: vec!["第1条".to_string(), "第2条".to_string()],
        summary_text: "全体".to_string(),
    }
}

fn hit(id: i64, snippet: &str) -> SearchHit {
    SearchHit {
        chunk_id: id,
        document_id: 1,
        file_name: "rules.txt".to_string(),
        path: "/s/rules.txt".to_string(),
        heading_path: "第1条".to_string(),
        char_start: 0,
        char_end: 4,
        snippet: snippet.to_string(),
        debug: String::new(),
    }
}

fn profile(broad: bool) -> QuestionProfile {
    QuestionProfile {
        terms: vec!["手当".to_string()],
        aspects: vec![],
        lower_concepts: vec!["扶養手当".to_string()],
        is_broad: broad,
    }
}

#[test]
fn sections_gather_chunks_by_heading() {
    let chunks = vec![
        draft("第1条 扶養手当", "扶養手当は支給する。", 0),
        draft("", "前文", 20),
        draft("第1条 扶養手当", "扶養手当の額は別表。", 30),
    ];
    let (sections, document) = rebuild_hierarchy_contexts("rules.txt", 50, &chunks, &vec![11, 12, 13]);
    assert_eq!(sections.len(), 2);
    assert_eq!(sections[0].heading_path, "第1条 扶養手当");
    assert_eq!((sections[0].char_start, sections[0].char_end), (0, 40));
    assert_eq!(sections[0].chunk_ids_json, "[11,13]");
    assert_eq!(sections[0].concepts_json, "[\"扶養\",\"扶養手当\"]");
    assert_eq!(
        sections[0].summary_text,
        "section=第1条 扶養手当 chars=0-40 chunks=2 concepts=扶養, 扶養手当 sample=扶養手当は支給する。"
    );
    assert_eq!(sections[1].heading_path, "(見出しなし)");
    assert_eq!(sections[1].chunk_ids_json, "[12]");
    assert_eq!((document.chunk_count, document.char_count), (3, 50));
    assert_eq!(document.heading_index_json, "[\"第1条 扶養手当\"]");
    assert_eq!(
        document.summary_text,
        "document=rules.txt chars=50 chunks=3 concepts=扶養, 扶養手当 headings=第1条 扶養手当"
    );
}

#[test]
fn stored_contexts_read_back() {
    let chunks = vec![draft("第1条 扶養手当", "扶養手当は支給する。", 0)];
    let (sections, document) = rebuild_hierarchy_contexts("rules.txt", 10, &chunks, &vec![5]);
    let section = section_context(1, "rules.txt".to_string(), "/s".to_string(), &sections[0]);
    assert_eq!(section.chunk_ids, vec![5]);
    assert_eq!(section.concepts, vec!["扶養", "扶養手当"]);
    assert_eq!(section.heading_path, "第1条 扶養手当");
    let document = document_context(1, "rules.txt".to_string(), "/s".to_string(), &document);
    assert_eq!(document.concepts, vec!["扶養", "扶養手当"]);
    assert_eq!(document.heading_index, vec!["第1条 扶養手当"]);
}

#[test]
fn parents_of_an_indexed_text_are_recalled() {
    let text = "第1章 給与\n第1条 扶養手当\n扶養手当は、扶養親族を有する職員に支給する。\n第2条 住宅手当\n住宅手当は借家に居住する職員に支給する。\n";
    let drafts = split_text_into_chunks(text);
    let ids: Vec<i64> = (1..=drafts.len() as i64).collect();
    let (rows, document) =
        rebuild_hierarchy_contexts("rules.txt", text.chars().count() as i64, &drafts, &ids);
    assert!(rows.len() >= 2);
    assert_eq!(document.chunk_count, drafts.len() as i64);
    let chunks: Vec<ChunkRecord> = drafts
        .iter()
        .zip(&ids)
        .map(|(d, id)| record(*id, &d.heading_path, &d.content))
        .collect();
    let question = "手当はどうなっていますか";
    let mut profile = QuestionProfile::from_question(question);
    enrich_profile_with_source_concepts(&mut profile, &chunks, question);
    let sections: Vec<SectionContext> = rows
        .iter()
        .map(|row| section_context(1, "rules.txt".to_string(), "/s".to_string(), row))
        .collect();
    let documents = vec![document_context(1, "rules.txt".to_string(), "/s".to_string(), &document)];
    let hierarchy = load_hierarchy_context(&vec![1], documents, sections, &profile, &[]);
    let context = build_batch_hierarchy_context(&chunks[..1], &hierarchy);
    assert!(context.contains("DOCUMENT parents"));
    assert!(context.contains("SECTION parents"));
    assert!(context.contains("扶養手当") || context.contains("住宅手当"));
}

#[test]
fn sections_are_ranked_by_relevance() {
    let sections = vec![
        section("b.txt", "第9条 雑則", 0, &[1], &[]),
        section("a.txt", "第1条 扶養手当", 50, &[2], &["扶養手当"]),
        section("a.txt", "第2条 旅費", 5, &[3], &[]),
        section("a.txt", "第3条 旅費", 2, &[4], &[]),
    ];
    let ranked = filter_hierarchy_sections(sections, &profile(true), &[hit(1, "")]);
    let headings: Vec<&str> = ranked.iter().map(|s| s.heading_path.as_str()).collect();
    assert_eq!(headings, vec!["第1条 扶養手当", "第9条 雑則", "第3条 旅費", "第2条 旅費"]);
    assert_eq!(ranked[0].summary_text, "score=9.0 要約");
    assert_eq!(ranked[2].summary_text, "score=1.0 要約");
    let many: Vec<SectionContext> = (0..200).map(|i| section("a.txt", "x", i, &[], &[])).collect();
    assert_eq!(filter_hierarchy_sections(many, &profile(false), &[]).len(), 60);
}

#[test]
fn no_document_no_hierarchy() {
    let hierarchy = load_hierarchy_context(&vec![], vec![document()], vec![], &profile(true), &[]);
    assert!(hierarchy.documents.is_empty() && hierarchy.corpus_concepts.is_empty());
    assert_eq!(build_batch_hierarchy_context(&[], &hierarchy), "階層文脈なし");
    assert_eq!(build_answer_hierarchy_context(&hierarchy, &profile(true)), "階層文脈なし");
}

#[test]
fn batch_contexts_name_their_parents() {
    let hierarchy = HierarchyContext {
        sections: vec![
            section("rules.txt", "第1条", 0, &[7], &["扶養手当"]),
            section("rules.txt", "第2条", 10, &[8], &[]),
        ],
        documents: vec![document()],
        corpus_concepts: vec!["扶養手当".to_string(), "旅費".to_string()],
    };
    let context = build_batch_hierarchy_context(&[record(7, "別の見出し", "x")], &hierarchy);
    assert_eq!(
        context,
        "CORPUS concepts: 扶養手当, 旅費\nDOCUMENT parents:\n- file=rules.txt path=/s/rules.txt chunks=2 chars=30 concepts=扶養手当 summary=全体\nSECTION parents:\n- file=rules.txt path=/s/rules.txt heading=第1条 chars=0-10 concepts=扶養手当 summary=要約\n"
    );
    let same_heading = build_batch_hierarchy_context(&[record(99, "第2条", "x")], &hierarchy);
    assert!(same_heading.contains("heading=第2条"));
    assert!(!same_heading.contains("heading=第1条"));
}

#[test]
fn answer_contexts_name_sections_for_broad_questions_only() {
    let hierarchy = HierarchyContext {
        sections: vec![section("rules.txt", "第1条", 0, &[7], &["扶養手当"])],
        documents: vec![document()],
        corpus_concepts: vec![],
    };
    let narrow = "CORPUS concepts: \nDOCUMENT summaries:\n- file=rules.txt path=/s/rules.txt chunks=2 chars=30 concepts=扶養手当 headings=第1条 / 第2条 summary=全体\n";
    assert_eq!(build_answer_hierarchy_context(&hierarchy, &profile(false)), narrow);
    let broad = format!(
        "{}RELEVANT section summaries:\n- file=rules.txt path=/s/rules.txt heading=第1条 concepts=扶養手当 summary=要約\n",
        narrow
    );
    assert_eq!(build_answer_hierarchy_context(&hierarchy, &profile(true)), broad);
}

#[test]
fn batches_fill_up_to_the_limit() {
    let chunks: Vec<ChunkRecord> = (1..=5).map(|id| record(id, "", &"あ".repeat(20))).collect();
    let batches = build_chunk_batches(&chunks, 200);
    let sizes: Vec<usize> = batches.iter().map(|b| b.len()).collect();
    assert_eq!(sizes, vec![2, 2, 1]);
    for pair in batches.windows(2) {
        let size = |c: &ChunkRecord| c.content.chars().count() + c.heading_path.chars().count() + 80;
        assert!(pair[0].iter().map(size).sum::<usize>() + size(&pair[1][0]) > 200);
    }
    let ids: Vec<i64> = batches.iter().flatten().map(|c| c.id).collect();
    assert_eq!(ids, vec![1, 2, 3, 4, 5]);
    assert_eq!(build_chunk_batches(&chunks, 0).len(), 5);
    assert!(build_chunk_batches(&[], 100).is_empty());
}

#[test]
fn hits_fill_the_context_up_to_the_limit() {
    let hits = [hit(1, "一"), hit(2, "二")];
    let one = "[S1] file=rules.txt chunk=1 chars=0-4 heading=第1条\n一\n\n";
    let all = build_context_from_hits(&hits, 1_000);
    assert!(all.starts_with(one));
    assert!(all.contains("[S2] file=rules.txt chunk=2"));
    let size = one.chars().count();
    assert_eq!(build_context_from_hits(&hits, size), one);
    assert_eq!(build_context_from_hits(&hits, size - 1), "");
}

#[test]
fn requests_hold_an_instruction_and_an_input() {
    let hierarchy = HierarchyContext { sections: vec![], documents: vec![], corpus_concepts: vec![] };
    let batch = [record(4, "第1条", "本文")];
    let messages = extraction_messages("質問文", &profile(true), &hierarchy, &batch);
    assert_eq!(messages.len(), 2);
    assert_eq!((messages[0].role.as_str(), messages[1].role.as_str()), ("system", "user"));
    let input = &messages[1].content;
    assert!(input.starts_with("質問:\n質問文\n\n広い質問か:\ntrue\n\n検索観点:\n手当, 扶養手当\n\nsource由来の下位概念候補:\n扶養手当\n\n抽出ルール:\n"));
    assert!(input.ends_with("PARENT_CONTEXT:\n階層文脈なし\n\nSOURCE:\n\n[C4] file=rules.txt chars=0-2 heading=第1条\n本文\n"));
    assert_eq!(profile_messages("質問文")[1].content, "質問文");
    let mut bare = profile(false);
    bare.lower_concepts.clear();
    assert_eq!(
        reduction_messages("質問文", &bare, &[])[1].content,
        "質問:\n質問文\n\n広い質問か:\nfalse\n\nsource由来の下位概念候補:\nなし\n\n残す最大件数:\n120\n\nFACTS:\n"
    );
    let synthesis = &synthesis_messages("質問文", &bare, &hierarchy, &[])[1].content;
    assert!(synthesis.contains("HIERARCHY_CONTEXT:\n階層文脈なし\n\nFACTS:\n\n\n回答要件:\n"));
    assert_eq!(
        fact_audit_messages("問", "答", &[])[1].content,
        "QUESTION:\n問\n\nANSWER:\n答\n\nFACTS:\n"
    );
    assert_eq!(
        revision_messages("問", "答", "監査", &[])[1].content,
        "QUESTION:\n問\n\nCURRENT_ANSWER:\n答\n\nAUDIT:\n監査\n\nFACTS:\n"
    );
    assert_eq!(audit_messages("答", &[], 100)[1].content, "ANSWER:\n答\n\nSOURCE:\n");
    assert!(answer_messages("問", &[], 100)[1].content.starts_with("質問:\n問\n\nSOURCE:\n\n\n要件:\n"));
}
