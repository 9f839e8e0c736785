use mini_lm::correction::{corrective_queries, needs_correction, MergedHits};
use mini_lm::fusion::{
    best_first, best_places, describe_standing, diminished_hits, expanded_ids, fuse_rankings,
    keep_selected, make_hit, rank_of, Board, Source,
};
use mini_lm::profile::QuestionProfile;
use mini_lm::records::{ChunkRecord, SearchHit};
use mini_lm::search::{
    exact_bonus, fts_query, make_snippet, ngram_terms, selected_document_ids,
};

fn words(items: &[&str]) -> Vec<String> {
    items.iter().map(|s| s.to_string()).collect()
}

fn record(id: i64, prev: Option<i64>, next: Option<i64>) -> ChunkRecord {
    ChunkRecord {
        id,
        document_id: 2,
        file_name: "rules.txt".to_string(),
        path: "/s/rules.txt".to_string(),
        heading_path: "第1条".to_string(),
        char_start: 1,
        char_end: 9,
        content: "扶養手当は支給する。".to_string(),
        prev_chunk_id: prev,
        next_chunk_id: next,
    }
}

fn hit(id: i64, debug: &str) -> SearchHit {
    SearchHit {
        chunk_id: id,
        document_id: 1,
        file_name: "rules.txt".to_string(),
        path: "/s/rules.txt".to_string(),
        heading_path: "第1条".to_string(),
        char_start: 0,
        char_end: 4,
        snippet: String::new(),
        debug: debug.to_string(),
    }
}

#[test]
fn full_text_queries_ask_for_alternatives() {
    assert_eq!(
        fts_query(" 扶養 \"手当\" ", &words(&["手当", "扶", "手当"])),
        Some("\"手当\" OR \"扶養 \"\"手当\"\"\"".to_string())
    );
    assert_eq!(fts_query("扶", &words(&["養"])), None);
    let many: Vec<String> = (10..40).map(|i| format!("t{}", i)).collect();
    let query = fts_query("", &many).unwrap();
    assert_eq!(query.matches(" OR ").count(), 9);
    assert!(query.starts_with("\"t10\" OR \"t11\""));
}

#[test]
fn term_queries_are_limited() {
    let many: Vec<String> = (100..200).map(|i| format!("t{}", i)).collect();
    let terms = ngram_terms(&many);
    assert_eq!(terms.len(), 60);
    assert_eq!(terms[59], "t159");
    assert_eq!(ngram_terms(&words(&["b", "a", "b"])), vec!["a", "b"]);
}

#[test]
fn requested_documents_come_first() {
    assert_eq!(selected_document_ids(&vec![3], &vec![1, 2]), vec![3]);
    assert_eq!(selected_document_ids(&vec![], &vec![1, 2]), vec![1, 2]);
}

#[test]
fn literal_matches_score_up_to_a_limit() {
    let terms = words(&["扶養手当", "手当", "通勤", "手"]);
    assert_eq!(exact_bonus(" 扶養手当 ", &terms, "扶養手当は支給する"), 180 + 45 + 20);
    assert_eq!(exact_bonus("通勤手当", &terms, "扶養手当は支給する"), 65);
    assert_eq!(exact_bonus("", &terms, "なし"), 0);
    let many: Vec<String> = (0..40).map(|_| "扶養手当".to_string()).collect();
    assert_eq!(exact_bonus("", &many, "扶養手当"), 450);
    assert_eq!(exact_bonus("", &many[..9].to_vec(), "扶養手当"), 405);
}

#[test]
fn snippets_show_the_first_term() {
    assert_eq!(make_snippet("短い", &words(&["短い"]), 700), "短い");
    let content = format!("{}扶養手当{}", "あ".repeat(100), "い".repeat(100));
    let terms = words(&["無い", "扶養手当"]);
    let snippet = make_snippet(&content, &terms, 30);
    assert_eq!(snippet, format!("...{}扶養手当{}...", "あ".repeat(10), "い".repeat(16)));
    let start = make_snippet(&content, &vec![], 30);
    assert_eq!(start, format!("{}...", "あ".repeat(30)));
    let end = make_snippet(&format!("{}手当", "あ".repeat(50)), &words(&["手当"]), 30);
    assert_eq!(end, format!("...{}手当", "あ".repeat(10)));
}

#[test]
fn rankings_are_brought_together() {
    let board = fuse_rankings(&vec![5, 3], &vec![3, 9], &vec![5]);
    let standings = board.standings();
    let ids: Vec<i64> = standings.iter().map(|s| s.chunk_id).collect();
    assert_eq!(ids, vec![3, 5, 9]);
    assert_eq!(board.ids(), ids);
    assert_eq!(rank_of(&standings[0].placings, Source::FullText), Some(2));
    assert_eq!(rank_of(&standings[0].placings, Source::Terms), Some(1));
    assert_eq!(rank_of(&standings[0].placings, Source::Vectors), None);
    assert_eq!(describe_standing(&standings[0]), "fts=Some(2) ngram=Some(1) vector=None");
    assert_eq!(standings[1].placings.len(), 2);
}

#[test]
fn neighbours_join_without_a_rank() {
    let mut board = Board::new();
    board.apply_ranking(&vec![7], Source::Terms);
    board.add_neighbours(&vec![6, 7, 8]);
    let standings = board.standings();
    let flags: Vec<(i64, bool, usize)> =
        standings.iter().map(|s| (s.chunk_id, s.neighbour, s.placings.len())).collect();
    assert_eq!(flags, vec![(6, true, 0), (7, false, 1), (8, true, 0)]);
}

#[test]
fn neighbours_stand_directly_before_and_after() {
    let records = vec![record(7, Some(6), Some(8)), record(2, None, Some(3)), record(9, Some(8), None)];
    assert_eq!(expanded_ids(&vec![7, 2, 9], &records, 2), vec![2, 3, 6, 7, 8]);
    assert_eq!(expanded_ids(&vec![4, 9], &records, 9), vec![8, 9]);
    assert!(expanded_ids(&vec![7], &records, 0).is_empty());
}

#[test]
fn the_best_come_first_and_ties_keep_their_order() {
    assert_eq!(best_first(&vec![1, 5, 5, -2, 9]), vec![4, 1, 2, 0, 3]);
    assert_eq!(best_places(&vec![1, 5, 5, -2, 9], 2), vec![4, 1]);
    assert!(best_first(&vec![]).is_empty());
}

#[test]
fn many_hits_of_a_document_rank_lower() {
    assert_eq!(
        diminished_hits(&vec![1, 1, 2, 1, 1, 2, 1]),
        vec![false, false, false, false, true, false, true]
    );
}

#[test]
fn only_selected_documents_are_searched() {
    assert_eq!(keep_selected(&vec![4, 5, 4, 6], &vec![4, 6]), vec![0, 2, 3]);
    assert!(keep_selected(&vec![4], &vec![]).is_empty());
}

#[test]
fn hits_show_their_chunk() {
    let shown = make_hit(&record(7, None, None), &words(&["扶養手当"]), "why".to_string());
    assert_eq!((shown.chunk_id, shown.document_id), (7, 2));
    assert_eq!((shown.char_start, shown.char_end), (1, 9));
    assert_eq!(shown.snippet, "扶養手当は支給する。");
    assert_eq!(shown.debug, "why");
}

#[test]
fn weak_searches_are_corrected() {
    let mut profile = QuestionProfile {
        terms: words(&["手当", "扶養"]),
        aspects: words(&["対象者"]),
        lower_concepts: words(&["扶養手当"]),
        is_broad: false,
    };
    assert!(!needs_correction(&profile, 3, false));
    assert!(needs_correction(&profile, 0, false));
    assert!(needs_correction(&profile, 3, true));
    assert_eq!(
        corrective_queries(" 手当は ", &profile),
        vec!["対象者", "手当 扶養", "手当は", "扶養手当"]
    );
    profile.is_broad = true;
    assert!(needs_correction(&profile, 3, false));
    profile.lower_concepts = (10..90).map(|i| format!("概念{}", i)).collect();
    profile.aspects = (10..90).map(|i| format!("観点{}", i)).collect();
    assert_eq!(corrective_queries("手当は", &profile).len(), 36);
}

#[test]
fn merged_hits_are_distinct() {
    let mut merged = MergedHits::new();
    assert_eq!(merged.seed(hit(1, "a")), None);
    assert_eq!(merged.seed(hit(1, "b")), Some(0));
    assert_eq!(merged.absorb(hit(2, "c"), "q"), None);
    assert_eq!(merged.absorb(hit(1, "d"), "r"), Some(0));
    assert_eq!(merged.absorb(hit(1, "e"), "s"), Some(0));
    let shown: Vec<(i64, &str)> = merged.hits.iter().map(|h| (h.chunk_id, h.debug.as_str())).collect();
    assert_eq!(shown, vec![(1, "b corrective_query=r"), (2, "c corrective_query=q")]);
}
