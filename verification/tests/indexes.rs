use mini_lm::indexing::{
    can_skip, chunk_links, index_one_file, index_text, is_listed_extension, is_source_extension,
    missing_documents, read_contents, selection_to_keep, FileIndexOutcome, FilePlan, IndexSummary, StoredFile,
};
use mini_lm::vectors::{decode_vector, encode_vector};

const RULES: &str = "第1章 給与\n第1条 扶養手当\n扶養手当は、扶養親族を有する職員に支給する。\n第2条 通勤手当\n通勤手当は通勤距離に応じて支給する。\n";

fn stored(sha256: &str, chunk_count: i64) -> Option<StoredFile> {
    Some(StoredFile { sha256: sha256.to_string(), mtime_ms: 5, size: 7, chunk_count, selected: 0 })
}

#[test]
fn text_files_are_read() {
    for extension in ["txt", "MD", "Markdown", "csv", "TSV", "json", "log", "text"] {
        assert!(is_source_extension(extension));
    }
    for extension in ["pdf", "", "txt2", "rs"] {
        assert!(!is_source_extension(extension));
    }
    assert!(is_listed_extension("txt"));
    assert!(!is_listed_extension("TXT"));
}

#[test]
fn unchanged_files_are_skipped() {
    assert!(can_skip(&stored("ab", 1), "ab", 5, 7));
    assert!(!can_skip(&stored("ab", 0), "ab", 5, 7));
    assert!(!can_skip(&stored("ab", 1), "ac", 5, 7));
    assert!(!can_skip(&stored("ab", 1), "ab", 6, 7));
    assert!(!can_skip(&stored("ab", 1), "ab", 5, 8));
    assert!(!can_skip(&None, "ab", 5, 7));
}

#[test]
fn files_are_stored_once() {
    let bytes = RULES.as_bytes();
    match index_one_file(bytes, 5, 7, &None) {
        FilePlan::Store(contents, chunks) => {
            assert_eq!(contents.text, RULES);
            assert_eq!(contents.char_count, RULES.chars().count());
            assert!(!chunks.is_empty());
            let again = index_one_file(bytes, 5, 7, &stored(&contents.sha256, chunks.len() as i64));
            assert!(matches!(again, FilePlan::Skip));
            let changed = index_one_file("第3条 旅費\n".as_bytes(), 5, 7, &stored(&contents.sha256, 1));
            match changed {
                FilePlan::Store(_, replaced) => assert_eq!(replaced[0].draft.content, "第3条 旅費"),
                _ => panic!("a changed file should be stored"),
            }
            let touched = index_one_file(bytes, 6, 7, &stored(&contents.sha256, 1));
            assert!(matches!(touched, FilePlan::Store(_, _)));
            let empty = index_one_file(bytes, 5, 7, &stored(&contents.sha256, 0));
            assert!(matches!(empty, FilePlan::Store(_, _)));
        }
        _ => panic!("first reading should not be skipped"),
    }
}

#[test]
fn selections_are_kept() {
    assert_eq!(selection_to_keep(&None), 1);
    assert_eq!(selection_to_keep(&stored("ab", 3)), 0);
}

#[test]
fn contents_are_read_as_utf8() {
    let contents = read_contents(b"ab\xff\xe6\x89c");
    assert_eq!(contents.text, "ab\u{fffd}\u{fffd}c");
    assert_eq!(contents.char_count, 5);
    assert_eq!(read_contents("扶養".as_bytes()).text, "扶養");
}

#[test]
fn chunks_are_stored_with_terms_and_embeddings() {
    let entries = index_text(RULES);
    assert!(entries.iter().any(|e| e.draft.content.contains("扶養手当")));
    for entry in &entries {
        assert_eq!(entry.content_hash, read_contents(entry.draft.content.as_bytes()).sha256);
        assert_eq!(entry.embedding.len(), 384);
        assert!(entry.embedding.iter().any(|c| *c != 0));
        assert!(entry.terms.iter().all(|t| 1 <= t.weight && t.weight <= 12));
        assert!(entry.terms.windows(2).all(|w| w[0].term < w[1].term));
    }
}

#[test]
fn links_go_both_ways() {
    assert_eq!(
        chunk_links(&vec![4, 9, 2]),
        vec![(None, Some(9)), (Some(4), Some(2)), (Some(9), None)]
    );
    assert_eq!(chunk_links(&vec![4]), vec![(None, None)]);
    assert!(chunk_links(&vec![]).is_empty());
}

#[test]
fn lost_files_are_missing() {
    let documents = vec![(1, "/a".to_string()), (2, "/b".to_string()), (3, "/c".to_string())];
    assert_eq!(missing_documents(&documents, &vec!["/b".to_string()]), vec![1, 3]);
    assert!(missing_documents(&vec![], &vec![]).is_empty());
}

#[test]
fn outcomes_are_counted() {
    let mut summary = IndexSummary::new(3);
    summary.record(&FileIndexOutcome::Indexed(4));
    summary.record(&FileIndexOutcome::Skipped);
    summary.record(&FileIndexOutcome::Failed);
    assert_eq!(summary.scanned_files, 3);
    assert_eq!((summary.indexed_files, summary.skipped_files, summary.failed_files), (1, 1, 1));
    assert_eq!(summary.chunk_count, 4);
}

#[test]
fn vectors_read_back() {
    let bits: Vec<u32> = [0.0_f32, -1.5, 0.25, f32::MAX].iter().map(|f| f.to_bits()).collect();
    let blob = encode_vector(&bits);
    assert_eq!(&blob[4..8], &(-1.5_f32).to_le_bytes());
    assert_eq!(decode_vector(&blob), bits);
    assert_eq!(decode_vector(&blob[..7]), bits[..1].to_vec());
    assert!(decode_vector(&[]).is_empty());
}
