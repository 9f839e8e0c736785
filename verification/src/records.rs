//! What the local index holds, as plain values.

use vstd::prelude::*;
use vstd::string::*;

use crate::text;
use crate::text::Text;

verus! {

/// A chunk of an indexed document.
pub struct ChunkRecord {
    pub id: i64,
    pub document_id: i64,
    pub file_name: String,
    pub path: String,
    pub heading_path: String,
    pub char_start: i64,
    pub char_end: i64,
    pub content: String,
    pub prev_chunk_id: Option<i64>,
    pub next_chunk_id: Option<i64>,
}

impl Clone for ChunkRecord {
    fn clone(&self) -> (r: Self)
        ensures
            r == *self,
    {
        ChunkRecord {
            id: self.id,
            document_id: self.document_id,
            file_name: self.file_name.clone(),
            path: self.path.clone(),
            heading_path: self.heading_path.clone(),
            char_start: self.char_start,
            char_end: self.char_end,
            content: self.content.clone(),
            prev_chunk_id: self.prev_chunk_id,
            next_chunk_id: self.next_chunk_id,
        }
    }
}

/// A section's context as a mathematical value.
pub struct Section {
    pub document_id: i64,
    pub file_name: Text,
    pub path: Text,
    pub heading: Text,
    pub start: i64,
    pub end: i64,
    pub chunk_ids: Seq<i64>,
    pub concepts: Seq<Text>,
    pub summary: Text,
}

/// The context of a section: the chunks under one heading.
pub struct SectionContext {
    pub document_id: i64,
    pub file_name: String,
    pub path: String,
    pub heading_path: String,
    pub char_start: i64,
    pub char_end: i64,
    pub chunk_ids: Vec<i64>,
    pub concepts: Vec<String>,
    pub summary_text: String,
}

impl View for SectionContext {
    type V = Section;

    open spec fn view(&self) -> Section {
        Section {
            document_id: self.document_id,
            file_name: self.file_name@,
            path: self.path@,
            heading: self.heading_path@,
            start: self.char_start,
            end: self.char_end,
            chunk_ids: self.chunk_ids@,
            concepts: text::texts(self.concepts@),
            summary: self.summary_text@,
        }
    }
}

/// A document's context as a mathematical value.
pub struct Document {
    pub document_id: i64,
    pub file_name: Text,
    pub path: Text,
    pub chunk_count: i64,
    pub char_count: i64,
    pub concepts: Seq<Text>,
    pub headings: Seq<Text>,
    pub summary: Text,
}

/// The context of a document.
pub struct DocumentContext {
    pub document_id: i64,
    pub file_name: String,
    pub path: String,
    pub chunk_count: i64,
    pub char_count: i64,
    pub concepts: Vec<String>,
    pub heading_index: Vec<String>,
    pub summary_text: String,
}

impl View for DocumentContext {
    type V = Document;

    open spec fn view(&self) -> Document {
        Document {
            document_id: self.document_id,
            file_name: self.file_name@,
            path: self.path@,
            chunk_count: self.chunk_count,
            char_count: self.char_count,
            concepts: text::texts(self.concepts@),
            headings: text::texts(self.heading_index@),
            summary: self.summary_text@,
        }
    }
}

/// What stands above the chunks that a question concerns.
pub struct HierarchyContext {
    pub sections: Vec<SectionContext>,
    pub documents: Vec<DocumentContext>,
    pub corpus_concepts: Vec<String>,
}

/// A chunk that the search found, but for its scores.
pub struct SearchHit {
    pub chunk_id: i64,
    pub document_id: i64,
    pub file_name: String,
    pub path: String,
    pub heading_path: String,
    pub char_start: i64,
    pub char_end: i64,
    pub snippet: String,
    pub debug: String,
}

/// A hit as a mathematical value.
pub struct Hit {
    pub chunk_id: i64,
    pub document_id: i64,
    pub file_name: Text,
    pub path: Text,
    pub heading: Text,
    pub start: i64,
    pub end: i64,
    pub snippet: Text,
    pub debug: Text,
}

impl View for SearchHit {
    type V = Hit;

    open spec fn view(&self) -> Hit {
        Hit {
            chunk_id: self.chunk_id,
            document_id: self.document_id,
            file_name: self.file_name@,
            path: self.path@,
            heading: self.heading_path@,
            start: self.char_start,
            end: self.char_end,
            snippet: self.snippet@,
            debug: self.debug@,
        }
    }
}

} // verus!
