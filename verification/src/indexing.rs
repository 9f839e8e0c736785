//! Indexing: which files are read, which of them are read again, and what is stored of them.

use vstd::prelude::*;
use vstd::string::*;

use crate::api;
use crate::chunking;
use crate::chunking::{ChunkDraft, Draft};
use crate::digest;
use crate::hierarchy;
use crate::listing;
use crate::terms;
use crate::terms::TermRow;
use crate::text;
use crate::text::Text;

verus! {

// ---------------------------------------------------------------------------------------------
// Files

/// The extensions of the files that are read, in lower case.
pub open spec fn extensions() -> Seq<Text> {
    seq![
        "txt"@,
        "md"@,
        "markdown"@,
        "csv"@,
        "tsv"@,
        "json"@,
        "log"@,
        "text"@,
    ]
}

/// Whether files with an extension, in lower case, are read.
pub fn is_listed_extension(lower: &str) -> (r: bool)
    ensures
        r == extensions().contains(lower@),
{
    let all: Vec<&'static str> = vec![
        "txt",
        "md",
        "markdown",
        "csv",
        "tsv",
        "json",
        "log",
        "text",
    ];
    let ghost listed = extensions();
    for i in 0..all.len()
        invariant
            listed == extensions(),
            all@.len() == listed.len(),
            forall|k: int| 0 <= k < listed.len() ==> #[trigger] all@[k]@ == listed[k],
            forall|k: int| 0 <= k < i ==> #[trigger] listed[k] != lower@,
    {
        if text::same_text(all[i], lower) {
            assert(listed[i as int] == lower@);
            return true;
        }
    }
    false
}

/// Whether files with an extension are read, however it is capitalised.
pub fn is_source_extension(extension: &str) -> (r: bool)
    ensures
        r == extensions().contains(api::lower_case(extension@)),
{
    let lower = api::to_lower_case(extension);
    is_listed_extension(lower.as_str())
}

/// What is stored of a file that was read before.
pub struct StoredFile {
    pub sha256: String,
    pub mtime_ms: i64,
    pub size: i64,
    pub chunk_count: i64,
    /// Whether it is to be searched: 1 if so.
    pub selected: i64,
}

/// A file that is read for the first time is to be searched.
pub const SELECTED: i64 = 1;

/// Whether a file is to be searched once it was read: as before, if it was read before.
pub open spec fn kept_selection(stored: Option<StoredFile>) -> i64 {
    match stored {
        Some(file) => file.selected,
        None => SELECTED,
    }
}

/// Whether a file is to be searched once it was read, given what is stored of it.
pub fn selection_to_keep(stored: &Option<StoredFile>) -> (r: i64)
    ensures
        r == kept_selection(*stored),
{
    match stored {
        Some(file) => file.selected,
        None => SELECTED,
    }
}

/// Whether a file need not be read again: it was read into chunks, and nothing of it changed since.
pub open spec fn is_unchanged(
    stored: Option<StoredFile>,
    sha256: Text,
    mtime_ms: i64,
    size: i64,
) -> bool {
    match stored {
        Some(file) => file.sha256@ == sha256 && file.mtime_ms == mtime_ms && file.size == size
            && file.chunk_count > 0,
        None => false,
    }
}

/// Whether a file need not be read again, given its digest, when it was changed, and its size.
pub fn can_skip(stored: &Option<StoredFile>, sha256: &str, mtime_ms: i64, size: i64) -> (r: bool)
    ensures
        r == is_unchanged(*stored, sha256@, mtime_ms, size),
{
    match stored {
        Some(file) => text::same_text(file.sha256.as_str(), sha256) && file.mtime_ms == mtime_ms
            && file.size == size && file.chunk_count > 0,
        None => false,
    }
}

/// A file that was read into chunks is skipped as long as its digest, its time and its size stay the
/// same, and is read again as soon as one of them changes.
pub proof fn law_changed_files_are_read(
    stored: StoredFile,
    sha256: Text,
    mtime_ms: i64,
    size: i64,
)
    requires
        stored.chunk_count > 0,
    ensures
        is_unchanged(Some(stored), stored.sha256@, stored.mtime_ms, stored.size),
        is_unchanged(Some(stored), sha256, mtime_ms, size) <==> sha256 == stored.sha256@ && mtime_ms
            == stored.mtime_ms && size == stored.size,
{
}

/// What a file holds: its text, its digest and its length in characters.
pub struct FileContents {
    pub text: String,
    pub sha256: String,
    pub char_count: usize,
}

/// What the bytes of a file hold.
pub fn read_contents(bytes: &[u8]) -> (r: FileContents)
    ensures
        r.text@ == text::lossy_text(bytes@),
        r.sha256@ == digest::hex_notation(digest::sha256(bytes@)),
        r.char_count == r.text@.len(),
        forall|s: Text| bytes@ == #[trigger] vstd::utf8::encode_utf8(s) ==> r.text@ == s,
{
    let content = text::decode_lossy(bytes);
    let sha256 = digest::content_hash(bytes);
    let char_count = text::char_count(content.as_str());
    FileContents { text: content, sha256, char_count }
}

/// The documents whose file was not found.
pub open spec fn missing(documents: Seq<(i64, String)>, found: Seq<Text>) -> Seq<i64>
    decreases documents.len(),
{
    if documents.len() == 0 {
        Seq::empty()
    } else {
        let before = missing(documents.drop_last(), found);
        if found.contains(documents.last().1@) {
            before
        } else {
            before.push(documents.last().0)
        }
    }
}

/// The documents whose file was not found, given the paths of all documents and of all files.
pub fn missing_documents(documents: &Vec<(i64, String)>, found: &Vec<String>) -> (r: Vec<i64>)
    ensures
        r@ == missing(documents@, text::texts(found@)),
{
    let mut out: Vec<i64> = Vec::new();
    for i in 0..documents.len()
        invariant
            out@ == missing(documents@.take(i as int), text::texts(found@)),
    {
        assert(documents@.take(i + 1).drop_last() =~= documents@.take(i as int));
        if !hierarchy::has_text(found, documents[i].1.as_str()) {
            out.push(documents[i].0);
        }
    }
    assert(documents@.take(documents@.len() as int) =~= documents@);
    out
}

// ---------------------------------------------------------------------------------------------
// Chunks

/// What is stored of a chunk.
pub struct ChunkEntry {
    pub draft: ChunkDraft,
    pub content_hash: String,
    pub terms: Vec<TermRow>,
    /// The embedding of the heading and the content, before it is scaled to unit length.
    pub embedding: Vec<i128>,
}

/// The text whose embedding stands for a chunk.
pub open spec fn embedded_text(draft: Draft) -> Text {
    text::concat(seq![draft.heading, "\n"@, draft.content])
}

impl ChunkEntry {
    /// Whether this is what is stored of a chunk.
    pub open spec fn is_entry_of(self, draft: Draft) -> bool {
        &&& self.draft@ == draft
        &&& self.content_hash@ == digest::hex_notation(
            digest::sha256(vstd::utf8::encode_utf8(draft.content)),
        )
        &&& listing::lists(
            Seq::new(self.terms@.len(), |i: int| self.terms@[i].term@),
            terms::terms_of(draft.content).union(terms::terms_of(draft.heading)),
        )
        &&& forall|i: int|
            0 <= i < self.terms@.len() ==> {
                let w = terms::chunk_weight(
                    draft.content,
                    draft.heading,
                    #[trigger] self.terms@[i].term@,
                );
                self.terms@[i].weight as nat == if w < terms::MAX_STORED_WEIGHT {
                    w
                } else {
                    terms::MAX_STORED_WEIGHT as nat
                }
            }
        &&& self.embedding@.len() == terms::EMBEDDING_DIMS
        &&& forall|b: int|
            0 <= b < terms::EMBEDDING_DIMS ==> #[trigger] self.embedding@[b] == terms::component(
                listing::listing(terms::terms_of(embedded_text(draft))),
                b as nat,
            )
    }
}

fn chunk_entry(draft: ChunkDraft) -> (r: ChunkEntry)
    ensures
        r.is_entry_of(draft@),
{
    let content_hash = digest::content_hash(draft.content.as_str().as_bytes());
    let terms = terms::term_rows(draft.content.as_str(), draft.heading_path.as_str());
    let parts: Vec<&str> = vec![draft.heading_path.as_str(), "\n", draft.content.as_str()];
    assert(text::views(parts@) =~= seq![draft@.heading, "\n"@, draft@.content]);
    let whole = text::concat_all(&parts);
    let embedding = terms::embedding_counts(whole.as_str());
    ChunkEntry { draft, content_hash, terms, embedding }
}

/// What is stored of the chunks of a text, in order.
pub fn index_text(content: &str) -> (r: Vec<ChunkEntry>)
    requires
        content@.len() <= i64::MAX,
    ensures
        r@.len() == chunking::chunks_of(content@).len(),
        forall|i: int|
            0 <= i < r@.len() ==> (#[trigger] r@[i]).is_entry_of(chunking::chunks_of(content@)[i]),
{
    let mut rest = chunking::split_text_into_chunks(content);
    let ghost all = chunking::chunks_of(content@);
    let ghost total = rest@;
    let mut out: Vec<ChunkEntry> = Vec::new();
    while rest.len() > 0
        invariant
            all == chunking::drafts(total),
            out@.len() + rest@.len() == total.len(),
            rest@ == total.skip(out@.len() as int),
            forall|k: int| 0 <= k < out@.len() ==> (#[trigger] out@[k]).is_entry_of(all[k]),
        decreases rest@.len(),
    {
        let ghost n = out@.len() as int;
        let draft = rest.remove(0);
        assert(draft == total[n]);
        assert(all[n] == draft@);
        out.push(chunk_entry(draft));
        assert(rest@ =~= total.skip(n + 1));
    }
    out
}

/// What is to be done with a file.
pub enum FilePlan {
    /// Nothing: it did not change.
    Skip,
    /// Its contents and its chunks are to be stored.
    Store(FileContents, Vec<ChunkEntry>),
    /// Nothing: it has more characters than can be counted.
    TooLong,
}

/// Whether a plan is the right one for a file: it is skipped if it did not change; otherwise it is
/// stored with its chunks, unless it has more characters than can be counted.
pub open spec fn is_plan_for(
    plan: FilePlan,
    bytes: Seq<u8>,
    mtime_ms: i64,
    size: i64,
    stored: Option<StoredFile>,
) -> bool {
    let content = text::lossy_text(bytes);
    let sha256 = digest::hex_notation(digest::sha256(bytes));
    match plan {
        FilePlan::Skip => is_unchanged(stored, sha256, mtime_ms, size),
        FilePlan::TooLong => !is_unchanged(stored, sha256, mtime_ms, size) && content.len()
            > i64::MAX,
        FilePlan::Store(contents, chunks) => {
            let drafts = chunking::chunks_of(content);
            &&& !is_unchanged(stored, sha256, mtime_ms, size)
            &&& content.len() <= i64::MAX
            &&& contents.text@ == content
            &&& contents.sha256@ == sha256
            &&& contents.char_count == content.len()
            &&& chunks@.len() == drafts.len()
            &&& forall|i: int|
                0 <= i < chunks@.len() ==> (#[trigger] chunks@[i]).is_entry_of(drafts[i])
        },
    }
}

/// What is to be done with a file, given its bytes, when it was changed, its size, and what is stored
/// of it.
pub fn index_one_file(
    bytes: &[u8],
    mtime_ms: i64,
    size: i64,
    stored: &Option<StoredFile>,
) -> (r: FilePlan)
    ensures
        is_plan_for(r, bytes@, mtime_ms, size, *stored),
{
    let contents = read_contents(bytes);
    if can_skip(stored, contents.sha256.as_str(), mtime_ms, size) {
        return FilePlan::Skip;
    }
    if contents.char_count as u128 > i64::MAX as u128 {
        return FilePlan::TooLong;
    }
    let chunks = index_text(contents.text.as_str());
    FilePlan::Store(contents, chunks)
}

/// The chunks directly before and after each of the chunks of a document.
pub open spec fn neighbours_of(ids: Seq<i64>, i: int) -> (Option<i64>, Option<i64>) {
    (
        if i > 0 {
            Some(ids[i - 1])
        } else {
            None
        },
        if i + 1 < ids.len() {
            Some(ids[i + 1])
        } else {
            None
        },
    )
}

/// The chunks directly before and after each of the chunks of a document, given their identifiers in
/// order.
pub fn chunk_links(ids: &Vec<i64>) -> (r: Vec<(Option<i64>, Option<i64>)>)
    ensures
        r@.len() == ids@.len(),
        forall|i: int| 0 <= i < r@.len() ==> #[trigger] r@[i] == neighbours_of(ids@, i),
{
    let mut out: Vec<(Option<i64>, Option<i64>)> = Vec::new();
    let total = ids.len();
    for i in 0..total
        invariant
            total == ids@.len(),
            out@.len() == i,
            forall|k: int| 0 <= k < i ==> #[trigger] out@[k] == neighbours_of(ids@, k),
    {
        let prev = if i > 0 {
            Some(ids[i - 1])
        } else {
            None
        };
        let next = if i + 1 < total {
            Some(ids[i + 1])
        } else {
            None
        };
        out.push((prev, next));
    }
    out
}

/// Links go both ways: what comes after a chunk has that chunk before it. The first chunk has none
/// before it, the last none after it.
pub proof fn law_links_go_both_ways(ids: Seq<i64>, i: int)
    requires
        0 <= i < ids.len(),
    ensures
        i + 1 < ids.len() ==> neighbours_of(ids, i).1 == Some(ids[i + 1]) && neighbours_of(
            ids,
            i + 1,
        ).0 == Some(ids[i]),
        neighbours_of(ids, 0).0 is None,
        neighbours_of(ids, ids.len() - 1).1 is None,
{
}

// ---------------------------------------------------------------------------------------------
// Reading again

/// A chunk as the index holds it.
pub struct IndexedChunk {
    pub id: i64,
    pub ordinal: int,
    pub prev: Option<i64>,
    pub next: Option<i64>,
    pub draft: Draft,
}

/// Chunks as the index holds them, under the identifiers that they were given.
pub open spec fn indexed_chunks(drafts: Seq<Draft>, ids: Seq<i64>) -> Seq<IndexedChunk> {
    Seq::new(
        drafts.len(),
        |i: int|
            IndexedChunk {
                id: ids[i],
                ordinal: i,
                prev: neighbours_of(ids, i).0,
                next: neighbours_of(ids, i).1,
                draft: drafts[i],
            },
    )
}

/// A file as the index holds it.
pub struct IndexedFile {
    pub sha256: Text,
    pub mtime_ms: i64,
    pub size: i64,
    pub selected: i64,
    pub chunks: Seq<IndexedChunk>,
}

/// Whether this is what is stored of a file.
pub open spec fn is_stored_of(stored: Option<StoredFile>, file: Option<IndexedFile>) -> bool {
    match (stored, file) {
        (Some(row), Some(file)) => {
            &&& row.sha256@ == file.sha256
            &&& row.mtime_ms == file.mtime_ms
            &&& row.size == file.size
            &&& row.chunk_count == file.chunks.len()
            &&& row.selected == file.selected
        },
        (None, None) => true,
        _ => false,
    }
}

/// The drafts of some entries.
pub open spec fn entry_drafts(entries: Seq<ChunkEntry>) -> Seq<Draft> {
    Seq::new(entries.len(), |i: int| entries[i].draft@)
}

/// What the index holds of a file once a plan was carried out: what is stored takes the place of all
/// that was there, but for the selection; any other plan changes nothing.
pub open spec fn carried_out(
    file: Option<IndexedFile>,
    plan: FilePlan,
    mtime_ms: i64,
    size: i64,
    stored: Option<StoredFile>,
    ids: Seq<i64>,
) -> Option<IndexedFile> {
    match plan {
        FilePlan::Store(contents, chunks) => Some(
            IndexedFile {
                sha256: contents.sha256@,
                mtime_ms,
                size,
                selected: kept_selection(stored),
                chunks: indexed_chunks(entry_drafts(chunks@), ids),
            },
        ),
        _ => file,
    }
}

/// After a file was stored, reading it again skips it, and changes nothing, if and only if it has
/// chunks and its digest, its time and its size are the same; so it does where its bytes, its time and
/// its size are. Otherwise the chunks of its new text, numbered and linked in order, take the place of
/// the old ones, and the selection stays, unless the text has more characters than can be counted;
/// then nothing changes.
pub proof fn law_indexing_again(
    first: Seq<u8>,
    first_time: i64,
    first_size: i64,
    before: Option<IndexedFile>,
    stored_before: Option<StoredFile>,
    first_plan: FilePlan,
    first_ids: Seq<i64>,
    second: Seq<u8>,
    second_time: i64,
    second_size: i64,
    stored_after: Option<StoredFile>,
    second_plan: FilePlan,
    second_ids: Seq<i64>,
)
    requires
        is_stored_of(stored_before, before),
        is_plan_for(first_plan, first, first_time, first_size, stored_before),
        first_plan is Store,
        is_stored_of(
            stored_after,
            carried_out(before, first_plan, first_time, first_size, stored_before, first_ids),
        ),
        is_plan_for(second_plan, second, second_time, second_size, stored_after),
    ensures
        ({
            let file = carried_out(
                before,
                first_plan,
                first_time,
                first_size,
                stored_before,
                first_ids,
            ).unwrap();
            let again = carried_out(
                Some(file),
                second_plan,
                second_time,
                second_size,
                stored_after,
                second_ids,
            );
            let content = text::lossy_text(second);
            let same_place = second_time == first_time && second_size == first_size;
            &&& file.chunks.len() == chunking::chunks_of(text::lossy_text(first)).len()
            &&& file.selected == match before {
                Some(old_file) => old_file.selected,
                None => SELECTED,
            }
            &&& second_plan is Skip <==> file.chunks.len() > 0 && same_place
                && digest::hex_notation(digest::sha256(second)) == digest::hex_notation(
                digest::sha256(first),
            )
            &&& file.chunks.len() > 0 && same_place && second == first ==> second_plan is Skip
            &&& second_plan is Skip ==> again == Some(file)
            &&& second_plan is TooLong ==> again == Some(file) && content.len() > i64::MAX
            &&& second_plan !is Skip && content.len() <= i64::MAX ==> second_plan is Store && again
                == Some(
                IndexedFile {
                    sha256: digest::hex_notation(digest::sha256(second)),
                    mtime_ms: second_time,
                    size: second_size,
                    selected: file.selected,
                    chunks: indexed_chunks(chunking::chunks_of(content), second_ids),
                },
            )
        }),
{
    match first_plan {
        FilePlan::Store(contents, chunks) => {
            assert(entry_drafts(chunks@) =~= chunking::chunks_of(text::lossy_text(first)));
        },
        _ => {},
    }
    match second_plan {
        FilePlan::Store(contents, chunks) => {
            assert(entry_drafts(chunks@) =~= chunking::chunks_of(text::lossy_text(second)));
        },
        _ => {},
    }
}

// ---------------------------------------------------------------------------------------------
// Outcome

/// What became of a file.
pub enum FileIndexOutcome {
    /// It was read into this many chunks.
    Indexed(usize),
    Skipped,
    Failed,
}

/// What became of the files of a directory.
pub struct IndexSummary {
    pub scanned_files: usize,
    pub indexed_files: usize,
    pub skipped_files: usize,
    pub failed_files: usize,
    pub chunk_count: u128,
}

impl IndexSummary {
    /// Every file that was dealt with was indexed, skipped or failed.
    pub open spec fn wf(self) -> bool {
        &&& self.indexed_files + self.skipped_files + self.failed_files <= self.scanned_files
        &&& self.chunk_count <= self.indexed_files * usize::MAX
    }

    /// How many files were dealt with.
    pub open spec fn dealt_with(self) -> int {
        self.indexed_files + self.skipped_files + self.failed_files
    }

    /// No file was dealt with yet.
    pub fn new(scanned_files: usize) -> (r: Self)
        ensures
            r.wf(),
            r.scanned_files == scanned_files,
            r.dealt_with() == 0,
            r.chunk_count == 0,
    {
        IndexSummary {
            scanned_files,
            indexed_files: 0,
            skipped_files: 0,
            failed_files: 0,
            chunk_count: 0,
        }
    }

    /// Counts in what became of a file.
    pub fn record(&mut self, outcome: &FileIndexOutcome)
        requires
            old(self).wf(),
            old(self).dealt_with() < old(self).scanned_files,
        ensures
            final(self).wf(),
            final(self).dealt_with() == old(self).dealt_with() + 1,
            *final(self) == match *outcome {
                FileIndexOutcome::Indexed(chunks) => IndexSummary {
                    indexed_files: (old(self).indexed_files + 1) as usize,
                    chunk_count: (old(self).chunk_count + chunks) as u128,
                    ..*old(self)
                },
                FileIndexOutcome::Skipped => IndexSummary {
                    skipped_files: (old(self).skipped_files + 1) as usize,
                    ..*old(self)
                },
                FileIndexOutcome::Failed => IndexSummary {
                    failed_files: (old(self).failed_files + 1) as usize,
                    ..*old(self)
                },
            },
    {
        match outcome {
            FileIndexOutcome::Indexed(chunks) => {
                proof {
                    let n = self.indexed_files as int;
                    let m = usize::MAX as int;
                    assert((n + 1) * m == n * m + m) by (nonlinear_arith);
                    assert(n * m <= m * m) by (nonlinear_arith)
                        requires
                            0 <= n <= m,
                    ;
                    assert(m * m + m <= u128::MAX) by (nonlinear_arith)
                        requires
                            0 <= m <= 0xffff_ffff_ffff_ffff,
                    ;
                }
                self.indexed_files = self.indexed_files + 1;
                self.chunk_count = self.chunk_count + *chunks as u128;
            },
            FileIndexOutcome::Skipped => {
                self.skipped_files = self.skipped_files + 1;
            },
            FileIndexOutcome::Failed => {
                self.failed_files = self.failed_files + 1;
            },
        }
    }
}

// ---------------------------------------------------------------------------------------------
// Laws on files

/// The files that are read are those of these kinds, and no others.
pub proof fn law_extensions(lower: Text)
    ensures
        extensions().contains(lower) <==> lower == "txt"@ || lower == "md"@ || lower == "markdown"@
            || lower == "csv"@ || lower == "tsv"@ || lower == "json"@ || lower == "log"@ || lower
            == "text"@,
{
    let all = extensions();
    assert(all[0] == "txt"@ && all[1] == "md"@ && all[2] == "markdown"@ && all[3] == "csv"@ && all[4]
        == "tsv"@ && all[5] == "json"@ && all[6] == "log"@ && all[7] == "text"@);
}

/// The documents that are removed are those whose files were not found, and no others.
pub proof fn law_missing(documents: Seq<(i64, String)>, found: Seq<Text>, id: i64)
    ensures
        missing(documents, found).contains(id) <==> exists|i: int|
            0 <= i < documents.len() && (#[trigger] documents[i]).0 == id && !found.contains(
                documents[i].1@,
            ),
        missing(documents, found).len() <= documents.len(),
    decreases documents.len(),
{
    if documents.len() > 0 {
        let front = documents.drop_last();
        let n = documents.len() - 1;
        let before = missing(front, found);
        let all = missing(documents, found);
        law_missing(front, found, id);
        if all.contains(id) {
            let k = choose|k: int| 0 <= k < all.len() && all[k] == id;
            if k < before.len() {
                assert(before[k] == id);
                let i = choose|i: int|
                    0 <= i < front.len() && (#[trigger] front[i]).0 == id && !found.contains(
                        front[i].1@,
                    );
                assert(documents[i] == front[i]);
            } else {
                assert(documents[n].0 == id);
            }
        }
        if exists|i: int|
            0 <= i < documents.len() && (#[trigger] documents[i]).0 == id && !found.contains(
                documents[i].1@,
            ) {
            let i = choose|i: int|
                0 <= i < documents.len() && (#[trigger] documents[i]).0 == id && !found.contains(
                    documents[i].1@,
                );
            if i < n {
                assert(front[i] == documents[i]);
                let k = choose|k: int| 0 <= k < before.len() && before[k] == id;
                assert(all[k] == id);
            } else {
                assert(all[before.len() as int] == id);
            }
        }
    }
}

/// A new file is selected for the search; a known one stays selected or not, as it was.
pub proof fn law_selection_is_kept(file: StoredFile)
    ensures
        kept_selection(None) == 1,
        kept_selection(Some(file)) == file.selected,
{
}

/// What is embedded of a chunk is its heading path, a line end and its text.
pub proof fn law_embedded_text(draft: Draft)
    ensures
        embedded_text(draft) == draft.heading + "\n"@ + draft.content,
{
    let parts = seq![draft.heading, "\n"@, draft.content];
    reveal_with_fuel(text::concat, 4);
    let two = parts.drop_last();
    assert(two.drop_last().drop_last() =~= Seq::<Text>::empty());
    assert(embedded_text(draft) =~= draft.heading + "\n"@ + draft.content);
}

/// The chunks of a file are stored in order, each under its own number and linked to its neighbours.
pub proof fn law_indexed_chunks(drafts: Seq<Draft>, ids: Seq<i64>, i: int)
    requires
        0 <= i < drafts.len(),
        ids.len() == drafts.len(),
    ensures
        ({
            let chunks = indexed_chunks(drafts, ids);
            &&& chunks.len() == drafts.len()
            &&& chunks[i].id == ids[i]
            &&& chunks[i].ordinal == i
            &&& chunks[i].draft == drafts[i]
            &&& i + 1 < drafts.len() ==> chunks[i].next == Some(chunks[i + 1].id) && chunks[i + 1].prev
                == Some(chunks[i].id)
            &&& chunks[0].prev is None
            &&& chunks.last().next is None
        }),
{
}

/// What is stored of a chunk: the digest of its text, its terms with weights of twelve at most, and an
/// embedding of 384 components.
pub proof fn law_entries(entry: ChunkEntry, draft: Draft, i: int)
    requires
        entry.is_entry_of(draft),
        0 <= i < entry.terms@.len(),
    ensures
        entry.draft@ == draft,
        entry.content_hash@ == digest::hex_notation(
            digest::sha256(vstd::utf8::encode_utf8(draft.content)),
        ),
        entry.embedding@.len() == 384,
        entry.terms@[i].weight <= 12,
        terms::chunk_weight(draft.content, draft.heading, entry.terms@[i].term@) <= 12
            ==> entry.terms@[i].weight == terms::chunk_weight(
            draft.content,
            draft.heading,
            entry.terms@[i].term@,
        ),
        entry.terms@[i].weight > 0,
        terms::terms_of(draft.content).contains(entry.terms@[i].term@) || terms::terms_of(
            draft.heading,
        ).contains(entry.terms@[i].term@),
{
    let listed = Seq::new(entry.terms@.len(), |k: int| entry.terms@[k].term@);
    let x = entry.terms@[i].term@;
    assert(listed[i] == x);
    assert(listed.contains(x));
    terms::law_chunk_weights(draft.content, draft.heading, x);
}

} // verus!
