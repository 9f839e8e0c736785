//! The hierarchy above the chunks: sections, documents and the corpus, each with its concepts and a
//! summary.

use vstd::prelude::*;
use vstd::string::*;

use crate::chunking;
use crate::chunking::{ChunkDraft, Draft};
use crate::concepts;
use crate::json;
use crate::listing;
use crate::text;
use crate::text::Text;

verus! {

// ---------------------------------------------------------------------------------------------
// Sections of a document

/// The most concepts of a section and of a document.
pub const SECTION_CONCEPTS: usize = 40;

pub const DOCUMENT_CONCEPTS: usize = 80;

/// The most characters of a section's sample.
pub const SAMPLE_CHARS: usize = 260;

/// The most headings in a document's index, and those of them that its summary names.
pub const INDEXED_HEADINGS: usize = 120;

pub const SUMMARY_HEADINGS: usize = 30;

/// The heading under which a chunk is filed.
pub open spec fn heading_of(chunk: Draft) -> Text {
    if text::is_blank(chunk.heading) {
        "(見出しなし)"@
    } else {
        chunk.heading
    }
}

/// The headings of some chunks, each once, in the order in which they first occur.
pub open spec fn headings(chunks: Seq<Draft>) -> Seq<Text>
    decreases chunks.len(),
{
    if chunks.len() == 0 {
        Seq::empty()
    } else {
        let before = headings(chunks.drop_last());
        let heading = heading_of(chunks.last());
        if before.contains(heading) {
            before
        } else {
            before.push(heading)
        }
    }
}

/// The positions of the chunks under a heading.
pub open spec fn members(chunks: Seq<Draft>, heading: Text) -> Seq<int>
    decreases chunks.len(),
{
    if chunks.len() == 0 {
        Seq::empty()
    } else {
        let before = members(chunks.drop_last(), heading);
        if heading_of(chunks.last()) == heading {
            before.push(chunks.len() - 1)
        } else {
            before
        }
    }
}

/// The identifiers at some positions, as far as there are any.
pub open spec fn ids_at(ids: Seq<i64>, at: Seq<int>) -> Seq<i64>
    decreases at.len(),
{
    if at.len() == 0 {
        Seq::empty()
    } else {
        let before = ids_at(ids, at.drop_last());
        if at.last() < ids.len() {
            before.push(ids[at.last()])
        } else {
            before
        }
    }
}

/// The identifier at each of the positions is among them.
pub proof fn lemma_ids_at(ids: Seq<i64>, at: Seq<int>, i: int)
    requires
        at.contains(i),
        0 <= i < ids.len(),
    ensures
        ids_at(ids, at).contains(ids[i]),
    decreases at.len(),
{
    let before = ids_at(ids, at.drop_last());
    if at.last() == i {
        let all = ids_at(ids, at);
        assert(all[all.len() - 1] == ids[i]);
    } else {
        let k = choose|k: int| 0 <= k < at.len() && at[k] == i;
        assert(at.drop_last()[k] == i);
        lemma_ids_at(ids, at.drop_last(), i);
        let j = choose|j: int| 0 <= j < before.len() && before[j] == ids[i];
        assert(ids_at(ids, at)[j] == ids[i]);
    }
}

/// Where the first of some chunks starts.
pub open spec fn least_start(chunks: Seq<Draft>, at: Seq<int>) -> int
    decreases at.len(),
{
    if at.len() == 0 {
        0
    } else {
        let start = chunks[at.last()].start;
        if at.len() > 1 && least_start(chunks, at.drop_last()) < start {
            least_start(chunks, at.drop_last())
        } else {
            start
        }
    }
}

/// Where the last of some chunks ends.
pub open spec fn greatest_end(chunks: Seq<Draft>, at: Seq<int>) -> int
    decreases at.len(),
{
    if at.len() == 0 {
        0
    } else {
        let end = chunks[at.last()].end;
        if at.len() > 1 && greatest_end(chunks, at.drop_last()) > end {
            greatest_end(chunks, at.drop_last())
        } else {
            end
        }
    }
}

/// The heading paths and contents of the chunks at some positions.
pub open spec fn pairs_at(chunks: Seq<Draft>, at: Seq<int>) -> Seq<(Text, Text)> {
    Seq::new(at.len(), |i: int| (chunks[at[i]].heading, chunks[at[i]].content))
}

/// A section as it is stored.
pub struct StoredSection {
    pub heading: Text,
    pub start: int,
    pub end: int,
    pub ids: Text,
    pub concepts: Text,
    pub summary: Text,
}

/// What is stored of the section under a heading.
pub open spec fn section_entry(chunks: Seq<Draft>, ids: Seq<i64>, heading: Text) -> StoredSection {
    let at = members(chunks, heading);
    let chunk_ids = ids_at(ids, at);
    let start = least_start(chunks, at);
    let end = greatest_end(chunks, at);
    let concepts = concepts::top_concepts(pairs_at(chunks, at), SECTION_CONCEPTS as nat);
    StoredSection {
        heading,
        start,
        end,
        ids: json::json_numbers(chunk_ids),
        concepts: json::json_strings(concepts),
        summary: text::concat(
            seq![
                "section="@,
                heading,
                " chars="@,
                text::signed_decimal(start),
                "-"@,
                text::signed_decimal(end),
                " chunks="@,
                text::decimal(chunk_ids.len()),
                " concepts="@,
                text::joined(concepts, ", "@),
                " sample="@,
                text::excerpt(chunks[at[0]].content, SAMPLE_CHARS as nat),
            ],
        ),
    }
}

/// What is stored of all sections of a document.
pub open spec fn section_entries(chunks: Seq<Draft>, ids: Seq<i64>) -> Seq<StoredSection> {
    Seq::new(
        headings(chunks).len(),
        |i: int| section_entry(chunks, ids, headings(chunks)[i]),
    )
}

/// A row of the table of sections.
pub struct SectionRow {
    pub heading_path: String,
    pub char_start: i64,
    pub char_end: i64,
    pub chunk_ids_json: String,
    pub concepts_json: String,
    pub summary_text: String,
}

impl View for SectionRow {
    type V = StoredSection;

    open spec fn view(&self) -> StoredSection {
        StoredSection {
            heading: self.heading_path@,
            start: self.char_start as int,
            end: self.char_end as int,
            ids: self.chunk_ids_json@,
            concepts: self.concepts_json@,
            summary: self.summary_text@,
        }
    }
}

/// The contents of some rows.
pub open spec fn section_rows(rows: Seq<SectionRow>) -> Seq<StoredSection> {
    Seq::new(rows.len(), |i: int| rows[i]@)
}

/// The heading under which a chunk is filed.
fn filing_heading(chunk: &ChunkDraft) -> (r: String)
    ensures
        r@ == heading_of(chunk@),
{
    if text::blank(chunk.heading_path.as_str()) {
        text::copy_text("(見出しなし)")
    } else {
        chunk.heading_path.clone()
    }
}

/// Whether a list of texts has a text.
pub fn has_text(items: &Vec<String>, s: &str) -> (r: bool)
    ensures
        r == text::texts(items@).contains(s@),
{
    let ghost all = text::texts(items@);
    for i in 0..items.len()
        invariant
            all == text::texts(items@),
            forall|k: int| 0 <= k < i ==> #[trigger] all[k] != s@,
    {
        if text::same_text(items[i].as_str(), s) {
            assert(all[i as int] == s@);
            return true;
        }
    }
    false
}

fn heading_list(chunks: &Vec<ChunkDraft>) -> (r: Vec<String>)
    ensures
        text::texts(r@) == headings(chunking::drafts(chunks@)),
{
    let ghost all = chunking::drafts(chunks@);
    let mut out: Vec<String> = Vec::new();
    assert(text::texts(out@) =~= Seq::<Text>::empty());
    for i in 0..chunks.len()
        invariant
            all == chunking::drafts(chunks@),
            text::texts(out@) == headings(all.take(i as int)),
    {
        let ghost before = text::texts(out@);
        let heading = filing_heading(&chunks[i]);
        proof {
            assert(all.take(i + 1).drop_last() =~= all.take(i as int));
            assert(all.take(i + 1).last() == chunks@[i as int]@);
        }
        if !has_text(&out, heading.as_str()) {
            out.push(heading);
            assert(text::texts(out@) =~= before.push(heading@));
        }
    }
    assert(all.take(all.len() as int) =~= all);
    out
}

/// Positions as integers.
pub open spec fn positions(at: Seq<usize>) -> Seq<int> {
    Seq::new(at.len(), |i: int| at[i] as int)
}

fn member_list(chunks: &Vec<ChunkDraft>, heading: &str) -> (r: Vec<usize>)
    ensures
        positions(r@) == members(chunking::drafts(chunks@), heading@),
        forall|i: int| 0 <= i < r@.len() ==> (#[trigger] r@[i]) < chunks@.len(),
{
    let ghost all = chunking::drafts(chunks@);
    let mut out: Vec<usize> = Vec::new();
    assert(positions(out@) =~= Seq::<int>::empty());
    for i in 0..chunks.len()
        invariant
            all == chunking::drafts(chunks@),
            positions(out@) == members(all.take(i as int), heading@),
            forall|k: int| 0 <= k < out@.len() ==> (#[trigger] out@[k]) < i,
    {
        let ghost before = positions(out@);
        let own = filing_heading(&chunks[i]);
        proof {
            assert(all.take(i + 1).drop_last() =~= all.take(i as int));
            assert(all.take(i + 1).last() == chunks@[i as int]@);
        }
        if text::same_text(own.as_str(), heading) {
            out.push(i);
            assert(positions(out@) =~= before.push(i as int));
        }
    }
    assert(all.take(all.len() as int) =~= all);
    out
}

fn id_list(ids: &Vec<i64>, at: &Vec<usize>) -> (r: Vec<i64>)
    ensures
        r@ == ids_at(ids@, positions(at@)),
{
    let ghost all = positions(at@);
    let mut out: Vec<i64> = Vec::new();
    for i in 0..at.len()
        invariant
            all == positions(at@),
            out@ == ids_at(ids@, all.take(i as int)),
    {
        assert(all.take(i + 1).drop_last() =~= all.take(i as int));
        if at[i] < ids.len() {
            out.push(ids[at[i]]);
        }
    }
    assert(all.take(all.len() as int) =~= all);
    out
}

fn bounds_of(chunks: &Vec<ChunkDraft>, at: &Vec<usize>) -> (r: (i64, i64))
    requires
        forall|i: int| 0 <= i < at@.len() ==> (#[trigger] at@[i]) < chunks@.len(),
    ensures
        r.0 == least_start(chunking::drafts(chunks@), positions(at@)),
        r.1 == greatest_end(chunking::drafts(chunks@), positions(at@)),
{
    let ghost all = chunking::drafts(chunks@);
    let ghost places = positions(at@);
    let mut start: i64 = 0;
    let mut end: i64 = 0;
    for i in 0..at.len()
        invariant
            all == chunking::drafts(chunks@),
            places == positions(at@),
            forall|i: int| 0 <= i < at@.len() ==> (#[trigger] at@[i]) < chunks@.len(),
            start == least_start(all, places.take(i as int)),
            end == greatest_end(all, places.take(i as int)),
    {
        assert(places.take(i + 1).drop_last() =~= places.take(i as int));
        let chunk = &chunks[at[i]];
        assert(all[places.take(i + 1).last()] == chunk@);
        if i == 0 || chunk.char_start <= start {
            start = chunk.char_start;
        }
        if i == 0 || chunk.char_end >= end {
            end = chunk.char_end;
        }
    }
    assert(places.take(places.len() as int) =~= places);
    (start, end)
}

fn pair_list<'a>(chunks: &'a Vec<ChunkDraft>, at: &Vec<usize>) -> (r: Vec<(&'a str, &'a str)>)
    requires
        forall|i: int| 0 <= i < at@.len() ==> (#[trigger] at@[i]) < chunks@.len(),
    ensures
        concepts::text_pairs(r@) == pairs_at(chunking::drafts(chunks@), positions(at@)),
{
    let ghost all = chunking::drafts(chunks@);
    let ghost places = positions(at@);
    let mut out: Vec<(&'a str, &'a str)> = Vec::new();
    for i in 0..at.len()
        invariant
            all == chunking::drafts(chunks@),
            places == positions(at@),
            forall|i: int| 0 <= i < at@.len() ==> (#[trigger] at@[i]) < chunks@.len(),
            out@.len() == i,
            forall|k: int|
                0 <= k < i ==> (#[trigger] out@[k]).0@ == all[places[k]].heading && out@[k].1@
                    == all[places[k]].content,
    {
        let chunk = &chunks[at[i]];
        out.push((chunk.heading_path.as_str(), chunk.content.as_str()));
    }
    assert(concepts::text_pairs(out@) =~= pairs_at(all, places));
    out
}

proof fn lemma_headings_have_members(chunks: Seq<Draft>, k: int)
    requires
        0 <= k < headings(chunks).len(),
    ensures
        members(chunks, headings(chunks)[k]).len() > 0,
    decreases chunks.len(),
{
    let before = chunks.drop_last();
    if k < headings(before).len() {
        lemma_headings_have_members(before, k);
    }
}

fn section_row(chunks: &Vec<ChunkDraft>, ids: &Vec<i64>, heading: &str) -> (r: SectionRow)
    requires
        members(chunking::drafts(chunks@), heading@).len() > 0,
    ensures
        r@ == section_entry(chunking::drafts(chunks@), ids@, heading@),
{
    let ghost all = chunking::drafts(chunks@);
    let at = member_list(chunks, heading);
    assert(positions(at@).len() > 0);
    let chunk_ids = id_list(ids, &at);
    let (start, end) = bounds_of(chunks, &at);
    let pairs = pair_list(chunks, &at);
    let concepts = concepts::top_concepts_from_texts(pairs.as_slice(), SECTION_CONCEPTS);
    let sample = text::first_chars(chunks[at[0]].content.as_str(), SAMPLE_CHARS);
    assert(all[positions(at@)[0]] == chunks@[at@[0] as int]@);
    let start_text = text::signed_text(start);
    let end_text = text::signed_text(end);
    let count_text = text::decimal_text(chunk_ids.len() as u128);
    let concept_text = text::join(&concepts, ", ");
    let parts: Vec<&str> = vec![
        "section=",
        heading,
        " chars=",
        start_text.as_str(),
        "-",
        end_text.as_str(),
        " chunks=",
        count_text.as_str(),
        " concepts=",
        concept_text.as_str(),
        " sample=",
        sample.as_str(),
    ];
    let summary_text = text::concat_all(&parts);
    proof {
        let views = text::views(parts@);
        let wanted = section_entry(all, ids@, heading@);
        let concept_texts = text::texts(concepts@);
        assert(views =~= seq![
            "section="@,
            heading@,
            " chars="@,
            text::signed_decimal(start as int),
            "-"@,
            text::signed_decimal(end as int),
            " chunks="@,
            text::decimal(chunk_ids@.len()),
            " concepts="@,
            text::joined(concept_texts, ", "@),
            " sample="@,
            text::excerpt(all[members(all, heading@)[0]].content, SAMPLE_CHARS as nat),
        ]);
    }
    SectionRow {
        heading_path: text::copy_text(heading),
        char_start: start,
        char_end: end,
        chunk_ids_json: json::store_numbers(&chunk_ids),
        concepts_json: json::store_strings(&concepts),
        summary_text,
    }
}

// ---------------------------------------------------------------------------------------------
// Documents

/// The heading paths of some chunks that are not blank, in order.
pub open spec fn stated_headings(chunks: Seq<Draft>) -> Seq<Text>
    decreases chunks.len(),
{
    if chunks.len() == 0 {
        Seq::empty()
    } else {
        let before = stated_headings(chunks.drop_last());
        if text::is_blank(chunks.last().heading) {
            before
        } else {
            before.push(chunks.last().heading)
        }
    }
}

/// The heading paths and contents of some chunks.
pub open spec fn all_pairs(chunks: Seq<Draft>) -> Seq<(Text, Text)> {
    Seq::new(chunks.len(), |i: int| (chunks[i].heading, chunks[i].content))
}

/// A document's context as it is stored.
pub struct StoredDocument {
    pub chunk_count: int,
    pub char_count: int,
    pub concepts: Text,
    pub headings: Text,
    pub summary: Text,
}

/// What is stored of a document.
pub open spec fn document_entry(file_name: Text, char_count: int, chunks: Seq<Draft>) -> StoredDocument {
    let concepts = concepts::top_concepts(all_pairs(chunks), DOCUMENT_CONCEPTS as nat);
    let index = text::first_items(
        listing::cleaned(stated_headings(chunks)),
        INDEXED_HEADINGS as nat,
    );
    StoredDocument {
        chunk_count: chunks.len() as int,
        char_count,
        concepts: json::json_strings(concepts),
        headings: json::json_strings(index),
        summary: text::concat(
            seq![
                "document="@,
                file_name,
                " chars="@,
                text::signed_decimal(char_count),
                " chunks="@,
                text::decimal(chunks.len()),
                " concepts="@,
                text::joined(concepts, ", "@),
                " headings="@,
                text::joined(text::first_items(index, SUMMARY_HEADINGS as nat), " / "@),
            ],
        ),
    }
}

/// A row of the table of document contexts.
pub struct DocumentRow {
    pub chunk_count: i64,
    pub char_count: i64,
    pub concepts_json: String,
    pub heading_index_json: String,
    pub summary_text: String,
}

impl View for DocumentRow {
    type V = StoredDocument;

    open spec fn view(&self) -> StoredDocument {
        StoredDocument {
            chunk_count: self.chunk_count as int,
            char_count: self.char_count as int,
            concepts: self.concepts_json@,
            headings: self.heading_index_json@,
            summary: self.summary_text@,
        }
    }
}

/// Keeps the first items of a list.
pub fn keep_first(items: &mut Vec<String>, n: usize)
    ensures
        text::texts(final(items)@) == text::first_items(text::texts(old(items)@), n as nat),
{
    let ghost before = text::texts(items@);
    items.truncate(n);
    assert(n <= before.len() ==> text::texts(items@) =~= before.take(n as int));
}

fn document_row(file_name: &str, char_count: i64, chunks: &Vec<ChunkDraft>) -> (r: DocumentRow)
    requires
        chunks@.len() <= i64::MAX,
    ensures
        r@ == document_entry(file_name@, char_count as int, chunking::drafts(chunks@)),
{
    let ghost all = chunking::drafts(chunks@);
    let mut pairs: Vec<(&str, &str)> = Vec::new();
    let mut index: Vec<String> = Vec::new();
    assert(text::texts(index@) =~= Seq::<Text>::empty());
    for i in 0..chunks.len()
        invariant
            all == chunking::drafts(chunks@),
            pairs@.len() == i,
            forall|k: int|
                0 <= k < i ==> (#[trigger] pairs@[k]).0@ == all[k].heading && pairs@[k].1@
                    == all[k].content,
            text::texts(index@) == stated_headings(all.take(i as int)),
    {
        let chunk = &chunks[i];
        let ghost before = text::texts(index@);
        proof {
            assert(all.take(i + 1).drop_last() =~= all.take(i as int));
            assert(all.take(i + 1).last() == chunk@);
        }
        pairs.push((chunk.heading_path.as_str(), chunk.content.as_str()));
        if !text::blank(chunk.heading_path.as_str()) {
            index.push(chunk.heading_path.clone());
            assert(text::texts(index@) =~= before.push(chunk.heading_path@));
        }
    }
    proof {
        assert(all.take(all.len() as int) =~= all);
        assert(concepts::text_pairs(pairs@) =~= all_pairs(all));
    }
    let concepts = concepts::top_concepts_from_texts(pairs.as_slice(), DOCUMENT_CONCEPTS);
    listing::normalize_string_list(&mut index);
    keep_first(&mut index, INDEXED_HEADINGS);
    let char_text = text::signed_text(char_count);
    let count_text = text::decimal_text(chunks.len() as u128);
    let concept_text = text::join(&concepts, ", ");
    let heading_text = text::join_first(&index, SUMMARY_HEADINGS, " / ");
    let parts: Vec<&str> = vec![
        "document=",
        file_name,
        " chars=",
        char_text.as_str(),
        " chunks=",
        count_text.as_str(),
        " concepts=",
        concept_text.as_str(),
        " headings=",
        heading_text.as_str(),
    ];
    let summary_text = text::concat_all(&parts);
    proof {
        assert(text::views(parts@) =~= seq![
            "document="@,
            file_name@,
            " chars="@,
            text::signed_decimal(char_count as int),
            " chunks="@,
            text::decimal(chunks@.len()),
            " concepts="@,
            text::joined(text::texts(concepts@), ", "@),
            " headings="@,
            text::joined(
                text::first_items(text::texts(index@), SUMMARY_HEADINGS as nat),
                " / "@,
            ),
        ]);
    }
    DocumentRow {
        chunk_count: chunks.len() as i64,
        char_count,
        concepts_json: json::store_strings(&concepts),
        heading_index_json: json::store_strings(&index),
        summary_text,
    }
}

/// The sections of a document, in the order in which their headings first occur, and the document
/// itself, as they are stored.
pub fn rebuild_hierarchy_contexts(
    file_name: &str,
    char_count: i64,
    chunks: &Vec<ChunkDraft>,
    chunk_ids: &Vec<i64>,
) -> (r: (Vec<SectionRow>, DocumentRow))
    requires
        chunks@.len() <= i64::MAX,
    ensures
        section_rows(r.0@) == section_entries(chunking::drafts(chunks@), chunk_ids@),
        r.1@ == document_entry(file_name@, char_count as int, chunking::drafts(chunks@)),
{
    let ghost all = chunking::drafts(chunks@);
    let order = heading_list(chunks);
    let mut rows: Vec<SectionRow> = Vec::new();
    for i in 0..order.len()
        invariant
            all == chunking::drafts(chunks@),
            text::texts(order@) == headings(all),
            rows@.len() == i,
            forall|k: int|
                0 <= k < i ==> (#[trigger] rows@[k])@ == section_entry(
                    all,
                    chunk_ids@,
                    headings(all)[k],
                ),
    {
        proof {
            assert(headings(all)[i as int] == order@[i as int]@);
            lemma_headings_have_members(all, i as int);
        }
        rows.push(section_row(chunks, chunk_ids, order[i].as_str()));
    }
    assert(section_rows(rows@) =~= section_entries(all, chunk_ids@));
    (rows, document_row(file_name, char_count, chunks))
}

/// The chunks under a heading are those that are filed under it.
pub proof fn lemma_members(chunks: Seq<Draft>, heading: Text, i: int)
    ensures
        members(chunks, heading).contains(i) <==> 0 <= i < chunks.len() && heading_of(chunks[i])
            == heading,
    decreases chunks.len(),
{
    if chunks.len() > 0 {
        let before = chunks.drop_last();
        let now = members(chunks, heading);
        let old_members = members(before, heading);
        lemma_members(before, heading, i);
        if old_members.contains(i) {
            let k = choose|k: int| 0 <= k < old_members.len() && old_members[k] == i;
            assert(now[k] == i);
        }
        if now.contains(i) {
            let k = choose|k: int| 0 <= k < now.len() && now[k] == i;
            if k < old_members.len() {
                assert(old_members[k] == i);
            }
        }
        if heading_of(chunks.last()) == heading {
            assert(now[now.len() - 1] == chunks.len() - 1);
        }
    }
}

/// No heading has two sections.
pub proof fn lemma_headings_distinct(chunks: Seq<Draft>)
    ensures
        headings(chunks).no_duplicates(),
    decreases chunks.len(),
{
    if chunks.len() > 0 {
        lemma_headings_distinct(chunks.drop_last());
    }
}

proof fn lemma_headings_complete(chunks: Seq<Draft>, i: int)
    requires
        0 <= i < chunks.len(),
    ensures
        headings(chunks).contains(heading_of(chunks[i])),
    decreases chunks.len(),
{
    let before = chunks.drop_last();
    let now = headings(chunks);
    let earlier = headings(before);
    if i < before.len() {
        lemma_headings_complete(before, i);
        let k = choose|k: int| 0 <= k < earlier.len() && earlier[k] == heading_of(before[i]);
        assert(now[k] == heading_of(chunks[i]));
    } else if earlier.contains(heading_of(chunks[i])) {
        let k = choose|k: int| 0 <= k < earlier.len() && earlier[k] == heading_of(chunks[i]);
        assert(now[k] == heading_of(chunks[i]));
    } else {
        assert(now.last() == heading_of(chunks[i]));
    }
}

/// Every chunk of a document belongs to exactly one of its sections.
pub proof fn law_sections_cover_chunks(chunks: Seq<Draft>, i: int)
    requires
        0 <= i < chunks.len(),
    ensures
        exists|k: int|
            0 <= k < headings(chunks).len() && members(
                chunks,
                #[trigger] headings(chunks)[k],
            ).contains(i),
        forall|j: int, k: int|
            0 <= j < headings(chunks).len() && 0 <= k < headings(chunks).len() && members(
                chunks,
                #[trigger] headings(chunks)[j],
            ).contains(i) && members(chunks, #[trigger] headings(chunks)[k]).contains(i) ==> j == k,
{
    let all = headings(chunks);
    lemma_headings_complete(chunks, i);
    lemma_headings_distinct(chunks);
    let k = choose|k: int| 0 <= k < all.len() && all[k] == heading_of(chunks[i]);
    lemma_members(chunks, all[k], i);
    assert forall|j: int, k: int|
        0 <= j < all.len() && 0 <= k < all.len() && members(chunks, #[trigger] all[j]).contains(i)
            && members(chunks, #[trigger] all[k]).contains(i) implies j == k by {
        lemma_members(chunks, all[j], i);
        lemma_members(chunks, all[k], i);
    }
}

// ---------------------------------------------------------------------------------------------
// What is stored of a section and a document

/// A chunk is filed under its heading path, and under a heading of its own kind where it has none.
pub proof fn law_filing(chunk: Draft)
    ensures
        text::is_blank(chunk.heading) ==> heading_of(chunk) == "(見出しなし)"@,
        !text::is_blank(chunk.heading) ==> heading_of(chunk) == chunk.heading,
{
}

proof fn lemma_bounds(chunks: Seq<Draft>, at: Seq<int>)
    requires
        at.len() > 0,
    ensures
        forall|k: int|
            0 <= k < at.len() ==> least_start(chunks, at) <= chunks[#[trigger] at[k]].start
                && chunks[at[k]].end <= greatest_end(chunks, at),
        exists|k: int| 0 <= k < at.len() && least_start(chunks, at) == chunks[#[trigger] at[k]].start,
        exists|k: int| 0 <= k < at.len() && greatest_end(chunks, at) == chunks[#[trigger] at[k]].end,
    decreases at.len(),
{
    let front = at.drop_last();
    let n = at.len() - 1;
    assert(at[n] == at.last());
    if front.len() > 0 {
        lemma_bounds(chunks, front);
        assert forall|k: int| 0 <= k < at.len() implies least_start(chunks, at)
            <= chunks[#[trigger] at[k]].start && chunks[at[k]].end <= greatest_end(chunks, at) by {
            if k < n {
                assert(front[k] == at[k]);
            }
        }
        let a = choose|k: int|
            0 <= k < front.len() && least_start(chunks, front) == chunks[#[trigger] front[k]].start;
        let b = choose|k: int|
            0 <= k < front.len() && greatest_end(chunks, front) == chunks[#[trigger] front[k]].end;
        assert(at[a] == front[a] && at[b] == front[b]);
    }
}

/// A section spans its chunks: it begins where the first of them begins and ends where the last of them
/// ends.
pub proof fn law_section_spans_chunks(chunks: Seq<Draft>, ids: Seq<i64>, i: int)
    requires
        0 <= i < chunks.len(),
    ensures
        ({
            let heading = heading_of(chunks[i]);
            let entry = section_entry(chunks, ids, heading);
            &&& entry.heading == heading
            &&& entry.start <= chunks[i].start
            &&& chunks[i].end <= entry.end
            &&& exists|j: int|
                0 <= j < chunks.len() && heading_of(#[trigger] chunks[j]) == heading
                    && chunks[j].start == entry.start
            &&& exists|j: int|
                0 <= j < chunks.len() && heading_of(#[trigger] chunks[j]) == heading && chunks[j].end
                    == entry.end
        }),
{
    let heading = heading_of(chunks[i]);
    let at = members(chunks, heading);
    lemma_members(chunks, heading, i);
    let p = choose|p: int| 0 <= p < at.len() && at[p] == i;
    lemma_bounds(chunks, at);
    assert(at[p] == i);
    let a = choose|k: int|
        0 <= k < at.len() && least_start(chunks, at) == chunks[#[trigger] at[k]].start;
    let b = choose|k: int|
        0 <= k < at.len() && greatest_end(chunks, at) == chunks[#[trigger] at[k]].end;
    assert(at.contains(at[a]) && at.contains(at[b]));
    lemma_members(chunks, heading, at[a]);
    lemma_members(chunks, heading, at[b]);
}

/// What is stored of a section names every chunk of it, its bounds, and every one of its topics.
pub proof fn law_section_entry(chunks: Seq<Draft>, ids: Seq<i64>, i: int, topic: Text)
    requires
        0 <= i < chunks.len(),
        i < ids.len(),
        concepts::top_concepts(
            pairs_at(chunks, members(chunks, heading_of(chunks[i]))),
            40,
        ).contains(topic),
    ensures
        ({
            let heading = heading_of(chunks[i]);
            let entry = section_entry(chunks, ids, heading);
            &&& text::occurs_in(text::signed_decimal(ids[i] as int), entry.ids)
            &&& text::occurs_in(json::quoted(topic), entry.concepts)
            &&& text::occurs_in(topic, entry.summary)
            &&& text::occurs_at("section="@ + heading + " chars="@, entry.summary, 0)
            &&& text::occurs_in(
                " chars="@ + text::signed_decimal(entry.start) + "-"@,
                entry.summary,
            )
            &&& text::occurs_in("-"@ + text::signed_decimal(entry.end) + " chunks="@, entry.summary)
            &&& text::occurs_in(
                " sample="@ + text::excerpt(chunks[members(chunks, heading)[0]].content, 260),
                entry.summary,
            )
        }),
{
    let heading = heading_of(chunks[i]);
    let at = members(chunks, heading);
    lemma_members(chunks, heading, i);
    lemma_ids_at(ids, at, i);
    let chunk_ids = ids_at(ids, at);
    let topics = concepts::top_concepts(pairs_at(chunks, at), 40);
    json::law_list_holds_numbers(chunk_ids, ids[i]);
    json::law_list_holds_texts(topics, topic);
    let start = least_start(chunks, at);
    let end = greatest_end(chunks, at);
    let parts = seq![
        "section="@,
        heading,
        " chars="@,
        text::signed_decimal(start),
        "-"@,
        text::signed_decimal(end),
        " chunks="@,
        text::decimal(chunk_ids.len()),
        " concepts="@,
        text::joined(topics, ", "@),
        " sample="@,
        text::excerpt(chunks[at[0]].content, SAMPLE_CHARS as nat),
    ];
    text::lemma_concat_begins(parts);
    text::lemma_concat_holds_three(parts, 2);
    text::lemma_concat_holds_three(parts, 4);
    text::lemma_concat_holds(parts, 9);
    text::lemma_concat_holds_pair(parts, 10);
    text::lemma_joined_contains(topics, ", "@, topic);
    text::lemma_occurs_transitive(topic, text::joined(topics, ", "@), text::concat(parts));
}

proof fn lemma_stated(chunks: Seq<Draft>, i: int)
    requires
        0 <= i < chunks.len(),
        !text::is_blank(chunks[i].heading),
    ensures
        stated_headings(chunks).contains(chunks[i].heading),
    decreases chunks.len(),
{
    let front = chunks.drop_last();
    let before = stated_headings(front);
    let all = stated_headings(chunks);
    if i < chunks.len() - 1 {
        lemma_stated(front, i);
        assert(front[i] == chunks[i]);
        let k = choose|k: int| 0 <= k < before.len() && before[k] == chunks[i].heading;
        assert(all[k] == chunks[i].heading);
    } else {
        assert(all[before.len() as int] == chunks[i].heading);
    }
}

/// What is stored of a document counts its chunks and characters, names its topics, and indexes every
/// heading of its chunks as long as there are no more than fit.
#[verifier::rlimit(40)]
pub proof fn law_document_entry(file_name: Text, char_count: int, chunks: Seq<Draft>, i: int)
    requires
        0 <= i < chunks.len(),
        2 <= text::trimmed(chunks[i].heading).len() <= 80,
        listing::cleaned(stated_headings(chunks)).len() <= 120,
    ensures
        ({
            let entry = document_entry(file_name, char_count, chunks);
            &&& entry.chunk_count == chunks.len()
            &&& entry.char_count == char_count
            &&& text::occurs_in(json::quoted(text::trimmed(chunks[i].heading)), entry.headings)
            &&& text::occurs_at("document="@ + file_name + " chars="@, entry.summary, 0)
            &&& text::occurs_in(
                " chars="@ + text::signed_decimal(char_count) + " chunks="@,
                entry.summary,
            )
            &&& text::occurs_in(
                " chunks="@ + text::decimal(chunks.len()) + " concepts="@,
                entry.summary,
            )
            &&& forall|topic: Text| #[trigger]
                concepts::top_concepts(all_pairs(chunks), 80).contains(topic) ==> text::occurs_in(
                    topic,
                    entry.summary,
                ) && text::occurs_in(json::quoted(topic), entry.concepts)
            &&& forall|k: int|
                0 <= k < 30 && k < listing::cleaned(stated_headings(chunks)).len() ==> text::occurs_in(
                    #[trigger] listing::cleaned(stated_headings(chunks))[k],
                    entry.summary,
                )
        }),
{
    let heading = chunks[i].heading;
    let x = text::trimmed(heading);
    let stated = stated_headings(chunks);
    let list = listing::cleaned(stated);
    let index = text::first_items(list, INDEXED_HEADINGS as nat);
    lemma_stated(chunks, i);
    let p = choose|p: int| 0 <= p < stated.len() && stated[p] == heading;
    assert(text::trimmed(stated[p]) == x);
    listing::law_cleaned_entries(stated, x);
    assert(index =~= list);
    json::law_list_holds_texts(index, x);
    let topics = concepts::top_concepts(all_pairs(chunks), 80);
    let parts = seq![
        "document="@,
        file_name,
        " chars="@,
        text::signed_decimal(char_count),
        " chunks="@,
        text::decimal(chunks.len()),
        " concepts="@,
        text::joined(topics, ", "@),
        " headings="@,
        text::joined(text::first_items(index, SUMMARY_HEADINGS as nat), " / "@),
    ];
    text::lemma_concat_begins(parts);
    text::lemma_concat_holds_three(parts, 2);
    text::lemma_concat_holds_three(parts, 4);
    text::lemma_concat_holds(parts, 7);
    text::lemma_concat_holds(parts, 9);
    let entry = document_entry(file_name, char_count, chunks);
    let shown = text::first_items(index, 30);
    assert forall|k: int| 0 <= k < 30 && k < list.len() implies text::occurs_in(
        #[trigger] list[k],
        entry.summary,
    ) by {
        assert(shown[k] == list[k]);
        assert(shown.contains(list[k]));
        text::lemma_joined_contains(shown, " / "@, list[k]);
        text::lemma_occurs_transitive(list[k], parts[9], text::concat(parts));
    }
    assert forall|topic: Text| #[trigger] topics.contains(topic) implies text::occurs_in(
        topic,
        entry.summary,
    ) && text::occurs_in(json::quoted(topic), entry.concepts) by {
        text::lemma_joined_contains(topics, ", "@, topic);
        text::lemma_occurs_transitive(topic, text::joined(topics, ", "@), text::concat(parts));
        json::law_list_holds_texts(topics, topic);
    }
}

} // verus!
