//! The context that goes with a question to the language model: the sections and documents above the
//! chunks, and the batches in which the chunks are read.

use vstd::prelude::*;
use vstd::string::*;

use crate::chunking::Draft;
use crate::hierarchy;
use crate::hierarchy::{DocumentRow, SectionRow};
use crate::json;
use crate::listing;
use crate::profile::QuestionProfile;
use crate::ranking;
use crate::ranking::Ranked;
use crate::records::{
    ChunkRecord, Document, DocumentContext, HierarchyContext, SearchHit, Section, SectionContext,
};
use crate::text;
use crate::text::Text;

verus! {

// ---------------------------------------------------------------------------------------------
// Relevant sections

/// What a section scores whose chunks the search found.
pub const HIT_SCORE: u64 = 8;

/// What a section scores whose heading has a search term.
pub const HEADING_SCORE: u64 = 4;

/// What a section scores that has a concept in common with the search terms.
pub const CONCEPT_SCORE: u64 = 4;

/// What every section scores for a broad question.
pub const BROAD_SCORE: u64 = 1;

/// The most sections for a broad and for a narrow question.
pub const BROAD_SECTIONS: usize = 120;

pub const NARROW_SECTIONS: usize = 60;

/// Whether two lists of identifiers have one in common.
pub open spec fn intersects(a: Seq<i64>, b: Seq<i64>) -> bool {
    exists|i: int| 0 <= i < a.len() && b.contains(#[trigger] a[i])
}

/// The chunks of some hits.
pub open spec fn hit_ids(hits: Seq<SearchHit>) -> Seq<i64> {
    Seq::new(hits.len(), |i: int| hits[i].chunk_id)
}

/// Whether one of the terms stands in a text.
pub open spec fn any_term_in(terms: Seq<Text>, s: Text) -> bool {
    exists|i: int| 0 <= i < terms.len() && text::occurs_in(#[trigger] terms[i], s)
}

/// Whether a concept and one of the terms contain one another.
pub open spec fn akin(concept: Text, terms: Seq<Text>) -> bool {
    exists|i: int|
        0 <= i < terms.len() && (text::occurs_in(#[trigger] terms[i], concept) || text::occurs_in(
            concept,
            terms[i],
        ))
}

/// Whether one of the concepts and one of the terms contain one another.
pub open spec fn any_akin(concepts: Seq<Text>, terms: Seq<Text>) -> bool {
    exists|i: int| 0 <= i < concepts.len() && akin(#[trigger] concepts[i], terms)
}

/// How relevant a section is.
pub open spec fn section_score(
    section: Section,
    terms: Seq<Text>,
    broad: bool,
    found: Seq<i64>,
) -> nat {
    (if intersects(section.chunk_ids, found) {
        HIT_SCORE as nat
    } else {
        0
    }) + (if any_term_in(terms, section.heading) {
        HEADING_SCORE as nat
    } else {
        0
    }) + (if any_akin(section.concepts, terms) {
        CONCEPT_SCORE as nat
    } else {
        0
    }) + (if broad {
        BROAD_SCORE as nat
    } else {
        0
    })
}

/// A section whose summary begins with its score.
pub open spec fn with_score(section: Section, score: nat) -> Section {
    Section {
        summary: text::concat(seq!["score="@, text::decimal(score), ".0 "@, section.summary]),
        ..section
    }
}

/// A section with its score.
pub struct ScoredSection {
    pub score: u64,
    pub section: SectionContext,
}

impl View for ScoredSection {
    type V = (nat, Section);

    open spec fn view(&self) -> (nat, Section) {
        (self.score as nat, self.section@)
    }
}

impl Ranked for ScoredSection {
    /// By score, then by file name, then by where the sections start.
    open spec fn before(a: (nat, Section), b: (nat, Section)) -> bool {
        a.0 > b.0 || (a.0 == b.0 && (listing::precedes(a.1.file_name, b.1.file_name)
            || (a.1.file_name == b.1.file_name && a.1.start < b.1.start)))
    }

    fn ranks_before(&self, other: &Self) -> (r: bool) {
        let own = self.section.file_name.as_str();
        let its = other.section.file_name.as_str();
        self.score > other.score || (self.score == other.score && (listing::text_less(own, its) || (
        text::same_text(own, its) && self.section.char_start < other.section.char_start)))
    }
}

/// The order of scored sections is a weak order.
proof fn lemma_section_order()
    ensures
        ranking::weakly_ordered(ranking::order::<ScoredSection>()),
{
    let before = ranking::order::<ScoredSection>();
    assert forall|a: (nat, Section), b: (nat, Section)| #[trigger] before(a, b) implies !before(
        b,
        a,
    ) by {
        listing::lemma_precedes_total(a.1.file_name, b.1.file_name);
    }
    assert forall|a: (nat, Section), b: (nat, Section), c: (nat, Section)|
        !(#[trigger] before(b, a)) && !(#[trigger] before(c, b)) implies !before(c, a) by {
        listing::lemma_precedes_total(a.1.file_name, b.1.file_name);
        listing::lemma_precedes_total(b.1.file_name, c.1.file_name);
        listing::lemma_precedes_total(a.1.file_name, c.1.file_name);
        if before(c, a) && listing::precedes(a.1.file_name, b.1.file_name) && listing::precedes(
            b.1.file_name,
            c.1.file_name,
        ) {
            listing::lemma_precedes_transitive(a.1.file_name, b.1.file_name, c.1.file_name);
        }
    }
}

/// Sections with their scores.
pub open spec fn scored_sections(
    sections: Seq<Section>,
    terms: Seq<Text>,
    broad: bool,
    found: Seq<i64>,
) -> Seq<(nat, Section)> {
    Seq::new(
        sections.len(),
        |i: int|
            {
                let score = section_score(sections[i], terms, broad, found);
                (score, with_score(sections[i], score))
            },
    )
}

/// The most relevant sections, the best first.
pub open spec fn relevant_sections(
    sections: Seq<Section>,
    terms: Seq<Text>,
    broad: bool,
    found: Seq<i64>,
) -> Seq<Section> {
    let sorted = ranking::ranked(
        scored_sections(sections, terms, broad, found),
        ranking::order::<ScoredSection>(),
    );
    let limit = if broad {
        BROAD_SECTIONS
    } else {
        NARROW_SECTIONS
    };
    text::first_items(Seq::new(sorted.len(), |i: int| sorted[i].1), limit as nat)
}

/// The sections are ranked by score, then by file name, then by where they start, and none is lost
/// but beyond the limit.
pub proof fn law_sections_by_rank(
    sections: Seq<Section>,
    terms: Seq<Text>,
    broad: bool,
    found: Seq<i64>,
)
    ensures
        ({
            let scored = scored_sections(sections, terms, broad, found);
            let sorted = ranking::ranked(scored, ranking::order::<ScoredSection>());
            &&& ranking::in_rank_order(sorted, ranking::order::<ScoredSection>())
            &&& sorted.to_multiset() == scored.to_multiset()
        }),
{
    lemma_section_order();
    ranking::law_ranked(
        scored_sections(sections, terms, broad, found),
        ranking::order::<ScoredSection>(),
    );
}

/// Whether a list has an identifier.
pub fn has_id(items: &Vec<i64>, id: i64) -> (r: bool)
    ensures
        r == items@.contains(id),
{
    for i in 0..items.len()
        invariant
            forall|k: int| 0 <= k < i ==> #[trigger] items@[k] != id,
    {
        if items[i] == id {
            return true;
        }
    }
    false
}

fn have_common(a: &Vec<i64>, b: &Vec<i64>) -> (r: bool)
    ensures
        r == intersects(a@, b@),
{
    for i in 0..a.len()
        invariant
            forall|k: int| 0 <= k < i ==> !b@.contains(#[trigger] a@[k]),
    {
        if has_id(b, a[i]) {
            return true;
        }
    }
    false
}

fn term_stands_in(terms: &Vec<String>, s: &str) -> (r: bool)
    ensures
        r == any_term_in(text::texts(terms@), s@),
{
    let ghost all = text::texts(terms@);
    for i in 0..terms.len()
        invariant
            all == text::texts(terms@),
            forall|k: int| 0 <= k < i ==> !text::occurs_in(#[trigger] all[k], s@),
    {
        if text::contains(s, terms[i].as_str()) {
            assert(text::occurs_in(all[i as int], s@));
            return true;
        }
    }
    false
}

fn concept_akin(concept: &str, terms: &Vec<String>) -> (r: bool)
    ensures
        r == akin(concept@, text::texts(terms@)),
{
    let ghost all = text::texts(terms@);
    for i in 0..terms.len()
        invariant
            all == text::texts(terms@),
            forall|k: int|
                0 <= k < i ==> !text::occurs_in(#[trigger] all[k], concept@) && !text::occurs_in(
                    concept@,
                    all[k],
                ),
    {
        let term = terms[i].as_str();
        if text::contains(concept, term) || text::contains(term, concept) {
            assert(all[i as int] == term@);
            return true;
        }
    }
    false
}

fn concepts_akin(concepts: &Vec<String>, terms: &Vec<String>) -> (r: bool)
    ensures
        r == any_akin(text::texts(concepts@), text::texts(terms@)),
{
    let ghost all = text::texts(concepts@);
    for i in 0..concepts.len()
        invariant
            all == text::texts(concepts@),
            forall|k: int| 0 <= k < i ==> !akin(#[trigger] all[k], text::texts(terms@)),
    {
        if concept_akin(concepts[i].as_str(), terms) {
            assert(akin(all[i as int], text::texts(terms@)));
            return true;
        }
    }
    false
}

fn score_section(
    section: SectionContext,
    terms: &Vec<String>,
    broad: bool,
    found: &Vec<i64>,
) -> (r: ScoredSection)
    ensures
        r@.0 == section_score(section@, text::texts(terms@), broad, found@),
        r@.1 == with_score(section@, r@.0),
{
    let mut score: u64 = 0;
    if have_common(&section.chunk_ids, found) {
        score += HIT_SCORE;
    }
    if term_stands_in(terms, section.heading_path.as_str()) {
        score += HEADING_SCORE;
    }
    if concepts_akin(&section.concepts, terms) {
        score += CONCEPT_SCORE;
    }
    if broad {
        score += BROAD_SCORE;
    }
    let number = text::decimal_text(score as u128);
    let parts: Vec<&str> = vec!["score=", number.as_str(), ".0 ", section.summary_text.as_str()];
    let summary_text = text::concat_all(&parts);
    assert(text::views(parts@) =~= seq![
        "score="@,
        text::decimal(score as nat),
        ".0 "@,
        section.summary_text@,
    ]);
    let mut section = section;
    section.summary_text = summary_text;
    ScoredSection { score, section }
}

fn ids_of_hits(hits: &[SearchHit]) -> (r: Vec<i64>)
    ensures
        r@ == hit_ids(hits@),
{
    let mut out: Vec<i64> = Vec::new();
    for i in 0..hits.len()
        invariant
            out@ == hit_ids(hits@).take(i as int),
    {
        out.push(hits[i].chunk_id);
        assert(hit_ids(hits@).take(i + 1) =~= hit_ids(hits@).take(i as int).push(
            hits@[i as int].chunk_id,
        ));
    }
    assert(hit_ids(hits@).take(hits@.len() as int) =~= hit_ids(hits@));
    out
}

/// The most relevant sections for a question, the best first, each with its score in its summary.
pub fn filter_hierarchy_sections(
    sections: Vec<SectionContext>,
    profile: &QuestionProfile,
    hits: &[SearchHit],
) -> (r: Vec<SectionContext>)
    ensures
        ranking::views(r@) == relevant_sections(
            ranking::views(sections@),
            listing::cleaned(profile.wanted()),
            profile.is_broad,
            hit_ids(hits@),
        ),
{
    let found = ids_of_hits(hits);
    let terms = profile.search_terms();
    let ghost all = ranking::views(sections@);
    let ghost wanted = text::texts(terms@);
    let ghost scored_all = scored_sections(all, wanted, profile.is_broad, found@);
    let mut scored: Vec<ScoredSection> = Vec::new();
    let mut rest = sections;
    let ghost total = rest@;
    while rest.len() > 0
        invariant
            all == ranking::views(total),
            wanted == text::texts(terms@),
            scored_all == scored_sections(all, wanted, profile.is_broad, found@),
            scored@.len() + rest@.len() == total.len(),
            rest@ == total.skip(scored@.len() as int),
            forall|k: int| 0 <= k < scored@.len() ==> (#[trigger] scored@[k])@ == scored_all[k],
        decreases rest@.len(),
    {
        let ghost n = scored@.len() as int;
        let section = rest.remove(0);
        assert(section == total[n]);
        assert(all[n] == section@);
        scored.push(score_section(section, &terms, profile.is_broad, &found));
        assert(rest@ =~= total.skip(n + 1));
    }
    assert(ranking::views(scored@) =~= scored_all);
    let mut sorted = ranking::sort_ranked(scored);
    let ghost order = ranking::ranked(scored_all, ranking::order::<ScoredSection>());
    let limit = if profile.is_broad {
        BROAD_SECTIONS
    } else {
        NARROW_SECTIONS
    };
    sorted.truncate(limit);
    let ghost kept = sorted@;
    let ghost best = text::first_items(Seq::new(order.len(), |i: int| order[i].1), limit as nat);
    assert(forall|k: int| 0 <= k < kept.len() ==> (#[trigger] kept[k])@ == order[k]) by {
        assert(order.len() >= kept.len());
    }
    let mut out: Vec<SectionContext> = Vec::new();
    while sorted.len() > 0
        invariant
            out@.len() + sorted@.len() == kept.len(),
            sorted@ == kept.skip(out@.len() as int),
            forall|k: int| 0 <= k < out@.len() ==> (#[trigger] out@[k])@ == kept[k]@.1,
        decreases sorted@.len(),
    {
        let ghost n = out@.len() as int;
        let next = sorted.remove(0);
        assert(next == kept[n]);
        out.push(next.section);
        assert(sorted@ =~= kept.skip(n + 1));
    }
    assert(ranking::views(out@) =~= best);
    out
}

// ---------------------------------------------------------------------------------------------
// The hierarchy above a question

/// How many concepts of a document and of a section go into the corpus concepts.
pub const CORPUS_DOCUMENT_CONCEPTS: usize = 30;

pub const CORPUS_SECTION_CONCEPTS: usize = 12;

/// The most corpus concepts.
pub const CORPUS_CONCEPTS: usize = 120;

/// The first concepts of some documents, one document after another.
pub open spec fn document_concepts(documents: Seq<Document>) -> Seq<Text>
    decreases documents.len(),
{
    if documents.len() == 0 {
        Seq::empty()
    } else {
        document_concepts(documents.drop_last()) + text::first_items(
            documents.last().concepts,
            CORPUS_DOCUMENT_CONCEPTS as nat,
        )
    }
}

/// The first concepts of some sections, one section after another.
pub open spec fn section_concepts(sections: Seq<Section>) -> Seq<Text>
    decreases sections.len(),
{
    if sections.len() == 0 {
        Seq::empty()
    } else {
        section_concepts(sections.drop_last()) + text::first_items(
            sections.last().concepts,
            CORPUS_SECTION_CONCEPTS as nat,
        )
    }
}

/// The concepts of the corpus: those of the question, of the documents and of the relevant sections.
pub open spec fn corpus_concepts(
    lower: Seq<Text>,
    documents: Seq<Document>,
    sections: Seq<Section>,
) -> Seq<Text> {
    text::first_items(
        listing::cleaned(lower + document_concepts(documents) + section_concepts(sections)),
        CORPUS_CONCEPTS as nat,
    )
}

/// Appends copies of the first of some items to a list.
pub fn push_first(items: &mut Vec<String>, more: &Vec<String>, n: usize)
    ensures
        text::texts(final(items)@) == text::texts(old(items)@) + text::first_items(
            text::texts(more@),
            n as nat,
        ),
{
    let ghost before = text::texts(items@);
    let ghost source = text::texts(more@);
    let count = if n < more.len() {
        n
    } else {
        more.len()
    };
    assert(before + source.take(0) =~= before);
    for i in 0..count
        invariant
            count <= more@.len(),
            source == text::texts(more@),
            text::texts(items@) == before + source.take(i as int),
    {
        let ghost now = text::texts(items@);
        items.push(more[i].clone());
        assert(text::texts(items@) =~= now.push(more@[i as int]@));
        assert(source.take(i + 1) =~= source.take(i as int).push(more@[i as int]@));
    }
    assert(count == source.len() ==> source.take(count as int) =~= source);
}

/// The context of a question, from the contexts of the selected documents and of their sections. No
/// document selected, no context.
pub fn load_hierarchy_context(
    document_ids: &Vec<i64>,
    documents: Vec<DocumentContext>,
    sections: Vec<SectionContext>,
    profile: &QuestionProfile,
    hits: &[SearchHit],
) -> (r: HierarchyContext)
    ensures
        document_ids@.len() == 0 ==> r.sections@.len() == 0 && r.documents@.len() == 0
            && r.corpus_concepts@.len() == 0,
        document_ids@.len() > 0 ==> {
            let best = relevant_sections(
                ranking::views(sections@),
                listing::cleaned(profile.wanted()),
                profile.is_broad,
                hit_ids(hits@),
            );
            &&& r.documents == documents
            &&& ranking::views(r.sections@) == best
            &&& text::texts(r.corpus_concepts@) == corpus_concepts(
                text::texts(profile.lower_concepts@),
                ranking::views(documents@),
                best,
            )
        },
{
    if document_ids.len() == 0 {
        return HierarchyContext {
            sections: Vec::new(),
            documents: Vec::new(),
            corpus_concepts: Vec::new(),
        };
    }
    let sections = filter_hierarchy_sections(sections, profile, hits);
    let ghost lower = text::texts(profile.lower_concepts@);
    let ghost docs = ranking::views(documents@);
    let ghost best = ranking::views(sections@);
    let mut corpus: Vec<String> = Vec::new();
    listing::push_all(&mut corpus, &profile.lower_concepts);
    assert(text::texts(corpus@) =~= lower + document_concepts(docs.take(0)));
    for i in 0..documents.len()
        invariant
            docs == ranking::views(documents@),
            text::texts(corpus@) == lower + document_concepts(docs.take(i as int)),
    {
        push_first(&mut corpus, &documents[i].concepts, CORPUS_DOCUMENT_CONCEPTS);
        proof {
            assert(docs.take(i + 1).drop_last() =~= docs.take(i as int));
            assert(docs.take(i + 1).last() == documents@[i as int]@);
            assert(text::texts(corpus@) =~= lower + document_concepts(docs.take(i + 1)));
        }
    }
    assert(docs.take(docs.len() as int) =~= docs);
    let ghost base = lower + document_concepts(docs);
    assert(base =~= base + section_concepts(best.take(0)));
    for i in 0..sections.len()
        invariant
            best == ranking::views(sections@),
            text::texts(corpus@) == base + section_concepts(best.take(i as int)),
    {
        push_first(&mut corpus, &sections[i].concepts, CORPUS_SECTION_CONCEPTS);
        proof {
            assert(best.take(i + 1).drop_last() =~= best.take(i as int));
            assert(best.take(i + 1).last() == sections@[i as int]@);
            assert(text::texts(corpus@) =~= base + section_concepts(best.take(i + 1)));
        }
    }
    assert(best.take(best.len() as int) =~= best);
    listing::normalize_string_list(&mut corpus);
    hierarchy::keep_first(&mut corpus, CORPUS_CONCEPTS);
    HierarchyContext { sections, documents, corpus_concepts: corpus }
}

/// A document's context as it was stored.
pub fn document_context(
    document_id: i64,
    file_name: String,
    path: String,
    row: &DocumentRow,
) -> (r: DocumentContext)
    ensures
        r.document_id == document_id,
        r.file_name == file_name,
        r.path == path,
        r.chunk_count == row.chunk_count,
        r.char_count == row.char_count,
        text::texts(r.concepts@) == stored_texts(row.concepts_json@),
        text::texts(r.heading_index@) == stored_texts(row.heading_index_json@),
        r.summary_text@ == row.summary_text@,
        forall|items: Seq<Text>|
            row.concepts_json@ == #[trigger] json::json_strings(items) ==> text::texts(r.concepts@)
                == items,
        forall|items: Seq<Text>|
            row.heading_index_json@ == #[trigger] json::json_strings(items) ==> text::texts(
                r.heading_index@,
            ) == items,
{
    DocumentContext {
        document_id,
        file_name,
        path,
        chunk_count: row.chunk_count,
        char_count: row.char_count,
        concepts: json::parse_json_string_vec(row.concepts_json.as_str()),
        heading_index: json::parse_json_string_vec(row.heading_index_json.as_str()),
        summary_text: row.summary_text.clone(),
    }
}

/// A section's context as it was stored.
pub fn section_context(
    document_id: i64,
    file_name: String,
    path: String,
    row: &SectionRow,
) -> (r: SectionContext)
    ensures
        r.document_id == document_id,
        r.file_name == file_name,
        r.path == path,
        r.heading_path@ == row.heading_path@,
        r.char_start == row.char_start,
        r.char_end == row.char_end,
        r.chunk_ids@ == stored_numbers(row.chunk_ids_json@),
        text::texts(r.concepts@) == stored_texts(row.concepts_json@),
        r.summary_text@ == row.summary_text@,
        forall|items: Seq<i64>|
            row.chunk_ids_json@ == #[trigger] json::json_numbers(items) ==> r.chunk_ids@ == items,
        forall|items: Seq<Text>|
            row.concepts_json@ == #[trigger] json::json_strings(items) ==> text::texts(r.concepts@)
                == items,
{
    SectionContext {
        document_id,
        file_name,
        path,
        heading_path: row.heading_path.clone(),
        char_start: row.char_start,
        char_end: row.char_end,
        chunk_ids: json::parse_json_i64_vec(row.chunk_ids_json.as_str()),
        concepts: json::parse_json_string_vec(row.concepts_json.as_str()),
        summary_text: row.summary_text.clone(),
    }
}

/// The strings of a stored list; none where the text is no such list.
pub open spec fn stored_texts(s: Text) -> Seq<Text> {
    match json::listed_strings(s) {
        Some(items) => items,
        None => Seq::empty(),
    }
}

/// The numbers of a stored list; none where the text is no such list.
pub open spec fn stored_numbers(s: Text) -> Seq<i64> {
    match json::listed_numbers(s) {
        Some(items) => items,
        None => Seq::empty(),
    }
}

// ---------------------------------------------------------------------------------------------
// Context of a batch

/// How many corpus concepts, documents, sections and concepts of each a batch's context names.
pub const BATCH_CORPUS_CONCEPTS: usize = 60;

pub const BATCH_DOCUMENTS: usize = 8;

pub const BATCH_SECTIONS: usize = 12;

pub const PARENT_CONCEPTS: usize = 20;

/// The line of a document above a batch.
pub open spec fn parent_document_line(document: Document) -> Text {
    text::concat(
        seq![
            "- file="@,
            document.file_name,
            " path="@,
            document.path,
            " chunks="@,
            text::signed_decimal(document.chunk_count as int),
            " chars="@,
            text::signed_decimal(document.char_count as int),
            " concepts="@,
            text::joined(text::first_items(document.concepts, PARENT_CONCEPTS as nat), ", "@),
            " summary="@,
            document.summary,
            "\n"@,
        ],
    )
}

/// The line of a section above a batch.
pub open spec fn parent_section_line(section: Section) -> Text {
    text::concat(
        seq![
            "- file="@,
            section.file_name,
            " path="@,
            section.path,
            " heading="@,
            section.heading,
            " chars="@,
            text::signed_decimal(section.start as int),
            "-"@,
            text::signed_decimal(section.end as int),
            " concepts="@,
            text::joined(text::first_items(section.concepts, PARENT_CONCEPTS as nat), ", "@),
            " summary="@,
            section.summary,
            "\n"@,
        ],
    )
}

/// Whether a document has chunks in a batch.
pub open spec fn in_batch(batch: Seq<ChunkRecord>, document_id: i64) -> bool {
    exists|i: int| 0 <= i < batch.len() && (#[trigger] batch[i]).document_id == document_id
}

/// Whether a section has a chunk in a batch, or stands under the heading of one.
pub open spec fn above_batch(batch: Seq<ChunkRecord>, section: Section) -> bool {
    &&& in_batch(batch, section.document_id)
    &&& exists|i: int|
        0 <= i < batch.len() && (section.chunk_ids.contains((#[trigger] batch[i]).id) || (
        batch[i].document_id == section.document_id && batch[i].heading_path@ == section.heading))
}

/// The lines of the documents that have chunks in a batch.
pub open spec fn document_lines(batch: Seq<ChunkRecord>, documents: Seq<Document>) -> Seq<Text>
    decreases documents.len(),
{
    if documents.len() == 0 {
        Seq::empty()
    } else {
        let before = document_lines(batch, documents.drop_last());
        if in_batch(batch, documents.last().document_id) {
            before.push(parent_document_line(documents.last()))
        } else {
            before
        }
    }
}

/// The lines of the sections above a batch.
pub open spec fn section_lines(batch: Seq<ChunkRecord>, sections: Seq<Section>) -> Seq<Text>
    decreases sections.len(),
{
    if sections.len() == 0 {
        Seq::empty()
    } else {
        let before = section_lines(batch, sections.drop_last());
        if above_batch(batch, sections.last()) {
            before.push(parent_section_line(sections.last()))
        } else {
            before
        }
    }
}

/// The lines of the corpus concepts.
pub open spec fn corpus_lines(corpus: Seq<Text>) -> Seq<Text> {
    if corpus.len() == 0 {
        Seq::empty()
    } else {
        seq![
            text::concat(
                seq![
                    "CORPUS concepts: "@,
                    text::joined(text::first_items(corpus, BATCH_CORPUS_CONCEPTS as nat), ", "@),
                    "\n"@,
                ],
            ),
        ]
    }
}

/// The context above a batch of chunks.
pub open spec fn batch_context(
    batch: Seq<ChunkRecord>,
    corpus: Seq<Text>,
    documents: Seq<Document>,
    sections: Seq<Section>,
) -> Text {
    if documents.len() == 0 && sections.len() == 0 {
        "階層文脈なし"@
    } else {
        text::concat(
            corpus_lines(corpus) + seq!["DOCUMENT parents:\n"@] + text::first_items(
                document_lines(batch, documents),
                BATCH_DOCUMENTS as nat,
            ) + seq!["SECTION parents:\n"@] + text::first_items(
                section_lines(batch, sections),
                BATCH_SECTIONS as nat,
            ),
        )
    }
}

/// The section of a chunk stands above every batch that the chunk is in.
pub proof fn law_sections_stand_above_chunks(
    chunks: Seq<Draft>,
    ids: Seq<i64>,
    i: int,
    section: Section,
    batch: Seq<ChunkRecord>,
    b: int,
)
    requires
        0 <= i < chunks.len(),
        i < ids.len(),
        section.chunk_ids == hierarchy::ids_at(
            ids,
            hierarchy::members(chunks, hierarchy::heading_of(chunks[i])),
        ),
        0 <= b < batch.len(),
        batch[b].id == ids[i],
        batch[b].document_id == section.document_id,
    ensures
        above_batch(batch, section),
{
    let at = hierarchy::members(chunks, hierarchy::heading_of(chunks[i]));
    hierarchy::lemma_members(chunks, hierarchy::heading_of(chunks[i]), i);
    hierarchy::lemma_ids_at(ids, at, i);
    assert(section.chunk_ids.contains(batch[b].id));
}

fn batch_has_document(batch: &[ChunkRecord], document_id: i64) -> (r: bool)
    ensures
        r == in_batch(batch@, document_id),
{
    for i in 0..batch.len()
        invariant
            forall|k: int| 0 <= k < i ==> (#[trigger] batch@[k]).document_id != document_id,
    {
        if batch[i].document_id == document_id {
            return true;
        }
    }
    false
}

fn stands_above(batch: &[ChunkRecord], section: &SectionContext) -> (r: bool)
    ensures
        r == above_batch(batch@, section@),
{
    if !batch_has_document(batch, section.document_id) {
        return false;
    }
    for i in 0..batch.len()
        invariant
            in_batch(batch@, section.document_id),
            forall|k: int|
                0 <= k < i ==> !section.chunk_ids@.contains((#[trigger] batch@[k]).id) && !(
                batch@[k].document_id == section.document_id && batch@[k].heading_path@
                    == section.heading_path@),
    {
        let chunk = &batch[i];
        if has_id(&section.chunk_ids, chunk.id) || (chunk.document_id == section.document_id
            && text::same_text(chunk.heading_path.as_str(), section.heading_path.as_str())) {
            assert(batch@[i as int] == *chunk);
            return true;
        }
    }
    false
}

fn write_document_line(document: &DocumentContext) -> (r: String)
    ensures
        r@ == parent_document_line(document@),
{
    let chunks = text::signed_text(document.chunk_count);
    let chars = text::signed_text(document.char_count);
    let concepts = text::join_first(&document.concepts, PARENT_CONCEPTS, ", ");
    let parts: Vec<&str> = vec![
        "- file=",
        document.file_name.as_str(),
        " path=",
        document.path.as_str(),
        " chunks=",
        chunks.as_str(),
        " chars=",
        chars.as_str(),
        " concepts=",
        concepts.as_str(),
        " summary=",
        document.summary_text.as_str(),
        "\n",
    ];
    let ghost d = document@;
    assert(text::views(parts@) =~= seq![
        "- file="@,
        d.file_name,
        " path="@,
        d.path,
        " chunks="@,
        text::signed_decimal(d.chunk_count as int),
        " chars="@,
        text::signed_decimal(d.char_count as int),
        " concepts="@,
        text::joined(text::first_items(d.concepts, PARENT_CONCEPTS as nat), ", "@),
        " summary="@,
        d.summary,
        "\n"@,
    ]);
    text::concat_all(&parts)
}

fn write_section_line(section: &SectionContext) -> (r: String)
    ensures
        r@ == parent_section_line(section@),
{
    let start = text::signed_text(section.char_start);
    let end = text::signed_text(section.char_end);
    let concepts = text::join_first(&section.concepts, PARENT_CONCEPTS, ", ");
    let parts: Vec<&str> = vec![
        "- file=",
        section.file_name.as_str(),
        " path=",
        section.path.as_str(),
        " heading=",
        section.heading_path.as_str(),
        " chars=",
        start.as_str(),
        "-",
        end.as_str(),
        " concepts=",
        concepts.as_str(),
        " summary=",
        section.summary_text.as_str(),
        "\n",
    ];
    let ghost d = section@;
    assert(text::views(parts@) =~= seq![
        "- file="@,
        d.file_name,
        " path="@,
        d.path,
        " heading="@,
        d.heading,
        " chars="@,
        text::signed_decimal(d.start as int),
        "-"@,
        text::signed_decimal(d.end as int),
        " concepts="@,
        text::joined(text::first_items(d.concepts, PARENT_CONCEPTS as nat), ", "@),
        " summary="@,
        d.summary,
        "\n"@,
    ]);
    text::concat_all(&parts)
}

/// The context above a batch of chunks: the concepts of the corpus, the documents of the chunks and
/// the sections above them.
pub fn build_batch_hierarchy_context(
    batch: &[ChunkRecord],
    hierarchy: &HierarchyContext,
) -> (r: String)
    ensures
        r@ == batch_context(
            batch@,
            text::texts(hierarchy.corpus_concepts@),
            ranking::views(hierarchy.documents@),
            ranking::views(hierarchy.sections@),
        ),
{
    if hierarchy.documents.len() == 0 && hierarchy.sections.len() == 0 {
        return text::copy_text("階層文脈なし");
    }
    let ghost corpus = text::texts(hierarchy.corpus_concepts@);
    let ghost docs = ranking::views(hierarchy.documents@);
    let ghost secs = ranking::views(hierarchy.sections@);
    let mut lines: Vec<String> = Vec::new();
    assert(text::texts(lines@) =~= Seq::<Text>::empty());
    if hierarchy.corpus_concepts.len() > 0 {
        let names = text::join_first(&hierarchy.corpus_concepts, BATCH_CORPUS_CONCEPTS, ", ");
        let parts: Vec<&str> = vec!["CORPUS concepts: ", names.as_str(), "\n"];
        let line = text::concat_all(&parts);
        proof {
            assert(text::views(parts@) =~= seq![
                "CORPUS concepts: "@,
                text::joined(text::first_items(corpus, BATCH_CORPUS_CONCEPTS as nat), ", "@),
                "\n"@,
            ]);
        }
        lines.push(line);
        assert(text::texts(lines@) =~= corpus_lines(corpus));
    }
    let ghost before = text::texts(lines@);
    lines.push(text::copy_text("DOCUMENT parents:\n"));
    let ghost head = corpus_lines(corpus) + seq!["DOCUMENT parents:\n"@];
    assert(text::texts(lines@) =~= before.push("DOCUMENT parents:\n"@));
    assert(text::texts(lines@) =~= head);
    let mut count: usize = 0;
    for i in 0..hierarchy.documents.len()
        invariant
            docs == ranking::views(hierarchy.documents@),
            count == text::first_items(
                document_lines(batch@, docs.take(i as int)),
                BATCH_DOCUMENTS as nat,
            ).len(),
            text::texts(lines@) == head + text::first_items(
                document_lines(batch@, docs.take(i as int)),
                BATCH_DOCUMENTS as nat,
            ),
    {
        let document = &hierarchy.documents[i];
        let ghost done = document_lines(batch@, docs.take(i as int));
        let ghost next = document_lines(batch@, docs.take(i + 1));
        let ghost now = text::texts(lines@);
        proof {
            assert(docs.take(i + 1).drop_last() =~= docs.take(i as int));
            assert(docs.take(i + 1).last() == document@);
        }
        if count < BATCH_DOCUMENTS && batch_has_document(batch, document.document_id) {
            let line = write_document_line(document);
            lines.push(line);
            count += 1;
            assert(text::texts(lines@) =~= now.push(line@));
            assert(text::first_items(next, BATCH_DOCUMENTS as nat) =~= text::first_items(
                done,
                BATCH_DOCUMENTS as nat,
            ).push(line@));
        } else {
            assert(text::first_items(next, BATCH_DOCUMENTS as nat) =~= text::first_items(
                done,
                BATCH_DOCUMENTS as nat,
            ));
        }
    }
    assert(docs.take(docs.len() as int) =~= docs);
    let ghost middle = text::texts(lines@);
    lines.push(text::copy_text("SECTION parents:\n"));
    assert(text::texts(lines@) =~= middle + seq!["SECTION parents:\n"@]);
    let ghost head = text::texts(lines@);
    let mut count: usize = 0;
    for i in 0..hierarchy.sections.len()
        invariant
            secs == ranking::views(hierarchy.sections@),
            count == text::first_items(
                section_lines(batch@, secs.take(i as int)),
                BATCH_SECTIONS as nat,
            ).len(),
            text::texts(lines@) == head + text::first_items(
                section_lines(batch@, secs.take(i as int)),
                BATCH_SECTIONS as nat,
            ),
    {
        let section = &hierarchy.sections[i];
        let ghost done = section_lines(batch@, secs.take(i as int));
        let ghost next = section_lines(batch@, secs.take(i + 1));
        let ghost now = text::texts(lines@);
        proof {
            assert(secs.take(i + 1).drop_last() =~= secs.take(i as int));
            assert(secs.take(i + 1).last() == section@);
        }
        if count < BATCH_SECTIONS && stands_above(batch, section) {
            let line = write_section_line(section);
            lines.push(line);
            count += 1;
            assert(text::texts(lines@) =~= now.push(line@));
            assert(text::first_items(next, BATCH_SECTIONS as nat) =~= text::first_items(
                done,
                BATCH_SECTIONS as nat,
            ).push(line@));
        } else {
            assert(text::first_items(next, BATCH_SECTIONS as nat) =~= text::first_items(
                done,
                BATCH_SECTIONS as nat,
            ));
        }
    }
    assert(secs.take(secs.len() as int) =~= secs);
    text::concat_texts(&lines)
}

// ---------------------------------------------------------------------------------------------
// Context of an answer

/// How many corpus concepts, documents, headings, sections and concepts of a section an answer's
/// context names.
pub const ANSWER_CORPUS_CONCEPTS: usize = 80;

pub const ANSWER_DOCUMENTS: usize = 20;

pub const ANSWER_HEADINGS: usize = 12;

pub const ANSWER_SECTIONS: usize = 60;

pub const ANSWER_SECTION_CONCEPTS: usize = 16;

/// The line of a document in an answer's context.
pub open spec fn answer_document_line(document: Document) -> Text {
    text::concat(
        seq![
            "- file="@,
            document.file_name,
            " path="@,
            document.path,
            " chunks="@,
            text::signed_decimal(document.chunk_count as int),
            " chars="@,
            text::signed_decimal(document.char_count as int),
            " concepts="@,
            text::joined(text::first_items(document.concepts, PARENT_CONCEPTS as nat), ", "@),
            " headings="@,
            text::joined(text::first_items(document.headings, ANSWER_HEADINGS as nat), " / "@),
            " summary="@,
            document.summary,
            "\n"@,
        ],
    )
}

/// The line of a section in an answer's context.
pub open spec fn answer_section_line(section: Section) -> Text {
    text::concat(
        seq![
            "- file="@,
            section.file_name,
            " path="@,
            section.path,
            " heading="@,
            section.heading,
            " concepts="@,
            text::joined(
                text::first_items(section.concepts, ANSWER_SECTION_CONCEPTS as nat),
                ", "@,
            ),
            " summary="@,
            section.summary,
            "\n"@,
        ],
    )
}

/// The context of an answer. Sections are named for broad questions only.
pub open spec fn answer_context(
    broad: bool,
    corpus: Seq<Text>,
    documents: Seq<Document>,
    sections: Seq<Section>,
) -> Text {
    if documents.len() == 0 && sections.len() == 0 {
        "階層文脈なし"@
    } else {
        let docs = text::first_items(documents, ANSWER_DOCUMENTS as nat);
        let secs = text::first_items(sections, ANSWER_SECTIONS as nat);
        text::concat(
            seq![
                "CORPUS concepts: "@,
                text::joined(text::first_items(corpus, ANSWER_CORPUS_CONCEPTS as nat), ", "@),
                "\n"@,
                "DOCUMENT summaries:\n"@,
            ] + Seq::new(docs.len(), |i: int| answer_document_line(docs[i])) + if broad {
                seq!["RELEVANT section summaries:\n"@] + Seq::new(
                    secs.len(),
                    |i: int| answer_section_line(secs[i]),
                )
            } else {
                Seq::empty()
            },
        )
    }
}

fn write_answer_document(document: &DocumentContext) -> (r: String)
    ensures
        r@ == answer_document_line(document@),
{
    let chunks = text::signed_text(document.chunk_count);
    let chars = text::signed_text(document.char_count);
    let concepts = text::join_first(&document.concepts, PARENT_CONCEPTS, ", ");
    let headings = text::join_first(&document.heading_index, ANSWER_HEADINGS, " / ");
    let parts: Vec<&str> = vec![
        "- file=",
        document.file_name.as_str(),
        " path=",
        document.path.as_str(),
        " chunks=",
        chunks.as_str(),
        " chars=",
        chars.as_str(),
        " concepts=",
        concepts.as_str(),
        " headings=",
        headings.as_str(),
        " summary=",
        document.summary_text.as_str(),
        "\n",
    ];
    let ghost d = document@;
    assert(text::views(parts@) =~= seq![
        "- file="@,
        d.file_name,
        " path="@,
        d.path,
        " chunks="@,
        text::signed_decimal(d.chunk_count as int),
        " chars="@,
        text::signed_decimal(d.char_count as int),
        " concepts="@,
        text::joined(text::first_items(d.concepts, PARENT_CONCEPTS as nat), ", "@),
        " headings="@,
        text::joined(text::first_items(d.headings, ANSWER_HEADINGS as nat), " / "@),
        " summary="@,
        d.summary,
        "\n"@,
    ]);
    text::concat_all(&parts)
}

fn write_answer_section(section: &SectionContext) -> (r: String)
    ensures
        r@ == answer_section_line(section@),
{
    let concepts = text::join_first(&section.concepts, ANSWER_SECTION_CONCEPTS, ", ");
    let parts: Vec<&str> = vec![
        "- file=",
        section.file_name.as_str(),
        " path=",
        section.path.as_str(),
        " heading=",
        section.heading_path.as_str(),
        " concepts=",
        concepts.as_str(),
        " summary=",
        section.summary_text.as_str(),
        "\n",
    ];
    let ghost d = section@;
    assert(text::views(parts@) =~= seq![
        "- file="@,
        d.file_name,
        " path="@,
        d.path,
        " heading="@,
        d.heading,
        " concepts="@,
        text::joined(text::first_items(d.concepts, ANSWER_SECTION_CONCEPTS as nat), ", "@),
        " summary="@,
        d.summary,
        "\n"@,
    ]);
    text::concat_all(&parts)
}

/// The context of an answer: the concepts of the corpus, the documents and, for a broad question,
/// the relevant sections.
pub fn build_answer_hierarchy_context(
    hierarchy: &HierarchyContext,
    profile: &QuestionProfile,
) -> (r: String)
    ensures
        r@ == answer_context(
            profile.is_broad,
            text::texts(hierarchy.corpus_concepts@),
            ranking::views(hierarchy.documents@),
            ranking::views(hierarchy.sections@),
        ),
{
    if hierarchy.documents.len() == 0 && hierarchy.sections.len() == 0 {
        return text::copy_text("階層文脈なし");
    }
    let ghost corpus = text::texts(hierarchy.corpus_concepts@);
    let ghost all_docs = ranking::views(hierarchy.documents@);
    let ghost all_secs = ranking::views(hierarchy.sections@);
    let ghost docs = text::first_items(all_docs, ANSWER_DOCUMENTS as nat);
    let ghost secs = text::first_items(all_secs, ANSWER_SECTIONS as nat);
    let ghost doc_lines = Seq::new(docs.len(), |i: int| answer_document_line(docs[i]));
    let ghost sec_lines = Seq::new(secs.len(), |i: int| answer_section_line(secs[i]));
    let names = text::join_first(&hierarchy.corpus_concepts, ANSWER_CORPUS_CONCEPTS, ", ");
    let mut lines: Vec<String> = Vec::new();
    lines.push(text::copy_text("CORPUS concepts: "));
    lines.push(names);
    lines.push(text::copy_text("\n"));
    lines.push(text::copy_text("DOCUMENT summaries:\n"));
    let ghost head = seq![
        "CORPUS concepts: "@,
        text::joined(text::first_items(corpus, ANSWER_CORPUS_CONCEPTS as nat), ", "@),
        "\n"@,
        "DOCUMENT summaries:\n"@,
    ];
    assert(text::texts(lines@) =~= head);
    let count = if hierarchy.documents.len() < ANSWER_DOCUMENTS {
        hierarchy.documents.len()
    } else {
        ANSWER_DOCUMENTS
    };
    assert(head + doc_lines.take(0) =~= head);
    for i in 0..count
        invariant
            all_docs == ranking::views(hierarchy.documents@),
            docs == text::first_items(all_docs, ANSWER_DOCUMENTS as nat),
            doc_lines == Seq::new(docs.len(), |i: int| answer_document_line(docs[i])),
            count == docs.len(),
            text::texts(lines@) == head + doc_lines.take(i as int),
    {
        let ghost now = text::texts(lines@);
        let line = write_answer_document(&hierarchy.documents[i]);
        lines.push(line);
        assert(docs[i as int] == hierarchy.documents@[i as int]@);
        assert(text::texts(lines@) =~= now.push(line@));
        assert(doc_lines.take(i + 1) =~= doc_lines.take(i as int).push(line@));
    }
    assert(doc_lines.take(doc_lines.len() as int) =~= doc_lines);
    if profile.is_broad {
        let ghost middle = text::texts(lines@);
        lines.push(text::copy_text("RELEVANT section summaries:\n"));
        let ghost head = middle.push("RELEVANT section summaries:\n"@);
        assert(text::texts(lines@) =~= head);
        let count = if hierarchy.sections.len() < ANSWER_SECTIONS {
            hierarchy.sections.len()
        } else {
            ANSWER_SECTIONS
        };
        assert(head + sec_lines.take(0) =~= head);
        for i in 0..count
            invariant
                all_secs == ranking::views(hierarchy.sections@),
                secs == text::first_items(all_secs, ANSWER_SECTIONS as nat),
                sec_lines == Seq::new(secs.len(), |i: int| answer_section_line(secs[i])),
                count == secs.len(),
                text::texts(lines@) == head + sec_lines.take(i as int),
        {
            let ghost now = text::texts(lines@);
            let line = write_answer_section(&hierarchy.sections[i]);
            lines.push(line);
            assert(secs[i as int] == hierarchy.sections@[i as int]@);
            assert(text::texts(lines@) =~= now.push(line@));
            assert(sec_lines.take(i + 1) =~= sec_lines.take(i as int).push(line@));
        }
        assert(sec_lines.take(sec_lines.len() as int) =~= sec_lines);
        assert(text::texts(lines@) =~= middle + (seq!["RELEVANT section summaries:\n"@]
            + sec_lines));
    } else {
        assert(text::texts(lines@) =~= head + doc_lines + Seq::<Text>::empty());
    }
    text::concat_texts(&lines)
}

// ---------------------------------------------------------------------------------------------
// Batches

/// What a chunk counts in a batch beyond its own characters.
pub const CHUNK_OVERHEAD: usize = 80;

/// What a chunk counts in a batch.
pub open spec fn chunk_size(chunk: ChunkRecord) -> nat {
    chunk.content@.len() + chunk.heading_path@.len() + CHUNK_OVERHEAD as nat
}

/// What some chunks count together.
pub open spec fn total_size(chunks: Seq<ChunkRecord>) -> nat
    decreases chunks.len(),
{
    if chunks.len() == 0 {
        0
    } else {
        total_size(chunks.drop_last()) + chunk_size(chunks.last())
    }
}

/// Where the batch ends that holds the chunks from `b` up to `k`: it takes in further chunks as long
/// as they fit.
pub open spec fn batch_end(chunks: Seq<ChunkRecord>, max: nat, b: int, k: int) -> int
    decreases chunks.len() - k,
{
    if k < chunks.len() && total_size(chunks.subrange(b, k + 1)) <= max {
        batch_end(chunks, max, b, k + 1)
    } else {
        k
    }
}

/// A batch ends no earlier than the chunks that it holds, and within the list.
pub proof fn lemma_batch_end(chunks: Seq<ChunkRecord>, max: nat, b: int, k: int)
    requires
        0 <= b < k <= chunks.len(),
    ensures
        k <= batch_end(chunks, max, b, k) <= chunks.len(),
    decreases chunks.len() - k,
{
    if k < chunks.len() && total_size(chunks.subrange(b, k + 1)) <= max {
        lemma_batch_end(chunks, max, b, k + 1);
    }
}

/// The batches of the chunks from `b` on.
pub open spec fn batches_from(chunks: Seq<ChunkRecord>, max: nat, b: int) -> Seq<Seq<ChunkRecord>>
    decreases chunks.len() - b,
{
    if b < 0 || b >= chunks.len() {
        Seq::empty()
    } else {
        proof {
            lemma_batch_end(chunks, max, b, b + 1);
        }
        let e = batch_end(chunks, max, b, b + 1);
        seq![chunks.subrange(b, e)] + batches_from(chunks, max, e)
    }
}

/// The contents of some batches.
pub open spec fn batch_contents(batches: Seq<Vec<ChunkRecord>>) -> Seq<Seq<ChunkRecord>> {
    Seq::new(batches.len(), |i: int| batches[i]@)
}

/// The chunks in batches that hold as many of them, in order, as fit into `max_chars`, but at least
/// one.
pub fn build_chunk_batches(chunks: &[ChunkRecord], max_chars: usize) -> (r: Vec<Vec<ChunkRecord>>)
    ensures
        batch_contents(r@) == batches_from(chunks@, max_chars as nat, 0),
{
    let ghost all = chunks@;
    let ghost max = max_chars as nat;
    let mut batches: Vec<Vec<ChunkRecord>> = Vec::new();
    let mut current: Vec<ChunkRecord> = Vec::new();
    let mut size: u128 = 0;
    let ghost mut b: int = 0;
    assert(batch_contents(batches@) =~= Seq::empty());
    for i in 0..chunks.len()
        invariant
            all == chunks@,
            max == max_chars,
            0 <= b <= i,
            b < i || i == 0,
            current@ == all.subrange(b, i as int),
            size == total_size(current@),
            size <= 2 * (usize::MAX as u128) + CHUNK_OVERHEAD || size <= max_chars,
            batches_from(all, max, 0) == batch_contents(batches@) + batches_from(all, max, b),
            b < i ==> batch_end(all, max, b, b + 1) == batch_end(all, max, b, i as int),
    {
        let chunk = &chunks[i];
        let len = text::char_count(chunk.content.as_str()) as u128 + text::char_count(
            chunk.heading_path.as_str(),
        ) as u128 + CHUNK_OVERHEAD as u128;
        proof {
            assert(all.subrange(b, i + 1).drop_last() =~= all.subrange(b, i as int));
            assert(all.subrange(b, i + 1).last() == *chunk);
        }
        if current.len() > 0 && size + len > max_chars as u128 {
            let ghost before = batch_contents(batches@);
            batches.push(current);
            current = Vec::new();
            size = 0;
            proof {
                assert(batch_contents(batches@) =~= before.push(all.subrange(b, i as int)));
                assert(before + (seq![all.subrange(b, i as int)] + batches_from(all, max, i as int))
                    =~= batch_contents(batches@) + batches_from(all, max, i as int));
                b = i as int;
            }
        }
        let ghost held = current@;
        current.push(chunk.clone());
        size = size + len;
        proof {
            assert(current@ =~= all.subrange(b, i + 1));
            assert(current@.drop_last() =~= held);
            assert(current@.last() == *chunk);
            assert(len == chunk_size(*chunk));
            assert(total_size(current@) == total_size(held) + chunk_size(*chunk));
        }
    }
    let ghost before = batch_contents(batches@);
    if current.len() > 0 {
        batches.push(current);
        proof {
            let n = all.len() as int;
            assert(batch_contents(batches@) =~= before.push(all.subrange(b, n)));
            assert(batches_from(all, max, n) =~= Seq::empty());
            assert(batches_from(all, max, b) =~= seq![all.subrange(b, n)]);
            assert(before + batches_from(all, max, b) =~= batch_contents(batches@));
        }
    } else {
        assert(batches_from(all, max, 0) =~= Seq::empty());
    }
    batches
}

/// The chunks of some batches, one batch after another.
pub open spec fn flattened(batches: Seq<Seq<ChunkRecord>>) -> Seq<ChunkRecord>
    decreases batches.len(),
{
    if batches.len() == 0 {
        Seq::empty()
    } else {
        batches[0] + flattened(batches.skip(1))
    }
}

proof fn lemma_batches_flattened(chunks: Seq<ChunkRecord>, max: nat, b: int)
    requires
        0 <= b <= chunks.len(),
    ensures
        flattened(batches_from(chunks, max, b)) == chunks.skip(b),
    decreases chunks.len() - b,
{
    if b < chunks.len() {
        lemma_batch_end(chunks, max, b, b + 1);
        let e = batch_end(chunks, max, b, b + 1);
        lemma_batches_flattened(chunks, max, e);
        assert(batches_from(chunks, max, b).skip(1) =~= batches_from(chunks, max, e));
        assert(chunks.subrange(b, e) + chunks.skip(e) =~= chunks.skip(b));
    } else {
        assert(chunks.skip(b) =~= Seq::empty());
    }
}

/// The batches hold every chunk, once, in order.
pub proof fn law_batches_hold_all(chunks: Seq<ChunkRecord>, max: nat)
    ensures
        flattened(batches_from(chunks, max, 0)) == chunks,
{
    lemma_batches_flattened(chunks, max, 0);
    assert(chunks.skip(0) =~= chunks);
}

proof fn lemma_batch_fits(chunks: Seq<ChunkRecord>, max: nat, b: int, k: int)
    requires
        0 <= b < k <= chunks.len(),
        k == b + 1 || total_size(chunks.subrange(b, k)) <= max,
    ensures
        ({
            let e = batch_end(chunks, max, b, k);
            e == b + 1 || total_size(chunks.subrange(b, e)) <= max
        }),
    decreases chunks.len() - k,
{
    if k < chunks.len() && total_size(chunks.subrange(b, k + 1)) <= max {
        lemma_batch_fits(chunks, max, b, k + 1);
    }
}

proof fn lemma_batch_sizes(chunks: Seq<ChunkRecord>, max: nat, b: int, i: int)
    requires
        0 <= b,
        0 <= i < batches_from(chunks, max, b).len(),
    ensures
        batches_from(chunks, max, b)[i].len() > 0,
        batches_from(chunks, max, b)[i].len() == 1 || total_size(batches_from(chunks, max, b)[i])
            <= max,
    decreases chunks.len() - b,
{
    lemma_batch_end(chunks, max, b, b + 1);
    lemma_batch_fits(chunks, max, b, b + 1);
    let e = batch_end(chunks, max, b, b + 1);
    if i > 0 {
        lemma_batch_sizes(chunks, max, e, i - 1);
    }
}

/// No batch is empty, and only a batch of a single chunk can exceed the limit.
pub proof fn law_batch_sizes(chunks: Seq<ChunkRecord>, max: nat, i: int)
    requires
        0 <= i < batches_from(chunks, max, 0).len(),
    ensures
        batches_from(chunks, max, 0)[i].len() > 0,
        batches_from(chunks, max, 0)[i].len() == 1 || total_size(batches_from(chunks, max, 0)[i])
            <= max,
{
    lemma_batch_sizes(chunks, max, 0, i);
}

proof fn lemma_batch_full(chunks: Seq<ChunkRecord>, max: nat, b: int, k: int)
    requires
        0 <= b < k <= chunks.len(),
    ensures
        ({
            let e = batch_end(chunks, max, b, k);
            e < chunks.len() ==> total_size(chunks.subrange(b, e)) + chunk_size(chunks[e]) > max
        }),
    decreases chunks.len() - k,
{
    if k < chunks.len() {
        let more = chunks.subrange(b, k + 1);
        assert(more.drop_last() =~= chunks.subrange(b, k));
        assert(more.last() == chunks[k]);
        if total_size(more) <= max {
            lemma_batch_full(chunks, max, b, k + 1);
        }
    }
}

proof fn lemma_batches_greedy(chunks: Seq<ChunkRecord>, max: nat, b: int, i: int)
    requires
        0 <= b,
        0 <= i < batches_from(chunks, max, b).len() - 1,
    ensures
        batches_from(chunks, max, b)[i + 1].len() > 0,
        total_size(batches_from(chunks, max, b)[i]) + chunk_size(
            batches_from(chunks, max, b)[i + 1][0],
        ) > max,
    decreases chunks.len() - b,
{
    let all = batches_from(chunks, max, b);
    lemma_batch_end(chunks, max, b, b + 1);
    let e = batch_end(chunks, max, b, b + 1);
    let rest = batches_from(chunks, max, e);
    assert(all[i + 1] == rest[i]);
    if i > 0 {
        assert(all[i] == rest[i - 1]);
        lemma_batches_greedy(chunks, max, e, i - 1);
    } else {
        lemma_batch_full(chunks, max, b, b + 1);
        lemma_batch_end(chunks, max, e, e + 1);
        let f = batch_end(chunks, max, e, e + 1);
        assert(rest[0] == chunks.subrange(e, f));
    }
}

/// A batch takes in as many chunks as fit: the first chunk of the next one would exceed the limit.
pub proof fn law_batches_are_greedy(chunks: Seq<ChunkRecord>, max: nat, i: int)
    requires
        0 <= i < batches_from(chunks, max, 0).len() - 1,
    ensures
        batches_from(chunks, max, 0)[i + 1].len() > 0,
        total_size(batches_from(chunks, max, 0)[i]) + chunk_size(
            batches_from(chunks, max, 0)[i + 1][0],
        ) > max,
{
    lemma_batches_greedy(chunks, max, 0, i);
}

/// Every batch is a run of consecutive chunks.
pub proof fn lemma_batch_is_run(chunks: Seq<ChunkRecord>, max: nat, b: int, i: int) -> (r: (int, int))
    requires
        0 <= b,
        0 <= i < batches_from(chunks, max, b).len(),
    ensures
        0 <= r.0 <= r.1 <= chunks.len(),
        batches_from(chunks, max, b)[i] == chunks.subrange(r.0, r.1),
    decreases chunks.len() - b,
{
    lemma_batch_end(chunks, max, b, b + 1);
    let e = batch_end(chunks, max, b, b + 1);
    if i == 0 {
        (b, e)
    } else {
        lemma_batch_is_run(chunks, max, e, i - 1)
    }
}

// ---------------------------------------------------------------------------------------------
// What contexts hold

/// A section gains eight points where one of its chunks was found, four where a term stands in its
/// heading, four where one of its topics is akin to a term, and one where the question is broad.
pub proof fn law_section_scores(section: Section, terms: Seq<Text>, broad: bool, found: Seq<i64>)
    ensures
        section_score(section, terms, broad, found) == (if exists|i: int|
            0 <= i < section.chunk_ids.len() && found.contains(#[trigger] section.chunk_ids[i]) {
            8nat
        } else {
            0
        }) + (if exists|i: int|
            0 <= i < terms.len() && text::occurs_in(#[trigger] terms[i], section.heading) {
            4nat
        } else {
            0
        }) + (if exists|i: int|
            0 <= i < section.concepts.len() && akin(#[trigger] section.concepts[i], terms) {
            4nat
        } else {
            0
        }) + (if broad {
            1nat
        } else {
            0
        }),
{
}

/// A concept is akin to a term that stands in it or in which it stands.
pub proof fn law_akin(concept: Text, terms: Seq<Text>, i: int)
    requires
        0 <= i < terms.len(),
    ensures
        text::occurs_in(terms[i], concept) || text::occurs_in(concept, terms[i]) ==> akin(
            concept,
            terms,
        ),
        terms.len() == 1 && akin(concept, terms) ==> text::occurs_in(terms[i], concept)
            || text::occurs_in(concept, terms[i]),
{
}

/// At most 120 sections are shown for a broad question and 60 for a narrow one, and all of them where
/// they are no more.
pub proof fn law_section_limits(
    sections: Seq<Section>,
    terms: Seq<Text>,
    broad: bool,
    found: Seq<i64>,
)
    ensures
        ({
            let limit: nat = if broad {
                120
            } else {
                60
            };
            relevant_sections(sections, terms, broad, found).len() == if sections.len() < limit {
                sections.len()
            } else {
                limit
            }
        }),
{
    let scored = scored_sections(sections, terms, broad, found);
    let sorted = ranking::ranked(scored, ranking::order::<ScoredSection>());
    ranking::lemma_ranked_multiset(scored, ranking::order::<ScoredSection>());
    scored.to_multiset_ensures();
    sorted.to_multiset_ensures();
    assert(sorted.len() == scored.len());
}

/// A section that is shown says how many points it has, and is otherwise as it was.
pub proof fn law_shown_score(section: Section, score: nat)
    ensures
        ({
            let shown = with_score(section, score);
            &&& text::occurs_at("score="@ + text::decimal(score) + ".0 "@, shown.summary, 0)
            &&& text::occurs_in(".0 "@ + section.summary, shown.summary)
            &&& shown == (Section { summary: shown.summary, ..section })
        }),
{
    let parts = seq!["score="@, text::decimal(score), ".0 "@, section.summary];
    text::lemma_concat_begins(parts);
    text::lemma_concat_holds_pair(parts, 2);
}

/// The line of a document shows where it is, its sizes, its first twenty topics and its summary.
pub proof fn law_document_line(document: Document, k: int)
    ensures
        ({
            let line = parent_document_line(document);
            &&& text::occurs_at("- file="@ + document.file_name + " path="@, line, 0)
            &&& text::occurs_in(" path="@ + document.path + " chunks="@, line)
            &&& text::occurs_in(
                " chunks="@ + text::signed_decimal(document.chunk_count as int) + " chars="@,
                line,
            )
            &&& text::occurs_in(
                " chars="@ + text::signed_decimal(document.char_count as int) + " concepts="@,
                line,
            )
            &&& 0 <= k < document.concepts.len() && k < 20 ==> text::occurs_in(
                document.concepts[k],
                line,
            )
            &&& text::occurs_in(" summary="@ + document.summary + "\n"@, line)
        }),
{
    let topics = text::first_items(document.concepts, 20);
    let parts = seq![
        "- file="@,
        document.file_name,
        " path="@,
        document.path,
        " chunks="@,
        text::signed_decimal(document.chunk_count as int),
        " chars="@,
        text::signed_decimal(document.char_count as int),
        " concepts="@,
        text::joined(topics, ", "@),
        " summary="@,
        document.summary,
        "\n"@,
    ];
    text::lemma_concat_begins(parts);
    text::lemma_concat_holds_three(parts, 2);
    text::lemma_concat_holds_three(parts, 4);
    text::lemma_concat_holds_three(parts, 6);
    text::lemma_concat_holds(parts, 9);
    text::lemma_concat_holds_three(parts, 10);
    if 0 <= k < document.concepts.len() && k < 20 {
        lemma_topic_shown(topics, k, parts[9], text::concat(parts));
    }
}

proof fn lemma_topic_shown(topics: Seq<Text>, k: int, part: Text, line: Text)
    requires
        0 <= k < topics.len(),
        part == text::joined(topics, ", "@),
        text::occurs_in(part, line),
    ensures
        text::occurs_in(topics[k], line),
{
    assert(topics.contains(topics[k]));
    text::lemma_joined_contains(topics, ", "@, topics[k]);
    text::lemma_occurs_transitive(topics[k], part, line);
}

/// The line of a section shows where it is, its heading path, its bounds, its first twenty topics and
/// its summary.
pub proof fn law_section_line(section: Section, k: int)
    ensures
        ({
            let line = parent_section_line(section);
            &&& text::occurs_at("- file="@ + section.file_name + " path="@, line, 0)
            &&& text::occurs_in(" path="@ + section.path + " heading="@, line)
            &&& text::occurs_in(" heading="@ + section.heading + " chars="@, line)
            &&& text::occurs_in(" chars="@ + text::signed_decimal(section.start as int) + "-"@, line)
            &&& text::occurs_in("-"@ + text::signed_decimal(section.end as int) + " concepts="@, line)
            &&& 0 <= k < section.concepts.len() && k < 20 ==> text::occurs_in(
                section.concepts[k],
                line,
            )
            &&& text::occurs_in(" summary="@ + section.summary + "\n"@, line)
        }),
{
    let topics = text::first_items(section.concepts, 20);
    let parts = seq![
        "- file="@,
        section.file_name,
        " path="@,
        section.path,
        " heading="@,
        section.heading,
        " chars="@,
        text::signed_decimal(section.start as int),
        "-"@,
        text::signed_decimal(section.end as int),
        " concepts="@,
        text::joined(topics, ", "@),
        " summary="@,
        section.summary,
        "\n"@,
    ];
    text::lemma_concat_begins(parts);
    text::lemma_concat_holds_three(parts, 2);
    text::lemma_concat_holds_three(parts, 4);
    text::lemma_concat_holds_three(parts, 6);
    text::lemma_concat_holds_three(parts, 8);
    text::lemma_concat_holds(parts, 11);
    text::lemma_concat_holds_three(parts, 12);
    if 0 <= k < section.concepts.len() && k < 20 {
        lemma_topic_shown(topics, k, parts[11], text::concat(parts));
    }
}

proof fn lemma_document_lines(batch: Seq<ChunkRecord>, documents: Seq<Document>, i: int)
    requires
        0 <= i < documents.len(),
        in_batch(batch, documents[i].document_id),
    ensures
        document_lines(batch, documents).contains(parent_document_line(documents[i])),
    decreases documents.len(),
{
    let front = documents.drop_last();
    let before = document_lines(batch, front);
    let all = document_lines(batch, documents);
    let line = parent_document_line(documents[i]);
    if i < documents.len() - 1 {
        assert(front[i] == documents[i]);
        lemma_document_lines(batch, front, i);
        let k = choose|k: int| 0 <= k < before.len() && before[k] == line;
        assert(all[k] == line);
    } else {
        assert(all[before.len() as int] == line);
    }
}

proof fn lemma_section_lines(batch: Seq<ChunkRecord>, sections: Seq<Section>, i: int)
    requires
        0 <= i < sections.len(),
        above_batch(batch, sections[i]),
    ensures
        section_lines(batch, sections).contains(parent_section_line(sections[i])),
    decreases sections.len(),
{
    let front = sections.drop_last();
    let before = section_lines(batch, front);
    let all = section_lines(batch, sections);
    let line = parent_section_line(sections[i]);
    if i < sections.len() - 1 {
        assert(front[i] == sections[i]);
        lemma_section_lines(batch, front, i);
        let k = choose|k: int| 0 <= k < before.len() && before[k] == line;
        assert(all[k] == line);
    } else {
        assert(all[before.len() as int] == line);
    }
}

proof fn lemma_line_counts(batch: Seq<ChunkRecord>, documents: Seq<Document>, sections: Seq<Section>)
    ensures
        document_lines(batch, documents).len() <= documents.len(),
        section_lines(batch, sections).len() <= sections.len(),
    decreases documents.len() + sections.len(),
{
    if documents.len() > 0 {
        lemma_line_counts(batch, documents.drop_last(), sections);
    }
    if sections.len() > 0 {
        lemma_line_counts(batch, documents, sections.drop_last());
    }
}

/// A batch is read under its parents: the line of every document with a chunk in the batch, and of
/// every section above one of its chunks, stands in the context, as long as they are no more than eight
/// and twelve.
#[verifier::rlimit(40)]
pub proof fn law_parents_are_shown(
    batch: Seq<ChunkRecord>,
    corpus: Seq<Text>,
    documents: Seq<Document>,
    sections: Seq<Section>,
    d: int,
    s: int,
)
    requires
        documents.len() <= 8,
        sections.len() <= 12,
    ensures
        0 <= d < documents.len() && (exists|i: int|
            0 <= i < batch.len() && (#[trigger] batch[i]).document_id == documents[d].document_id)
            ==> text::occurs_in(
            parent_document_line(documents[d]),
            batch_context(batch, corpus, documents, sections),
        ),
        0 <= s < sections.len() && (exists|i: int|
            0 <= i < batch.len() && (#[trigger] batch[i]).document_id == sections[s].document_id && (
            sections[s].chunk_ids.contains(batch[i].id) || batch[i].heading_path@
                == sections[s].heading)) ==> text::occurs_in(
            parent_section_line(sections[s]),
            batch_context(batch, corpus, documents, sections),
        ),
{
    let docs = text::first_items(document_lines(batch, documents), 8);
    let secs = text::first_items(section_lines(batch, sections), 12);
    let head = corpus_lines(corpus) + seq!["DOCUMENT parents:\n"@];
    let parts = head + docs + seq!["SECTION parents:\n"@] + secs;
    lemma_line_counts(batch, documents, sections);
    assert(docs =~= document_lines(batch, documents));
    assert(secs =~= section_lines(batch, sections));
    if 0 <= d < documents.len() && exists|i: int|
        0 <= i < batch.len() && (#[trigger] batch[i]).document_id == documents[d].document_id {
        lemma_document_lines(batch, documents, d);
        let line = parent_document_line(documents[d]);
        let k = choose|k: int| 0 <= k < docs.len() && docs[k] == line;
        assert(parts[head.len() + k] == line);
        text::lemma_concat_holds(parts, head.len() + k);
    }
    if 0 <= s < sections.len() && exists|i: int|
        0 <= i < batch.len() && (#[trigger] batch[i]).document_id == sections[s].document_id && (
        sections[s].chunk_ids.contains(batch[i].id) || batch[i].heading_path@
            == sections[s].heading) {
        let i = choose|i: int|
            0 <= i < batch.len() && (#[trigger] batch[i]).document_id == sections[s].document_id && (
            sections[s].chunk_ids.contains(batch[i].id) || batch[i].heading_path@
                == sections[s].heading);
        assert(in_batch(batch, sections[s].document_id));
        assert(above_batch(batch, sections[s]));
        lemma_section_lines(batch, sections, s);
        let line = parent_section_line(sections[s]);
        let k = choose|k: int| 0 <= k < secs.len() && secs[k] == line;
        let p = head.len() + docs.len() + 1 + k;
        assert(parts[p] == line);
        text::lemma_concat_holds(parts, p);
    }
}

/// Only documents with a chunk in the batch, and only sections above one of its chunks, are shown.
pub proof fn law_only_parents_are_shown(
    batch: Seq<ChunkRecord>,
    documents: Seq<Document>,
    sections: Seq<Section>,
    k: int,
)
    ensures
        0 <= k < document_lines(batch, documents).len() ==> exists|d: int|
            0 <= d < documents.len() && in_batch(batch, (#[trigger] documents[d]).document_id)
                && parent_document_line(documents[d]) == document_lines(batch, documents)[k],
        0 <= k < section_lines(batch, sections).len() ==> exists|s: int|
            0 <= s < sections.len() && above_batch(batch, #[trigger] sections[s])
                && parent_section_line(sections[s]) == section_lines(batch, sections)[k],
    decreases documents.len() + sections.len(),
{
    if documents.len() > 0 {
        let front = documents.drop_last();
        let n = documents.len() - 1;
        law_only_parents_are_shown(batch, front, sections, k);
        if 0 <= k < document_lines(batch, documents).len() {
            if k < document_lines(batch, front).len() {
                let d = choose|d: int|
                    0 <= d < front.len() && in_batch(batch, (#[trigger] front[d]).document_id)
                        && parent_document_line(front[d]) == document_lines(batch, front)[k];
                assert(documents[d] == front[d]);
            } else {
                assert(in_batch(batch, documents[n].document_id));
            }
        }
    }
    if sections.len() > 0 {
        let front = sections.drop_last();
        let n = sections.len() - 1;
        law_only_parents_are_shown(batch, documents, front, k);
        if 0 <= k < section_lines(batch, sections).len() {
            if k < section_lines(batch, front).len() {
                let s = choose|s: int|
                    0 <= s < front.len() && above_batch(batch, #[trigger] front[s])
                        && parent_section_line(front[s]) == section_lines(batch, front)[k];
                assert(sections[s] == front[s]);
            } else {
                assert(above_batch(batch, sections[n]));
            }
        }
    }
}

/// An answer is made under the first twenty documents and, where the question is broad, under the first
/// sixty sections; and under the first eighty concepts of all.
pub proof fn law_answer_context(
    broad: bool,
    corpus: Seq<Text>,
    documents: Seq<Document>,
    sections: Seq<Section>,
    i: int,
)
    requires
        0 <= i,
        documents.len() > 0 || sections.len() > 0,
    ensures
        ({
            let around = answer_context(broad, corpus, documents, sections);
            &&& i < corpus.len() && i < 80 ==> text::occurs_in(corpus[i], around)
            &&& i < documents.len() && i < 20 ==> text::occurs_in(
                answer_document_line(documents[i]),
                around,
            )
            &&& broad && i < sections.len() && i < 60 ==> text::occurs_in(
                answer_section_line(sections[i]),
                around,
            )
        }),
{
    let around = answer_context(broad, corpus, documents, sections);
    let docs = text::first_items(documents, 20);
    let secs = text::first_items(sections, 60);
    let first = text::first_items(corpus, 80);
    let names = text::joined(first, ", "@);
    let head = seq!["CORPUS concepts: "@, names, "\n"@, "DOCUMENT summaries:\n"@];
    let middle = Seq::new(docs.len(), |k: int| answer_document_line(docs[k]));
    let below = Seq::new(secs.len(), |k: int| answer_section_line(secs[k]));
    let tail = if broad {
        seq!["RELEVANT section summaries:\n"@] + below
    } else {
        Seq::empty()
    };
    let parts = head + middle + tail;
    assert(around == text::concat(parts));
    assert(parts[1] == names);
    text::lemma_concat_holds(parts, 1);
    if i < corpus.len() && i < 80 {
        lemma_topic_shown(first, i, names, around);
    }
    if i < documents.len() && i < 20 {
        assert(parts[4 + i] == middle[i]);
        text::lemma_concat_holds(parts, 4 + i);
    }
    if broad && i < sections.len() && i < 60 {
        let p = 4 + middle.len() + 1 + i;
        assert(tail[1 + i] == below[i]);
        assert(parts[p] == below[i]);
        text::lemma_concat_holds(parts, p);
    }
}

/// The lines of an answer's context show where a document or a section is, its topics, a document's
/// headings, and its summary.
pub proof fn law_answer_lines(document: Document, section: Section, k: int)
    ensures
        ({
            let line = answer_document_line(document);
            &&& text::occurs_at("- file="@ + document.file_name + " path="@, line, 0)
            &&& 0 <= k < document.concepts.len() && k < 20 ==> text::occurs_in(
                document.concepts[k],
                line,
            )
            &&& 0 <= k < document.headings.len() && k < 12 ==> text::occurs_in(
                document.headings[k],
                line,
            )
            &&& text::occurs_in(" summary="@ + document.summary + "\n"@, line)
        }),
        ({
            let line = answer_section_line(section);
            &&& text::occurs_at("- file="@ + section.file_name + " path="@, line, 0)
            &&& text::occurs_in(" heading="@ + section.heading + " concepts="@, line)
            &&& 0 <= k < section.concepts.len() && k < 16 ==> text::occurs_in(
                section.concepts[k],
                line,
            )
            &&& text::occurs_in(" summary="@ + section.summary + "\n"@, line)
        }),
{
    let topics = text::first_items(document.concepts, 20);
    let titles = text::first_items(document.headings, 12);
    let parts = seq![
        "- file="@,
        document.file_name,
        " path="@,
        document.path,
        " chunks="@,
        text::signed_decimal(document.chunk_count as int),
        " chars="@,
        text::signed_decimal(document.char_count as int),
        " concepts="@,
        text::joined(topics, ", "@),
        " headings="@,
        text::joined(titles, " / "@),
        " summary="@,
        document.summary,
        "\n"@,
    ];
    text::lemma_concat_begins(parts);
    text::lemma_concat_holds(parts, 9);
    text::lemma_concat_holds(parts, 11);
    text::lemma_concat_holds_three(parts, 12);
    if 0 <= k < document.concepts.len() && k < 20 {
        lemma_topic_shown(topics, k, parts[9], text::concat(parts));
    }
    if 0 <= k < document.headings.len() && k < 12 {
        assert(titles.contains(titles[k]));
        text::lemma_joined_contains(titles, " / "@, titles[k]);
        text::lemma_occurs_transitive(titles[k], parts[11], text::concat(parts));
    }
    let own = text::first_items(section.concepts, 16);
    let others = seq![
        "- file="@,
        section.file_name,
        " path="@,
        section.path,
        " heading="@,
        section.heading,
        " concepts="@,
        text::joined(own, ", "@),
        " summary="@,
        section.summary,
        "\n"@,
    ];
    text::lemma_concat_begins(others);
    text::lemma_concat_holds_three(others, 4);
    text::lemma_concat_holds(others, 7);
    text::lemma_concat_holds_three(others, 8);
    if 0 <= k < section.concepts.len() && k < 16 {
        lemma_topic_shown(own, k, others[7], text::concat(others));
    }
}

/// The size of a chunk is that of its text and its heading path and eighty characters more, and the
/// size of a batch is that of its chunks together.
pub proof fn law_batch_size(a: Seq<ChunkRecord>, b: Seq<ChunkRecord>, chunk: ChunkRecord)
    ensures
        total_size(a + b) == total_size(a) + total_size(b),
        total_size(seq![chunk]) == chunk.content@.len() + chunk.heading_path@.len() + 80,
    decreases b.len(),
{
    reveal_with_fuel(total_size, 2);
    assert(seq![chunk].drop_last() =~= Seq::<ChunkRecord>::empty());
    if b.len() == 0 {
        assert(a + b =~= a);
    } else {
        assert((a + b).drop_last() =~= a + b.drop_last());
        assert((a + b).last() == b.last());
        law_batch_size(a, b.drop_last(), chunk);
    }
}

proof fn lemma_document_concepts(documents: Seq<Document>, d: int, k: int)
    requires
        0 <= d < documents.len(),
        0 <= k < documents[d].concepts.len(),
        k < 30,
    ensures
        document_concepts(documents).contains(documents[d].concepts[k]),
    decreases documents.len(),
{
    let front = documents.drop_last();
    let before = document_concepts(front);
    let all = document_concepts(documents);
    let x = documents[d].concepts[k];
    if d < documents.len() - 1 {
        assert(front[d] == documents[d]);
        lemma_document_concepts(front, d, k);
        let p = choose|p: int| 0 <= p < before.len() && before[p] == x;
        assert(all[p] == x);
    } else {
        let own = text::first_items(documents[d].concepts, 30);
        assert(own[k] == x);
        assert(all[before.len() + k] == x);
    }
}

proof fn lemma_section_concepts(sections: Seq<Section>, s: int, k: int)
    requires
        0 <= s < sections.len(),
        0 <= k < sections[s].concepts.len(),
        k < 12,
    ensures
        section_concepts(sections).contains(sections[s].concepts[k]),
    decreases sections.len(),
{
    let front = sections.drop_last();
    let before = section_concepts(front);
    let all = section_concepts(sections);
    let x = sections[s].concepts[k];
    if s < sections.len() - 1 {
        assert(front[s] == sections[s]);
        lemma_section_concepts(front, s, k);
        let p = choose|p: int| 0 <= p < before.len() && before[p] == x;
        assert(all[p] == x);
    } else {
        let own = text::first_items(sections[s].concepts, 12);
        assert(own[k] == x);
        assert(all[before.len() + k] == x);
    }
}

/// The concepts of all are the lower concepts of the question, the first thirty of every document and
/// the first twelve of every section, as far as they are no more than 120 together.
pub proof fn law_corpus_concepts(
    lower: Seq<Text>,
    documents: Seq<Document>,
    sections: Seq<Section>,
    i: int,
    k: int,
)
    requires
        listing::cleaned(lower + document_concepts(documents) + section_concepts(sections)).len()
            <= 120,
        0 <= i,
        0 <= k,
    ensures
        i < lower.len() && 2 <= text::trimmed(lower[i]).len() <= 80 ==> corpus_concepts(
            lower,
            documents,
            sections,
        ).contains(text::trimmed(lower[i])),
        i < documents.len() && k < documents[i].concepts.len() && k < 30 && 2 <= text::trimmed(
            documents[i].concepts[k],
        ).len() <= 80 ==> corpus_concepts(lower, documents, sections).contains(
            text::trimmed(documents[i].concepts[k]),
        ),
        i < sections.len() && k < sections[i].concepts.len() && k < 12 && 2 <= text::trimmed(
            sections[i].concepts[k],
        ).len() <= 80 ==> corpus_concepts(lower, documents, sections).contains(
            text::trimmed(sections[i].concepts[k]),
        ),
{
    let b = document_concepts(documents);
    let c = section_concepts(sections);
    let all = lower + b + c;
    let list = listing::cleaned(all);
    assert(text::first_items(list, 120) =~= list);
    if i < lower.len() {
        assert(all[i] == lower[i]);
        listing::law_cleaned_entries(all, text::trimmed(lower[i]));
    }
    if i < documents.len() && k < documents[i].concepts.len() && k < 30 {
        lemma_document_concepts(documents, i, k);
        let x = documents[i].concepts[k];
        let p = choose|p: int| 0 <= p < b.len() && b[p] == x;
        assert(all[lower.len() + p] == x);
        listing::law_cleaned_entries(all, text::trimmed(x));
    }
    if i < sections.len() && k < sections[i].concepts.len() && k < 12 {
        lemma_section_concepts(sections, i, k);
        let x = sections[i].concepts[k];
        let p = choose|p: int| 0 <= p < c.len() && c[p] == x;
        assert(all[lower.len() + b.len() + p] == x);
        listing::law_cleaned_entries(all, text::trimmed(x));
    }
}

/// Of two sections the one with more points comes first; with the same points, the one of the file that
/// comes first; and within a file, the one that begins first.
pub proof fn law_section_order(a: (nat, Section), b: (nat, Section))
    ensures
        ({
            let before = ranking::order::<ScoredSection>();
            &&& a.0 > b.0 ==> before(a, b) && !before(b, a)
            &&& a.0 == b.0 && listing::precedes(a.1.file_name, b.1.file_name) ==> before(a, b)
            &&& a.0 == b.0 && a.1.file_name == b.1.file_name ==> (before(a, b) <==> a.1.start
                < b.1.start)
        }),
{
    listing::lemma_precedes_total(a.1.file_name, b.1.file_name);
}

/// A section stands above a batch through its own document alone: where the batch has no chunk of its
/// document, or none of its chunks and none of its document under its heading path, it does not.
pub proof fn law_sections_above_nothing(batch: Seq<ChunkRecord>, section: Section)
    ensures
        (forall|i: int|
            0 <= i < batch.len() ==> (#[trigger] batch[i]).document_id != section.document_id)
            ==> !above_batch(batch, section),
        (forall|i: int|
            0 <= i < batch.len() ==> !section.chunk_ids.contains((#[trigger] batch[i]).id) && (
            batch[i].document_id != section.document_id || batch[i].heading_path@ != section.heading))
            ==> !above_batch(batch, section),
{
}

/// The first sixty concepts of all stand in the context of a batch. Where nothing is known of documents
/// and sections, the context says so.
pub proof fn law_batch_corpus(
    batch: Seq<ChunkRecord>,
    corpus: Seq<Text>,
    documents: Seq<Document>,
    sections: Seq<Section>,
    i: int,
)
    requires
        0 <= i < corpus.len(),
        i < 60,
    ensures
        documents.len() > 0 || sections.len() > 0 ==> text::occurs_in(
            corpus[i],
            batch_context(batch, corpus, documents, sections),
        ),
        documents.len() == 0 && sections.len() == 0 ==> batch_context(
            batch,
            corpus,
            documents,
            sections,
        ) == "階層文脈なし"@ && answer_context(true, corpus, documents, sections) == "階層文脈なし"@,
{
    let first = text::first_items(corpus, 60);
    let names = text::joined(first, ", "@);
    let line = seq!["CORPUS concepts: "@, names, "\n"@];
    text::lemma_concat_holds(line, 1);
    lemma_topic_shown(first, i, names, text::concat(line));
    let docs = text::first_items(document_lines(batch, documents), BATCH_DOCUMENTS as nat);
    let secs = text::first_items(section_lines(batch, sections), BATCH_SECTIONS as nat);
    let parts = corpus_lines(corpus) + seq!["DOCUMENT parents:\n"@] + docs + seq![
        "SECTION parents:\n"@,
    ] + secs;
    if documents.len() > 0 || sections.len() > 0 {
        assert(parts[0] == corpus_lines(corpus)[0]);
        assert(parts[0] == text::concat(line));
        text::lemma_concat_holds(parts, 0);
        text::lemma_occurs_transitive(
            corpus[i],
            text::concat(line),
            batch_context(batch, corpus, documents, sections),
        );
    }
}

} // verus!
