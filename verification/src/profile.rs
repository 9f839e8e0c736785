//! What a question asks for: its search terms, whether it is broad, and the concepts of the source
//! that a broad question covers.

use vstd::prelude::*;
use vstd::string::*;

use crate::concepts;
use crate::json;
use crate::json::Json;
use crate::listing;
use crate::records::ChunkRecord;
use crate::tally;
use crate::tally::Tally;
use crate::terms;
use crate::text;
use crate::text::{CharClass, Text};

verus! {

// ---------------------------------------------------------------------------------------------
// Broad questions

/// A question of at most this many characters and terms is broad.
pub const SHORT_QUESTION_CHARS: usize = 12;

pub const SHORT_QUESTION_TERMS: usize = 8;

/// The expressions of broad questions.
pub open spec fn broad_markers() -> Seq<Text> {
    seq![
        "どうなっていますか"@,
        "どうなってますか"@,
        "全体"@,
        "一覧"@,
        "まとめ"@,
        "網羅"@,
        "すべて"@,
        "全部"@,
        "全て"@,
        "教えて"@,
        "について"@,
    ]
}

/// Whether a question is broad: short, or asking for a whole.
pub open spec fn is_broad(question: Text, term_count: nat) -> bool {
    let q = text::trimmed(question);
    ||| q.len() <= SHORT_QUESTION_CHARS && term_count <= SHORT_QUESTION_TERMS
    ||| exists|i: int|
        0 <= i < broad_markers().len() && text::occurs_in(#[trigger] broad_markers()[i], q)
}

/// Whether a question is broad: short, or asking for a whole.
pub fn is_broad_question(question: &str, terms: &Vec<String>) -> (r: bool)
    ensures
        r == is_broad(question@, terms@.len()),
{
    let q = text::trim(question);
    if text::char_count(q) <= SHORT_QUESTION_CHARS && terms.len() <= SHORT_QUESTION_TERMS {
        return true;
    }
    let markers: Vec<&'static str> = vec![
        "どうなっていますか",
        "どうなってますか",
        "全体",
        "一覧",
        "まとめ",
        "網羅",
        "すべて",
        "全部",
        "全て",
        "教えて",
        "について",
    ];
    let ghost all = broad_markers();
    for i in 0..markers.len()
        invariant
            all == broad_markers(),
            markers@.len() == all.len(),
            forall|k: int| 0 <= k < all.len() ==> #[trigger] markers@[k]@ == all[k],
            q@ == text::trimmed(question@),
            !(q@.len() <= SHORT_QUESTION_CHARS && terms@.len() <= SHORT_QUESTION_TERMS),
            forall|k: int| 0 <= k < i ==> !text::occurs_in(#[trigger] all[k], q@),
    {
        if text::contains(q, markers[i]) {
            assert(text::occurs_in(all[i as int], q@));
            return true;
        }
    }
    false
}

// ---------------------------------------------------------------------------------------------
// Terms of a question

/// Whether `x` is a term of the question, or one of the given terms, that says something.
pub open spec fn is_question_term(question: Text, given: Seq<Text>, x: Text) -> bool {
    &&& given.contains(x) || terms::terms_of(question).contains(x)
    &&& x.len() >= 2
    &&& !concepts::is_stop_word(x)
}

/// The terms that say what a question is about.
pub open spec fn question_terms(question: Text, given: Seq<Text>) -> Set<Text> {
    Set::new(
        |x: Text|
            listing::MIN_ENTRY_CHARS <= x.len() <= listing::MAX_ENTRY_CHARS && exists|t: Text|
                #[trigger]
                is_question_term(question, given, t) && text::trimmed(t) == x,
    )
}

/// The terms that say what a question is about, distinct and in ascending order.
pub fn meaningful_question_terms(question: &str, terms: &Vec<String>) -> (r: Vec<String>)
    ensures
        listing::lists(
            text::texts(r@),
            question_terms(question@, text::texts(terms@)),
        ),
        text::texts(r@) == listing::listing(question_terms(question@, text::texts(terms@))),
{
    let ghost given = text::texts(terms@);
    let ghost q = question@;
    let own = terms::extract_terms(question);
    let ghost own_texts = text::texts(own@);
    let mut out: Vec<String> = Vec::new();
    for i in 0..terms.len()
        invariant
            given == text::texts(terms@),
            forall|x: Text| #[trigger]
                text::texts(out@).contains(x) <==> given.take(i as int).contains(x) && x.len() >= 2
                    && !concepts::is_stop_word(x),
    {
        let ghost before = text::texts(out@);
        let term = &terms[i];
        if text::char_count(term.as_str()) >= 2 && !concepts::is_stop_term(term.as_str()) {
            out.push(term.clone());
            assert(text::texts(out@) =~= before.push(term@));
        }
        proof {
            assert(given.take(i + 1) =~= given.take(i as int).push(term@));
            assert forall|x: Text| #[trigger] text::texts(out@).contains(x) <==> given.take(
                i + 1,
            ).contains(x) && x.len() >= 2 && !concepts::is_stop_word(x) by {
                listing::lemma_push_members(given.take(i as int), term@, x);
                listing::lemma_push_members(before, term@, x);
                assert(before.contains(x) <==> given.take(i as int).contains(x) && x.len() >= 2
                    && !concepts::is_stop_word(x));
            }
        }
    }
    assert(given.take(given.len() as int) =~= given);
    for i in 0..own.len()
        invariant
            own_texts == text::texts(own@),
            forall|x: Text| #[trigger]
                text::texts(out@).contains(x) <==> (given.contains(x) || own_texts.take(
                    i as int,
                ).contains(x)) && x.len() >= 2 && !concepts::is_stop_word(x),
    {
        let ghost before = text::texts(out@);
        let term = &own[i];
        if text::char_count(term.as_str()) >= 2 && !concepts::is_stop_term(term.as_str()) {
            out.push(term.clone());
            assert(text::texts(out@) =~= before.push(term@));
        }
        proof {
            assert(own_texts.take(i + 1) =~= own_texts.take(i as int).push(term@));
            assert forall|x: Text| #[trigger] text::texts(out@).contains(x) <==> (given.contains(x)
                || own_texts.take(i + 1).contains(x)) && x.len() >= 2 && !concepts::is_stop_word(
                x,
            ) by {
                listing::lemma_push_members(own_texts.take(i as int), term@, x);
                listing::lemma_push_members(before, term@, x);
                assert(before.contains(x) <==> (given.contains(x) || own_texts.take(
                    i as int,
                ).contains(x)) && x.len() >= 2 && !concepts::is_stop_word(x));
            }
        }
    }
    assert(own_texts.take(own_texts.len() as int) =~= own_texts);
    let ghost all = text::texts(out@);
    listing::normalize_string_list(&mut out);
    proof {
        let wanted = question_terms(q, given);
        assert forall|x: Text| #[trigger] listing::clean_entries(all).contains(x)
            <==> wanted.contains(x) by {
            if listing::clean_entries(all).contains(x) {
                let k = choose|k: int| 0 <= k < all.len() && text::trimmed(#[trigger] all[k]) == x;
                assert(all.contains(all[k]));
                assert(is_question_term(q, given, all[k]));
            }
            if wanted.contains(x) {
                let t = choose|t: Text| #[trigger]
                    is_question_term(q, given, t) && text::trimmed(t) == x;
                assert(all.contains(t));
                let k = choose|k: int| 0 <= k < all.len() && all[k] == t;
                assert(text::trimmed(all[k]) == x);
            }
        }
        assert(listing::clean_entries(all) =~= wanted);
    }
    out
}

/// Whether a concept and one of the terms contain one another.
pub open spec fn matches_terms(concept: Text, terms: Seq<Text>) -> bool {
    exists|i: int|
        0 <= i < terms.len() && (#[trigger] terms[i]).len() >= 2 && (text::occurs_in(
            terms[i],
            concept,
        ) || text::occurs_in(concept, terms[i]))
}

/// Whether a concept and one of the terms contain one another.
pub fn concept_matches_question(concept: &str, terms: &Vec<String>) -> (r: bool)
    ensures
        r == matches_terms(concept@, text::texts(terms@)),
{
    let ghost all = text::texts(terms@);
    for i in 0..terms.len()
        invariant
            all == text::texts(terms@),
            forall|k: int|
                0 <= k < i && (#[trigger] all[k]).len() >= 2 ==> !text::occurs_in(all[k], concept@)
                    && !text::occurs_in(concept@, all[k]),
    {
        let term = terms[i].as_str();
        if text::char_count(term) >= 2 && (text::contains(concept, term) || text::contains(
            term,
            concept,
        )) {
            assert(all[i as int] == term@);
            return true;
        }
    }
    false
}

// ---------------------------------------------------------------------------------------------
// Concepts of the source

/// Scores are counted in quarters of a point.
pub const HEADING_BASE: u64 = 4;

/// What a concept gains that matches the question.
pub const MATCH_BONUS: u64 = 32;

/// What a heading's concept gains that its text names as well.
pub const CONTENT_BONUS: u64 = 2;

/// What each of the first mentions in the text counts.
pub const MENTION_SCORE: u64 = 3;

/// Further mentions count nothing.
pub const MAX_MENTIONS: u64 = 8;

/// What a concept of the text gains that the heading mentions as well.
pub const MENTIONED_BONUS: u64 = 8;

/// A concept of at least this score belongs to a narrow question too.
pub const NARROW_SCORE: u64 = 32;

/// The most concepts of a broad and of a narrow question.
pub const BROAD_LIMIT: usize = 80;

pub const NARROW_LIMIT: usize = 30;

/// What a concept gains by matching the question.
pub open spec fn match_score(wanted: Seq<Text>, x: Text) -> nat {
    if matches_terms(x, wanted) {
        MATCH_BONUS as nat
    } else {
        0
    }
}

/// What a concept scores that a heading states.
pub open spec fn heading_score(content: Text, wanted: Seq<Text>, x: Text) -> nat {
    if concepts::is_generic(x) {
        0
    } else {
        HEADING_BASE as nat + match_score(wanted, x) + if text::occurs_in(x, content) {
            CONTENT_BONUS as nat
        } else {
            0
        }
    }
}

/// What a concept scores that a text names.
pub open spec fn mention_score(heading: Text, content: Text, wanted: Seq<Text>, x: Text) -> nat {
    let count = concepts::concept_count(content, x);
    if concepts::is_generic(x) || count == 0 {
        0
    } else {
        MENTION_SCORE as nat * (if count < MAX_MENTIONS {
            count
        } else {
            MAX_MENTIONS as nat
        }) + match_score(wanted, x) + if !text::is_blank(x) && text::occurs_in(x, heading) {
            MENTIONED_BONUS as nat
        } else {
            0
        }
    }
}

/// What a concept scores in one chunk.
pub open spec fn chunk_score(chunk: ChunkRecord, wanted: Seq<Text>, x: Text) -> nat {
    let heading = chunk.heading_path@;
    let content = chunk.content@;
    (if concepts::heading_concepts(heading).contains(x) {
        heading_score(content, wanted, x)
    } else {
        0
    }) + mention_score(heading, content, wanted, x)
}

/// What a concept scores in some chunks.
pub open spec fn source_score(chunks: Seq<ChunkRecord>, wanted: Seq<Text>, x: Text) -> nat
    decreases chunks.len(),
{
    if chunks.len() == 0 {
        0
    } else {
        source_score(chunks.drop_last(), wanted, x) + chunk_score(chunks.last(), wanted, x)
    }
}

/// The scores of the concepts that belong to a question: all of them if it is broad, otherwise those
/// of a high score and those that match it.
pub open spec fn admitted_scores(
    chunks: Seq<ChunkRecord>,
    wanted: Seq<Text>,
    broad: bool,
) -> spec_fn(Text) -> nat {
    |x: Text|
        {
            let score = tally::saturated(source_score(chunks, wanted, x));
            if broad || score >= NARROW_SCORE || matches_terms(x, wanted) {
                score
            } else {
                0
            }
        }
}

/// The concepts of highest score that belong to a question.
pub open spec fn leading_concepts(
    chunks: Seq<ChunkRecord>,
    question: Text,
    given: Seq<Text>,
) -> Set<Text> {
    let wanted = listing::listing(question_terms(question, given));
    let broad = is_broad(question, given.len());
    let limit = if broad {
        BROAD_LIMIT
    } else {
        NARROW_LIMIT
    };
    tally::leaders(admitted_scores(chunks, wanted, broad), limit as nat)
}

/// The concepts of highest score that belong to a question, in order.
pub open spec fn best_concepts(
    chunks: Seq<ChunkRecord>,
    question: Text,
    given: Seq<Text>,
) -> Seq<Text> {
    listing::listing(leading_concepts(chunks, question, given))
}

/// The concepts of the source that belong to a question, as a cleaned list.
pub open spec fn source_concepts(
    chunks: Seq<ChunkRecord>,
    question: Text,
    given: Seq<Text>,
) -> Seq<Text> {
    listing::cleaned(best_concepts(chunks, question, given))
}

/// Whether a text stands, word for word, in the heading path or the content of one of the chunks.
pub open spec fn from_source(chunks: Seq<ChunkRecord>, x: Text) -> bool {
    exists|i: int|
        0 <= i < chunks.len() && (text::occurs_in(x, (#[trigger] chunks[i]).heading_path@)
            || text::occurs_in(x, chunks[i].content@))
}

/// What scores in the chunks stands in one of them.
pub proof fn lemma_scored_in_source(chunks: Seq<ChunkRecord>, wanted: Seq<Text>, x: Text)
    requires
        source_score(chunks, wanted, x) > 0,
    ensures
        from_source(chunks, x),
    decreases chunks.len(),
{
    let before = chunks.drop_last();
    if source_score(before, wanted, x) > 0 {
        lemma_scored_in_source(before, wanted, x);
        let i = choose|i: int|
            0 <= i < before.len() && (text::occurs_in(x, (#[trigger] before[i]).heading_path@)
                || text::occurs_in(x, before[i].content@));
        assert(chunks[i] == before[i]);
    } else {
        let chunk = chunks.last();
        if concepts::heading_concepts(chunk.heading_path@).contains(x) {
            concepts::law_heading_concepts_occur(chunk.heading_path@, x);
        } else {
            concepts::law_named_concepts_occur(chunk.content@, x);
        }
        assert(chunks[chunks.len() - 1] == chunk);
    }
}

/// What scores in the chunks is trimmed, and no heading that every regulation has.
proof fn lemma_scored_name(chunks: Seq<ChunkRecord>, wanted: Seq<Text>, x: Text)
    requires
        source_score(chunks, wanted, x) > 0,
    ensures
        text::trimmed(x) == x,
        !concepts::is_generic(x),
    decreases chunks.len(),
{
    if source_score(chunks.drop_last(), wanted, x) > 0 {
        lemma_scored_name(chunks.drop_last(), wanted, x);
    } else {
        let last = chunks.last();
        if concepts::heading_concepts(last.heading_path@).contains(x) {
            concepts::lemma_heading_concept_trimmed(last.heading_path@, x);
        } else {
            concepts::lemma_named_concept_trimmed(last.content@, x);
        }
    }
}

proof fn lemma_part_from_source(chunks: Seq<ChunkRecord>, whole: Text, x: Text)
    requires
        from_source(chunks, whole),
        text::occurs_in(x, whole),
    ensures
        from_source(chunks, x),
{
    let i = choose|i: int|
        0 <= i < chunks.len() && (text::occurs_in(whole, (#[trigger] chunks[i]).heading_path@)
            || text::occurs_in(whole, chunks[i].content@));
    if text::occurs_in(whole, chunks[i].heading_path@) {
        text::lemma_occurs_transitive(x, whole, chunks[i].heading_path@);
    } else {
        text::lemma_occurs_transitive(x, whole, chunks[i].content@);
    }
}

fn score_chunk(
    scores: &mut Tally,
    chunk: &ChunkRecord,
    wanted: &Vec<String>,
    Ghost(base): Ghost<spec_fn(Text) -> nat>,
)
    requires
        old(scores).wf(),
        forall|x: Text| #[trigger] old(scores).at(x) == tally::saturated(base(x)),
    ensures
        final(scores).wf(),
        forall|x: Text| #[trigger]
            final(scores).at(x) == tally::saturated(
                base(x) + chunk_score(*chunk, text::texts(wanted@), x),
            ),
{
    let ghost terms = text::texts(wanted@);
    let ghost content = chunk.content@;
    let ghost heading = chunk.heading_path@;
    let stated = concepts::concepts_from_heading(chunk.heading_path.as_str());
    let ghost by_heading = |x: Text| heading_score(content, terms, x);
    let mut amounts: Vec<u64> = Vec::new();
    for i in 0..stated.len()
        invariant
            terms == text::texts(wanted@),
            content == chunk.content@,
            by_heading == (|x: Text| heading_score(content, terms, x)),
            amounts@.len() == i,
            forall|k: int|
                0 <= k < i ==> #[trigger] amounts@[k] as nat == tally::saturated(
                    by_heading(stated@[k]@),
                ),
    {
        let concept = stated[i].as_str();
        let mut amount: u64 = 0;
        if !concepts::is_generic_concept(concept) {
            amount = HEADING_BASE;
            if concept_matches_question(concept, wanted) {
                amount += MATCH_BONUS;
            }
            if text::contains(chunk.content.as_str(), concept) {
                amount += CONTENT_BONUS;
            }
        }
        amounts.push(amount);
    }
    scores.add_each(&stated, &amounts, Ghost(base), Ghost(by_heading));
    let counts = concepts::content_concept_counts(chunk.content.as_str());
    let ghost by_mention = |x: Text| mention_score(heading, content, terms, x);
    let mut amounts: Vec<u64> = Vec::new();
    let names = counts.terms();
    for i in 0..names.len()
        invariant
            terms == text::texts(wanted@),
            content == chunk.content@,
            heading == chunk.heading_path@,
            by_mention == (|x: Text| mention_score(heading, content, terms, x)),
            counts.wf(),
            forall|x: Text| #[trigger]
                counts.at(x) == tally::saturated(concepts::concept_count(content, x)),
            text::texts(names@) == counts.names(),
            amounts@.len() == i,
            forall|k: int|
                0 <= k < i ==> #[trigger] amounts@[k] as nat == tally::saturated(
                    by_mention(names@[k]@),
                ),
    {
        proof {
            assert(counts.names()[i as int] == names@[i as int]@);
            counts.lemma_names();
            assert(counts.names().contains(counts.names()[i as int]));
            assert(Set::new(|x: Text| counts.at(x) > 0).contains(names@[i as int]@));
        }
        let concept = names[i].as_str();
        let mut amount: u64 = 0;
        if !concepts::is_generic_concept(concept) {
            let count = counts.score(i);
            let mentions = if count < MAX_MENTIONS {
                count
            } else {
                MAX_MENTIONS
            };
            amount = MENTION_SCORE * mentions;
            if concept_matches_question(concept, wanted) {
                amount += MATCH_BONUS;
            }
            if concepts::heading_mentions_concept(chunk.heading_path.as_str(), concept) {
                amount += MENTIONED_BONUS;
            }
        }
        amounts.push(amount);
    }
    let ghost middle = |x: Text|
        base(x) + if text::texts(stated@).contains(x) {
            by_heading(x)
        } else {
            0
        };
    scores.add_each(names, &amounts, Ghost(middle), Ghost(by_mention));
    proof {
        counts.lemma_names();
        assert forall|x: Text| #[trigger] scores.at(x) == tally::saturated(
            base(x) + chunk_score(*chunk, terms, x),
        ) by {
            assert(text::texts(stated@).contains(x) <==> concepts::heading_concepts(
                heading,
            ).contains(x));
            assert(counts.names().contains(x) <==> Set::new(|x: Text| counts.at(x) > 0).contains(x));
        }
    }
}

/// The concepts of the source that belong to a question.
pub fn source_derived_concepts(
    chunks: &[ChunkRecord],
    question: &str,
    terms: &Vec<String>,
) -> (r: Vec<String>)
    ensures
        text::texts(r@) == source_concepts(chunks@, question@, text::texts(terms@)),
        listing::lists(
            best_concepts(chunks@, question@, text::texts(terms@)),
            leading_concepts(chunks@, question@, text::texts(terms@)),
        ),
        r@.len() <= BROAD_LIMIT,
        !is_broad(question@, terms@.len()) ==> r@.len() <= NARROW_LIMIT,
        forall|i: int|
            0 <= i < r@.len() ==> from_source(chunks@, #[trigger] r@[i]@)
                && !concepts::is_generic(r@[i]@),
{
    let ghost given = text::texts(terms@);
    let wanted = meaningful_question_terms(question, terms);
    let ghost want = text::texts(wanted@);
    let mut scores = Tally::new();
    for i in 0..chunks.len()
        invariant
            want == text::texts(wanted@),
            scores.wf(),
            forall|x: Text| #[trigger]
                scores.at(x) == tally::saturated(source_score(chunks@.take(i as int), want, x)),
    {
        let ghost done = chunks@.take(i as int);
        score_chunk(
            &mut scores,
            &chunks[i],
            &wanted,
            Ghost(|x: Text| source_score(done, want, x)),
        );
        proof {
            assert(chunks@.take(i + 1).drop_last() =~= done);
            assert(chunks@.take(i + 1).last() == chunks@[i as int]);
        }
    }
    assert(chunks@.take(chunks@.len() as int) =~= chunks@);
    let broad = is_broad_question(question, terms);
    let names = scores.terms();
    let ghost admitted = admitted_scores(chunks@, want, broad);
    let mut amounts: Vec<u64> = Vec::new();
    for i in 0..names.len()
        invariant
            want == text::texts(wanted@),
            admitted == admitted_scores(chunks@, want, broad),
            scores.wf(),
            forall|x: Text| #[trigger]
                scores.at(x) == tally::saturated(source_score(chunks@, want, x)),
            text::texts(names@) == scores.names(),
            amounts@.len() == i,
            forall|k: int|
                0 <= k < i ==> #[trigger] amounts@[k] as nat == tally::saturated(
                    admitted(names@[k]@),
                ),
    {
        assert(scores.names()[i as int] == names@[i as int]@);
        let score = scores.score(i);
        let amount = if broad || score >= NARROW_SCORE || concept_matches_question(
            names[i].as_str(),
            &wanted,
        ) {
            score
        } else {
            0
        };
        amounts.push(amount);
    }
    let mut kept = Tally::new();
    kept.add_each(names, &amounts, Ghost(|x: Text| 0nat), Ghost(admitted));
    proof {
        scores.lemma_names();
        assert forall|x: Text| #[trigger] kept.at(x) == admitted(x) by {
            assert(scores.names().contains(x) <==> Set::new(|x: Text| scores.at(x) > 0).contains(x));
        }
        assert(kept.score_fn() =~= admitted);
    }
    let mut out = kept.top(
        if broad {
            BROAD_LIMIT
        } else {
            NARROW_LIMIT
        },
    );
    let ghost best = text::texts(out@);
    listing::normalize_string_list(&mut out);
    proof {
        let after = text::texts(out@);
        listing::lemma_cleaned_len(best, after);
        assert forall|i: int| 0 <= i < out@.len() implies from_source(chunks@, #[trigger] out@[i]@)
            && !concepts::is_generic(out@[i]@) by {
            let x = out@[i]@;
            assert(after[i] == x);
            assert(after.contains(x));
            let k = choose|k: int| 0 <= k < best.len() && text::trimmed(#[trigger] best[k]) == x;
            assert(best.contains(best[k]));
            lemma_scored_in_source(chunks@, want, best[k]);
            text::lemma_trimmed_both_occurs(best[k], CharClass::WhiteSpace);
            lemma_part_from_source(chunks@, best[k], x);
            lemma_scored_name(chunks@, want, best[k]);
        }
    }
    out
}

// ---------------------------------------------------------------------------------------------
// Question profiles

/// What a question asks for.
pub struct QuestionProfile {
    /// The terms of the question.
    pub terms: Vec<String>,
    /// Points of view that an answer should cover.
    pub aspects: Vec<String>,
    /// Concepts below the question's subject.
    pub lower_concepts: Vec<String>,
    pub is_broad: bool,
}

/// What a question asks for, as a mathematical value.
pub struct Profile {
    pub terms: Seq<Text>,
    pub aspects: Seq<Text>,
    pub lower: Seq<Text>,
    pub broad: bool,
}

impl View for QuestionProfile {
    type V = Profile;

    open spec fn view(&self) -> Profile {
        Profile {
            terms: text::texts(self.terms@),
            aspects: text::texts(self.aspects@),
            lower: text::texts(self.lower_concepts@),
            broad: self.is_broad,
        }
    }
}

/// What a question says by itself.
pub open spec fn plain_profile(question: Text) -> Profile {
    let terms = listing::listing(terms::terms_of(question));
    Profile {
        terms,
        aspects: Seq::empty(),
        lower: Seq::empty(),
        broad: is_broad(question, terms.len()),
    }
}

impl QuestionProfile {
    /// What a question says by itself.
    pub fn from_question(question: &str) -> (r: Self)
        ensures
            r@ == plain_profile(question@),
            listing::lists(r@.terms, terms::terms_of(question@)),
    {
        let terms = terms::extract_terms(question);
        let is_broad = is_broad_question(question, &terms);
        let none: Vec<String> = Vec::new();
        let nothing: Vec<String> = Vec::new();
        assert(text::texts(none@) =~= Seq::<Text>::empty());
        assert(text::texts(nothing@) =~= Seq::<Text>::empty());
        QuestionProfile { terms, aspects: none, lower_concepts: nothing, is_broad }
    }

    /// All that the search looks for.
    pub open spec fn wanted(self) -> Seq<Text> {
        text::texts(self.terms@) + text::texts(self.aspects@) + text::texts(self.lower_concepts@)
    }

    /// The terms, aspects and lower concepts as one cleaned list.
    pub fn search_terms(&self) -> (r: Vec<String>)
        ensures
            listing::lists(text::texts(r@), listing::clean_entries(self.wanted())),
            text::texts(r@) == listing::cleaned(self.wanted()),
    {
        let mut terms: Vec<String> = Vec::new();
        listing::push_all(&mut terms, &self.terms);
        listing::push_all(&mut terms, &self.aspects);
        listing::push_all(&mut terms, &self.lower_concepts);
        assert(text::texts(terms@) =~= self.wanted());
        listing::normalize_string_list(&mut terms);
        terms
    }
}

/// Adds the concepts of the source to what a question asks for. A question that is broad by itself
/// stays broad once concepts were found.
pub fn enrich_profile_with_source_concepts(
    profile: &mut QuestionProfile,
    chunks: &[ChunkRecord],
    question: &str,
)
    ensures
        final(profile).terms == old(profile).terms,
        final(profile).aspects == old(profile).aspects,
        text::texts(final(profile).lower_concepts@) == listing::cleaned(
            text::texts(old(profile).lower_concepts@) + source_concepts(
                chunks@,
                question@,
                text::texts(old(profile).terms@),
            ),
        ),
        final(profile).is_broad == (old(profile).is_broad || (final(profile).lower_concepts@.len()
            > 0 && is_broad(question@, old(profile).terms@.len()))),
        old(profile).lower_concepts@.len() == 0 ==> forall|i: int|
            0 <= i < final(profile).lower_concepts@.len() ==> from_source(
                chunks@,
                #[trigger] final(profile).lower_concepts@[i]@,
            ),
        forall|i: int|
            0 <= i < old(profile).lower_concepts@.len() && 2 <= text::trimmed(
                #[trigger] old(profile).lower_concepts@[i]@,
            ).len() <= 80 ==> text::texts(final(profile).lower_concepts@).contains(
                text::trimmed(old(profile).lower_concepts@[i]@),
            ),
{
    let concepts = source_derived_concepts(chunks, question, &profile.terms);
    let ghost given = text::texts(profile.lower_concepts@);
    let mut lower: Vec<String> = Vec::new();
    listing::push_all(&mut lower, &profile.lower_concepts);
    listing::push_all(&mut lower, &concepts);
    assert(text::texts(lower@) =~= given + text::texts(concepts@));
    let ghost sources = text::texts(lower@);
    listing::normalize_string_list(&mut lower);
    proof {
        let after = text::texts(lower@);
        assert forall|i: int| 0 <= i < given.len() && 2 <= text::trimmed(
            #[trigger] given[i],
        ).len() <= 80 implies after.contains(text::trimmed(given[i])) by {
            assert(sources[i] == given[i]);
            assert(listing::clean_entries(sources).contains(text::trimmed(given[i])));
        }
        assert forall|i: int| 0 <= i < old(profile).lower_concepts@.len() && 2 <= text::trimmed(
            #[trigger] old(profile).lower_concepts@[i]@,
        ).len() <= 80 implies after.contains(text::trimmed(old(profile).lower_concepts@[i]@)) by {
            assert(given[i] == old(profile).lower_concepts@[i]@);
        }
        if given.len() == 0 {
            assert forall|i: int| 0 <= i < lower@.len() implies from_source(
                chunks@,
                #[trigger] lower@[i]@,
            ) by {
                let x = lower@[i]@;
                assert(after[i] == x);
                assert(after.contains(x));
                let k = choose|k: int|
                    0 <= k < sources.len() && text::trimmed(#[trigger] sources[k]) == x;
                assert(sources[k] == concepts@[k]@);
                text::lemma_trimmed_both_occurs(sources[k], CharClass::WhiteSpace);
                lemma_part_from_source(chunks@, sources[k], x);
            }
        }
    }
    let found = lower.len() > 0;
    profile.lower_concepts = lower;
    if found && is_broad_question(question, &profile.terms) {
        profile.is_broad = true;
    }
}

// ---------------------------------------------------------------------------------------------
// Profiles from a reply

/// The most characters of a term and of an aspect that a reply gives.
pub const MAX_TERM_CHARS: usize = 40;

pub const MAX_ASPECT_CHARS: usize = 50;

/// What a text of a reply adds: its terms, and the text itself if it is of an acceptable length.
pub open spec fn reply_text(s: Text, max: nat) -> Seq<Text> {
    listing::listing(terms::terms_of(s)) + if 2 <= s.len() <= max {
        seq![s]
    } else {
        Seq::empty()
    }
}

/// What the texts of a reply add, in order.
pub open spec fn reply_texts(items: Seq<Json>, max: nat) -> Seq<Text>
    decreases items.len(),
{
    if items.len() == 0 {
        Seq::empty()
    } else {
        let before = reply_texts(items.drop_last(), max);
        match items.last().text() {
            Some(s) => before + reply_text(s, max),
            None => before,
        }
    }
}

/// Whether a reply says that the question is broad.
pub open spec fn says_broad(reply: Option<Json>) -> bool {
    match reply {
        Some(value) => match value.field("is_broad"@) {
            Some(flag) => flag.truth() == Some(true),
            None => false,
        },
        None => false,
    }
}

fn push_reply_texts(out: &mut Vec<String>, reply: &Option<Json>, key: &str, max: usize)
    ensures
        text::texts(final(out)@) == text::texts(old(out)@) + reply_texts(
            json::listed(*reply, key@),
            max as nat,
        ),
{
    let ghost before = text::texts(out@);
    assert(before + reply_texts(Seq::<Json>::empty(), max as nat) =~= before);
    if let Some(value) = reply {
        if let Some(list) = value.get(key) {
            if let Some(items) = list.as_array() {
                assert(items@.take(0) =~= Seq::<Json>::empty());
                for i in 0..items.len()
                    invariant
                        text::texts(out@) == before + reply_texts(items@.take(i as int), max as nat),
                {
                    let ghost now = text::texts(out@);
                    assert(items@.take(i + 1).drop_last() =~= items@.take(i as int));
                    if let Some(s) = items[i].as_str() {
                        let own = terms::extract_terms(s);
                        listing::push_all(out, &own);
                        let ghost with_terms = text::texts(out@);
                        let count = text::char_count(s);
                        if count >= 2 && count <= max {
                            out.push(text::copy_text(s));
                            assert(text::texts(out@) =~= with_terms + seq![s@]);
                        } else {
                            assert(text::texts(out@) =~= with_terms + Seq::<Text>::empty());
                        }
                        assert(text::texts(out@) =~= now + reply_text(s@, max as nat));
                    }
                    assert(text::texts(out@) =~= before + reply_texts(
                        items@.take(i + 1),
                        max as nat,
                    ));
                }
                assert(items@.take(items@.len() as int) =~= items@);
            }
        }
    }
}

/// What a question asks for, by its own terms and by what a reply adds to them.
pub open spec fn replied_profile(question: Text, reply: Option<Json>) -> Profile {
    let own = listing::listing(terms::terms_of(question));
    Profile {
        terms: listing::cleaned(
            own + reply_texts(json::listed(reply, "terms"@), MAX_TERM_CHARS as nat),
        ),
        aspects: listing::cleaned(
            reply_texts(json::listed(reply, "aspects"@), MAX_ASPECT_CHARS as nat),
        ),
        lower: Seq::empty(),
        broad: is_broad(question, own.len()) || says_broad(reply),
    }
}

/// What a question asks for, by its own terms and by what a reply adds to them.
pub fn profile_from_json(question: &str, reply: &Option<Json>) -> (r: QuestionProfile)
    ensures
        r@ == replied_profile(question@, *reply),
{
    let mut terms = terms::extract_terms(question);
    let mut is_broad = is_broad_question(question, &terms);
    push_reply_texts(&mut terms, reply, "terms", MAX_TERM_CHARS);
    let mut aspects: Vec<String> = Vec::new();
    assert(text::texts(aspects@) =~= Seq::<Text>::empty());
    push_reply_texts(&mut aspects, reply, "aspects", MAX_ASPECT_CHARS);
    assert(text::texts(aspects@) =~= reply_texts(
        json::listed(*reply, "aspects"@),
        MAX_ASPECT_CHARS as nat,
    ));
    if let Some(value) = reply {
        if let Some(flag) = value.get("is_broad") {
            if let Some(b) = flag.as_bool() {
                is_broad = is_broad || b;
            }
        }
    }
    listing::normalize_string_list(&mut terms);
    listing::normalize_string_list(&mut aspects);
    let none: Vec<String> = Vec::new();
    assert(text::texts(none@) =~= Seq::<Text>::empty());
    QuestionProfile { terms, aspects, lower_concepts: none, is_broad }
}

/// What a question asks for, by its own terms and by the reply to the question for its profile. Where
/// that request failed, the question speaks for itself.
pub fn build_question_profile(question: &str, reply: &Result<String, String>) -> (r: QuestionProfile)
    ensures
        r@ == match *reply {
            Ok(content) => replied_profile(question@, json::parsed_json(content@)),
            Err(_) => plain_profile(question@),
        },
{
    match reply {
        Ok(content) => {
            let value = json::parse_json(content.as_str());
            profile_from_json(question, &value)
        },
        Err(_) => QuestionProfile::from_question(question),
    }
}

// ---------------------------------------------------------------------------------------------
// Laws

/// A question is broad where it holds one of the words that ask for everything, or where it is short:
/// at most twelve characters and eight terms. No other question is.
pub proof fn law_broad_questions(question: Text, term_count: nat)
    ensures
        is_broad(question, term_count) <==> (text::trimmed(question).len() <= 12 && term_count <= 8)
            || text::occurs_in("どうなっていますか"@, text::trimmed(question)) || text::occurs_in(
            "どうなってますか"@,
            text::trimmed(question),
        ) || text::occurs_in("全体"@, text::trimmed(question)) || text::occurs_in(
            "一覧"@,
            text::trimmed(question),
        ) || text::occurs_in("まとめ"@, text::trimmed(question)) || text::occurs_in(
            "網羅"@,
            text::trimmed(question),
        ) || text::occurs_in("すべて"@, text::trimmed(question)) || text::occurs_in(
            "全部"@,
            text::trimmed(question),
        ) || text::occurs_in("全て"@, text::trimmed(question)) || text::occurs_in(
            "教えて"@,
            text::trimmed(question),
        ) || text::occurs_in("について"@, text::trimmed(question)),
{
    let q = text::trimmed(question);
    let all = broad_markers();
    assert(all[0] == "どうなっていますか"@ && all[1] == "どうなってますか"@ && all[2] == "全体"@ && all[3]
        == "一覧"@ && all[4] == "まとめ"@ && all[5] == "網羅"@ && all[6] == "すべて"@ && all[7] == "全部"@
        && all[8] == "全て"@ && all[9] == "教えて"@ && all[10] == "について"@);
}

/// A concept matches a question where one of the question's terms of two characters or more stands in
/// the concept, or the concept in the term.
pub proof fn law_matching_concepts(concept: Text, terms: Seq<Text>, t: Text)
    requires
        terms.contains(t),
        t.len() >= 2,
        text::occurs_in(t, concept) || text::occurs_in(concept, t),
    ensures
        matches_terms(concept, terms),
        !matches_terms(concept, Seq::empty()),
{
    let i = choose|i: int| 0 <= i < terms.len() && terms[i] == t;
    assert(terms[i].len() >= 2);
}

/// How a chunk supports a concept. A heading gives four points and a mention three, up to eight
/// mentions. A match with the question gives thirty-two points to either, a heading that is mentioned
/// in the text two, and a mention that stands in the heading eight.
pub proof fn law_chunk_scores(chunk: ChunkRecord, wanted: Seq<Text>, x: Text)
    ensures
        ({
            let count = concepts::concept_count(chunk.content@, x);
            let matched: nat = if matches_terms(x, wanted) {
                32
            } else {
                0
            };
            let by_heading: nat = if concepts::heading_concepts(chunk.heading_path@).contains(x) {
                4 + matched + (if text::occurs_in(x, chunk.content@) {
                    2nat
                } else {
                    0
                })
            } else {
                0
            };
            let by_mentions: nat = if count > 0 {
                3 * (if count < 8 {
                    count
                } else {
                    8
                }) + matched + (if !text::is_blank(x) && text::occurs_in(x, chunk.heading_path@) {
                    8nat
                } else {
                    0
                })
            } else {
                0
            };
            chunk_score(chunk, wanted, x) == if concepts::is_generic(x) {
                0
            } else {
                by_heading + by_mentions
            }
        }),
{
}

/// Every chunk adds its own support, and the order of the chunks does not matter.
pub proof fn law_scores_add_up(a: Seq<ChunkRecord>, b: Seq<ChunkRecord>, wanted: Seq<Text>, x: Text)
    ensures
        source_score(a + b, wanted, x) == source_score(a, wanted, x) + source_score(b, wanted, x),
        source_score(a + b, wanted, x) == source_score(b + a, wanted, x),
{
    lemma_scores_add(a, b, wanted, x);
    lemma_scores_add(b, a, wanted, x);
}

proof fn lemma_scores_add(a: Seq<ChunkRecord>, b: Seq<ChunkRecord>, wanted: Seq<Text>, x: Text)
    ensures
        source_score(a + b, wanted, x) == source_score(a, wanted, x) + source_score(b, wanted, x),
    decreases b.len(),
{
    if b.len() == 0 {
        assert(a + b =~= a);
    } else {
        assert((a + b).drop_last() =~= a + b.drop_last());
        assert((a + b).last() == b.last());
        lemma_scores_add(a, b.drop_last(), wanted, x);
    }
}

/// A narrow question admits the concepts that match it or have thirty-two points; a broad one admits
/// every concept of the source.
pub proof fn law_admitted_concepts(chunks: Seq<ChunkRecord>, wanted: Seq<Text>, x: Text)
    ensures
        admitted_scores(chunks, wanted, true)(x) > 0 <==> source_score(chunks, wanted, x) > 0,
        admitted_scores(chunks, wanted, false)(x) > 0 <==> source_score(chunks, wanted, x) >= 32 || (
        source_score(chunks, wanted, x) > 0 && matches_terms(x, wanted)),
{
}

proof fn lemma_term_kept(items: Seq<Text>, s: Text, x: Text)
    requires
        terms::terms_of(s).contains(x),
        items.contains(x),
    ensures
        listing::cleaned(items).contains(x),
{
    terms::law_terms_stand_in_text(s, x);
    text::lemma_trimmed_by_ends(x);
    listing::law_cleaned_entries(items, x);
    let i = choose|i: int| 0 <= i < items.len() && items[i] == x;
    assert(text::trimmed(items[i]) == x);
}

proof fn lemma_listed_terms(s: Text, x: Text)
    requires
        terms::terms_of(s).contains(x),
    ensures
        listing::listing(terms::terms_of(s)).contains(x),
{
    terms::lemma_terms_listed(s);
}

/// Whatever is replied, a question keeps all its own terms.
pub proof fn law_own_terms_are_kept(question: Text, reply: Option<Json>, x: Text)
    requires
        terms::terms_of(question).contains(x),
    ensures
        replied_profile(question, reply).terms.contains(x),
        plain_profile(question).terms.contains(x),
{
    lemma_listed_terms(question, x);
    let own = listing::listing(terms::terms_of(question));
    let more = reply_texts(json::listed(reply, "terms"@), MAX_TERM_CHARS as nat);
    let i = choose|i: int| 0 <= i < own.len() && own[i] == x;
    assert((own + more)[i] == x);
    lemma_term_kept(own + more, question, x);
}

proof fn lemma_replied(items: Seq<Json>, max: nat, i: int, x: Text)
    requires
        0 <= i < items.len(),
        match items[i].text() {
            Some(s) => reply_text(s, max).contains(x),
            None => false,
        },
    ensures
        reply_texts(items, max).contains(x),
    decreases items.len(),
{
    let front = items.drop_last();
    let before = reply_texts(front, max);
    let all = reply_texts(items, max);
    if i < items.len() - 1 {
        lemma_replied(front, max, i, x);
        let k = choose|k: int| 0 <= k < before.len() && before[k] == x;
        assert(all[k] == x);
    } else {
        let here = reply_text(items[i].text().unwrap(), max);
        let k = choose|k: int| 0 <= k < here.len() && here[k] == x;
        assert(all[before.len() + k] == x);
    }
}

/// A term of up to forty characters and an aspect of up to fifty that a reply gives join the profile,
/// each under its own heading.
pub proof fn law_replied_texts_join(question: Text, reply: Json, key: Text, i: int, s: Text)
    requires
        key == "terms"@ || key == "aspects"@,
        0 <= i < json::listed(Some(reply), key).len(),
        json::listed(Some(reply), key)[i].text() == Some(s),
        2 <= s.len(),
        s.len() <= if key == "terms"@ {
            40nat
        } else {
            50
        },
        text::trimmed(s) == s,
    ensures
        key == "terms"@ ==> replied_profile(question, Some(reply)).terms.contains(s),
        key == "aspects"@ ==> replied_profile(question, Some(reply)).aspects.contains(s),
{
    reveal_strlit("terms");
    reveal_strlit("aspects");
    assert("terms"@.len() != "aspects"@.len());
    let max: nat = if key == "terms"@ {
        40
    } else {
        50
    };
    let items = json::listed(Some(reply), key);
    let here = reply_text(s, max);
    assert(here.last() == s);
    lemma_replied(items, max, i, s);
    let more = reply_texts(items, max);
    let own = listing::listing(terms::terms_of(question));
    let k = choose|k: int| 0 <= k < more.len() && more[k] == s;
    if key == "terms"@ {
        assert((own + more)[own.len() + k] == s);
        listing::law_cleaned_entries(own + more, s);
    } else {
        assert(text::trimmed(more[k]) == s);
        listing::law_cleaned_entries(more, s);
    }
}

/// A question is taken as broad where it is broad itself or where the reply says so.
pub proof fn law_replied_breadth(question: Text, reply: Option<Json>)
    ensures
        replied_profile(question, reply).broad <==> plain_profile(question).broad || match reply {
            Some(value) => value.field("is_broad"@) == Some(Json::Bool(true)),
            None => false,
        },
        replied_profile(question, reply).lower.len() == 0,
{
}

/// The terms of a question that a source is searched for are its own terms and those that are given,
/// without the words that say nothing of its subject.
pub proof fn law_question_terms(question: Text, given: Seq<Text>, x: Text)
    ensures
        terms::terms_of(question).contains(x) && !concepts::is_stop_word(x) ==> question_terms(
            question,
            given,
        ).contains(x),
        given.contains(x) && 2 <= x.len() <= 80 && text::trimmed(x) == x && !concepts::is_stop_word(x)
            ==> question_terms(question, given).contains(x),
        question_terms(question, given).contains(x) ==> 2 <= x.len() <= 80 && exists|t: Text|
            #[trigger] text::trimmed(t) == x && (given.contains(t) || terms::terms_of(
                question,
            ).contains(t)),
        seq![
            "どう"@,
            "なっ"@,
            "なって"@,
            "います"@,
            "ます"@,
            "です"@,
            "ください"@,
            "教えて"@,
            "について"@,
            "もの"@,
            "こと"@,
            "場合"@,
            "情報"@,
            "質問"@,
            "回答"@,
            "一覧"@,
            "まとめ"@,
            "全体"@,
            "全部"@,
            "全て"@,
            "すべて"@,
        ].contains(x) ==> concepts::is_stop_word(x),
{
    if terms::terms_of(question).contains(x) && !concepts::is_stop_word(x) {
        terms::law_terms_stand_in_text(question, x);
        text::lemma_trimmed_by_ends(x);
        assert(is_question_term(question, given, x));
    }
    if given.contains(x) && 2 <= x.len() && !concepts::is_stop_word(x) {
        assert(is_question_term(question, given, x));
    }
    if question_terms(question, given).contains(x) {
        let t = choose|t: Text|
            #[trigger] is_question_term(question, given, t) && text::trimmed(t) == x;
        assert(given.contains(t) || terms::terms_of(question).contains(t));
    }
}

/// A search looks for every term, every aspect and every lower concept of a profile that has between
/// two and eighty characters.
pub proof fn law_search_terms(profile: QuestionProfile, x: Text)
    requires
        text::texts(profile.terms@).contains(x) || text::texts(profile.aspects@).contains(x)
            || text::texts(profile.lower_concepts@).contains(x),
        2 <= text::trimmed(x).len() <= 80,
    ensures
        listing::cleaned(profile.wanted()).contains(text::trimmed(x)),
{
    let a = text::texts(profile.terms@);
    let b = text::texts(profile.aspects@);
    let c = text::texts(profile.lower_concepts@);
    let all = profile.wanted();
    if a.contains(x) {
        let k = choose|k: int| 0 <= k < a.len() && a[k] == x;
        assert(all[k] == x);
    } else if b.contains(x) {
        let k = choose|k: int| 0 <= k < b.len() && b[k] == x;
        assert(all[a.len() + k] == x);
    } else {
        let k = choose|k: int| 0 <= k < c.len() && c[k] == x;
        assert(all[a.len() + b.len() + k] == x);
    }
    listing::law_cleaned_entries(all, text::trimmed(x));
}

/// The terms of what a reply gives join the profile too.
pub proof fn law_replied_words_join(question: Text, reply: Json, i: int, s: Text, x: Text)
    requires
        0 <= i < json::listed(Some(reply), "terms"@).len(),
        json::listed(Some(reply), "terms"@)[i].text() == Some(s),
        terms::terms_of(s).contains(x),
    ensures
        replied_profile(question, Some(reply)).terms.contains(x),
{
    let items = json::listed(Some(reply), "terms"@);
    lemma_listed_terms(s, x);
    let words = listing::listing(terms::terms_of(s));
    let here = reply_text(s, 40);
    let p = choose|p: int| 0 <= p < words.len() && words[p] == x;
    assert(here[p] == x);
    lemma_replied(items, 40, i, x);
    let more = reply_texts(items, 40);
    let own = listing::listing(terms::terms_of(question));
    let k = choose|k: int| 0 <= k < more.len() && more[k] == x;
    assert((own + more)[own.len() + k] == x);
    lemma_term_kept(own + more, s, x);
}

/// At most eighty concepts lead for a broad question and thirty for a narrow one; and where no more are
/// admitted, all of them lead.
pub proof fn law_leading_concepts(chunks: Seq<ChunkRecord>, question: Text, given: Seq<Text>, x: Text)
    requires
        ({
            let wanted = listing::listing(question_terms(question, given));
            let score = admitted_scores(chunks, wanted, is_broad(question, given.len()));
            Set::new(|z: Text| score(z) > 0).finite()
        }),
    ensures
        ({
            let wanted = listing::listing(question_terms(question, given));
            let broad = is_broad(question, given.len());
            let score = admitted_scores(chunks, wanted, broad);
            let limit: nat = if broad {
                80
            } else {
                30
            };
            &&& leading_concepts(chunks, question, given).len() <= limit
            &&& Set::new(|z: Text| score(z) > 0).len() <= limit && score(x) > 0 ==> leading_concepts(
                chunks,
                question,
                given,
            ).contains(x)
        }),
{
    let wanted = listing::listing(question_terms(question, given));
    let broad = is_broad(question, given.len());
    let score = admitted_scores(chunks, wanted, broad);
    let limit: nat = if broad {
        80
    } else {
        30
    };
    tally::law_leaders_are_few(score, limit);
    if score(x) > 0 {
        tally::law_leaders(score, limit, x, x);
    }
}

/// A question by itself is as broad as its own terms make it, and has no aspects and no lower concepts.
pub proof fn law_plain_profile(question: Text)
    ensures
        plain_profile(question).broad == is_broad(question, plain_profile(question).terms.len()),
        plain_profile(question).aspects.len() == 0,
        plain_profile(question).lower.len() == 0,
        listing::lists(plain_profile(question).terms, terms::terms_of(question)),
{
    terms::lemma_terms_listed(question);
}

} // verus!
