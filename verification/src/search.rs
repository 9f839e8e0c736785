//! The search: what it looks for, what literal matches score, and what is shown of a hit.

use vstd::prelude::*;
use vstd::string::*;

use crate::listing;
use crate::text;
use crate::text::Text;

verus! {

// ---------------------------------------------------------------------------------------------
// Queries

/// How many terms of a question a full-text query takes in, and how many it asks for.
pub const FTS_TERMS: usize = 12;

pub const FTS_ALTERNATIVES: usize = 10;

/// How many terms of a question the search for terms asks for.
pub const NGRAM_TERMS: usize = 60;

/// The expressions that a full-text query can ask for: the question itself and its first terms, as
/// far as they have two characters.
pub open spec fn fts_expressions(query: Text, terms: Seq<Text>) -> Set<Text> {
    Set::new(
        |x: Text|
            x.len() >= 2 && (x == text::trimmed(query) || text::first_items(
                terms,
                FTS_TERMS as nat,
            ).contains(x)),
    )
}

/// A text with every quotation mark doubled.
pub open spec fn doubled_quotes(s: Text) -> Text
    decreases s.len(),
{
    if s.len() == 0 {
        Seq::empty()
    } else if s.last() == '"' {
        doubled_quotes(s.drop_last()).push('"').push('"')
    } else {
        doubled_quotes(s.drop_last()).push(s.last())
    }
}

/// An expression of a full-text query.
pub open spec fn fts_phrase(s: Text) -> Text {
    seq!['"'] + doubled_quotes(s) + seq!['"']
}

/// The full-text query for some expressions: the first of them, in order, as alternatives.
pub open spec fn fts_text(expressions: Seq<Text>) -> Text {
    let asked = text::first_items(expressions, FTS_ALTERNATIVES as nat);
    text::joined(Seq::new(asked.len(), |i: int| fts_phrase(asked[i])), " OR "@)
}

/// The expressions of a full-text query can be listed.
proof fn lemma_expressions_listed(query: Text, terms: Seq<Text>)
    ensures
        listing::lists(
            listing::listing(fts_expressions(query, terms)),
            fts_expressions(query, terms),
        ),
{
    let all = seq![text::trimmed(query)] + text::first_items(terms, FTS_TERMS as nat);
    assert(fts_expressions(query, terms).subset_of(all.to_set())) by {
        assert forall|x: Text| #[trigger] fts_expressions(query, terms).contains(x) implies all.to_set().contains(
            x,
        ) by {
            let first = text::first_items(terms, FTS_TERMS as nat);
            if first.contains(x) {
                let k = choose|k: int| 0 <= k < first.len() && first[k] == x;
                assert(all[k + 1] == x);
            } else {
                assert(all[0] == x);
            }
        }
    }
    vstd::set_lib::lemma_len_subset(fts_expressions(query, terms), all.to_set());
    listing::lemma_listing_lists(fts_expressions(query, terms));
}

fn write_phrase(s: &str) -> (r: String)
    ensures
        r@ == fts_phrase(s@),
{
    let mut out = String::new();
    out.push('"');
    assert(out@ =~= seq!['"'] + doubled_quotes(s@.take(0)));
    for c in it: s.chars()
        invariant
            it.seq() == s@,
            out@ == seq!['"'] + doubled_quotes(s@.take(it.index() as int)),
    {
        let ghost i = it.index() as int;
        let ghost before = out@;
        if c == '"' {
            out.push('"');
        }
        out.push(c);
        proof {
            assert(s@.take(i + 1).drop_last() =~= s@.take(i));
            assert(s@.take(i + 1).last() == c);
            assert(out@ =~= seq!['"'] + doubled_quotes(s@.take(i + 1)));
        }
    }
    assert(s@.take(s@.len() as int) =~= s@);
    out.push('"');
    assert(out@ =~= fts_phrase(s@));
    out
}

/// The full-text query for a question; none where it has no expression to ask for.
pub fn fts_query(query: &str, terms: &Vec<String>) -> (r: Option<String>)
    ensures
        ({
            let expressions = listing::listing(fts_expressions(query@, text::texts(terms@)));
            &&& listing::lists(expressions, fts_expressions(query@, text::texts(terms@)))
            &&& match r {
                Some(s) => expressions.len() > 0 && s@ == fts_text(expressions),
                None => expressions.len() == 0,
            }
        }),
{
    proof {
        lemma_expressions_listed(query@, text::texts(terms@));
    }
    let ghost all = text::texts(terms@);
    let ghost first = text::first_items(all, FTS_TERMS as nat);
    let mut found: Vec<String> = Vec::new();
    let whole = text::trim(query);
    if text::char_count(whole) >= 2 {
        found.push(text::copy_text(whole));
    }
    let count = if terms.len() < FTS_TERMS {
        terms.len()
    } else {
        FTS_TERMS
    };
    assert(forall|x: Text| #[trigger]
        text::texts(found@).contains(x) <==> x.len() >= 2 && x == whole@) by {
        if whole@.len() >= 2 {
            assert(text::texts(found@) =~= seq![whole@]);
            assert(seq![whole@][0] == whole@);
        } else {
            assert(text::texts(found@) =~= Seq::<Text>::empty());
        }
    }
    for i in 0..count
        invariant
            count <= terms@.len(),
            count == first.len(),
            all == text::texts(terms@),
            first == text::first_items(all, FTS_TERMS as nat),
            forall|x: Text| #[trigger]
                text::texts(found@).contains(x) <==> x.len() >= 2 && (x == whole@ || first.take(
                    i as int,
                ).contains(x)),
    {
        let ghost before = text::texts(found@);
        let term = &terms[i];
        if text::char_count(term.as_str()) >= 2 {
            found.push(term.clone());
            assert(text::texts(found@) =~= before.push(term@));
        }
        proof {
            assert(first.take(i + 1) =~= first.take(i as int).push(term@));
            assert forall|x: Text| #[trigger] text::texts(found@).contains(x) <==> x.len() >= 2 && (x
                == whole@ || first.take(i + 1).contains(x)) by {
                listing::lemma_push_members(first.take(i as int), term@, x);
                listing::lemma_push_members(before, term@, x);
                assert(before.contains(x) <==> x.len() >= 2 && (x == whole@ || first.take(
                    i as int,
                ).contains(x)));
            }
        }
    }
    assert(first.take(first.len() as int) =~= first);
    proof {
        let wanted = fts_expressions(query@, all);
        assert forall|x: Text| text::texts(found@).to_set().contains(x) <==> wanted.contains(x) by {
            assert(text::texts(found@).to_set().contains(x) <==> text::texts(found@).contains(x));
        }
        assert(text::texts(found@).to_set() =~= wanted);
    }
    let sorted = listing::sort_distinct(found);
    if sorted.len() == 0 {
        assert(text::texts(sorted@).len() == 0);
        return None;
    }
    let ghost expressions = text::texts(sorted@);
    let ghost asked = text::first_items(expressions, FTS_ALTERNATIVES as nat);
    let ghost wanted = Seq::new(asked.len(), |i: int| fts_phrase(asked[i]));
    let count = if sorted.len() < FTS_ALTERNATIVES {
        sorted.len()
    } else {
        FTS_ALTERNATIVES
    };
    let mut phrases: Vec<String> = Vec::new();
    for i in 0..count
        invariant
            count <= sorted@.len(),
            count == asked.len(),
            expressions == text::texts(sorted@),
            asked == text::first_items(expressions, FTS_ALTERNATIVES as nat),
            phrases@.len() == i,
            forall|k: int| 0 <= k < i ==> (#[trigger] phrases@[k])@ == fts_phrase(asked[k]),
    {
        let phrase = write_phrase(sorted[i].as_str());
        assert(asked[i as int] == sorted@[i as int]@);
        phrases.push(phrase);
    }
    assert(text::texts(phrases@) =~= wanted);
    assert(text::texts(sorted@).len() > 0);
    Some(text::join(&phrases, " OR "))
}

/// The terms of a question that the search for terms asks for, distinct and in ascending order.
pub fn ngram_terms(terms: &Vec<String>) -> (r: Vec<String>)
    ensures
        listing::lists(
            text::texts(r@),
            text::first_items(text::texts(terms@), NGRAM_TERMS as nat).to_set(),
        ),
        forall|i: int|
            0 <= i < terms@.len() && i < 60 ==> text::texts(r@).contains(#[trigger] terms@[i]@),
{
    let ghost all = text::texts(terms@);
    let count = if terms.len() < NGRAM_TERMS {
        terms.len()
    } else {
        NGRAM_TERMS
    };
    let mut first: Vec<String> = Vec::new();
    for i in 0..count
        invariant
            count <= terms@.len(),
            all == text::texts(terms@),
            text::texts(first@) == all.take(i as int),
    {
        let ghost before = text::texts(first@);
        first.push(terms[i].clone());
        assert(text::texts(first@) =~= before.push(terms@[i as int]@));
        assert(all.take(i + 1) =~= all.take(i as int).push(terms@[i as int]@));
    }
    let ghost kept = text::first_items(all, NGRAM_TERMS as nat);
    assert(text::texts(first@) =~= kept);
    let sorted = listing::sort_distinct(first);
    assert forall|i: int| 0 <= i < terms@.len() && i < 60 implies text::texts(sorted@).contains(
        #[trigger] terms@[i]@,
    ) by {
        assert(kept[i] == terms@[i]@);
        assert(kept.contains(terms@[i]@));
        assert(kept.to_set().contains(terms@[i]@));
    }
    sorted
}

/// The documents to search: those that are asked for or, if none are, those that are selected.
pub fn selected_document_ids(requested: &Vec<i64>, selected: &Vec<i64>) -> (r: Vec<i64>)
    ensures
        r@ == if requested@.len() > 0 {
            requested@
        } else {
            selected@
        },
{
    if requested.len() > 0 {
        requested.clone()
    } else {
        selected.clone()
    }
}

// ---------------------------------------------------------------------------------------------
// Literal matches

/// Scores of literal matches are counted in thousandths of a point.
pub const QUERY_MATCH: u64 = 180;

pub const LONG_MATCH: u64 = 45;

pub const SHORT_MATCH: u64 = 20;

pub const MAX_MATCH: u64 = 450;

/// The characters of a long term.
pub const LONG_MATCH_CHARS: usize = 4;

/// How many terms are looked for literally.
pub const MATCHED_TERMS: usize = 30;

/// What a term scores in a text.
pub open spec fn term_match(term: Text, s: Text) -> nat {
    if term.len() >= 2 && text::occurs_in(term, s) {
        if term.len() >= LONG_MATCH_CHARS {
            LONG_MATCH as nat
        } else {
            SHORT_MATCH as nat
        }
    } else {
        0
    }
}

/// What some terms score in a text.
pub open spec fn terms_match(terms: Seq<Text>, s: Text) -> nat
    decreases terms.len(),
{
    if terms.len() == 0 {
        0
    } else {
        terms_match(terms.drop_last(), s) + term_match(terms.last(), s)
    }
}

/// What a question and its first terms score in a text by standing in it word for word, up to a
/// limit.
pub open spec fn match_bonus(query: Text, terms: Seq<Text>, s: Text) -> nat {
    let q = text::trimmed(query);
    let total = (if q.len() > 0 && text::occurs_in(q, s) {
        QUERY_MATCH as nat
    } else {
        0
    }) + terms_match(text::first_items(terms, MATCHED_TERMS as nat), s);
    if total < MAX_MATCH {
        total
    } else {
        MAX_MATCH as nat
    }
}

/// What a question and its first terms score in a text, in thousandths of a point.
pub fn exact_bonus(query: &str, terms: &Vec<String>, s: &str) -> (r: u64)
    ensures
        r == match_bonus(query@, text::texts(terms@), s@),
        r <= MAX_MATCH,
{
    let ghost all = text::texts(terms@);
    let ghost first = text::first_items(all, MATCHED_TERMS as nat);
    let q = text::trim(query);
    let mut bonus: u64 = 0;
    if text::char_count(q) > 0 && text::contains(s, q) {
        bonus = QUERY_MATCH;
    }
    let ghost base = bonus as nat;
    let count = if terms.len() < MATCHED_TERMS {
        terms.len()
    } else {
        MATCHED_TERMS
    };
    for i in 0..count
        invariant
            count <= terms@.len(),
            count <= MATCHED_TERMS,
            count == first.len(),
            all == text::texts(terms@),
            first == text::first_items(all, MATCHED_TERMS as nat),
            base <= QUERY_MATCH,
            bonus == base + terms_match(first.take(i as int), s@),
            bonus <= QUERY_MATCH + LONG_MATCH * i,
    {
        let term = terms[i].as_str();
        let len = text::char_count(term);
        proof {
            assert(first.take(i + 1).drop_last() =~= first.take(i as int));
            assert(first.take(i + 1).last() == term@);
        }
        if len >= 2 && text::contains(s, term) {
            bonus += if len >= LONG_MATCH_CHARS {
                LONG_MATCH
            } else {
                SHORT_MATCH
            };
        }
    }
    assert(first.take(first.len() as int) =~= first);
    if bonus < MAX_MATCH {
        bonus
    } else {
        MAX_MATCH
    }
}

// ---------------------------------------------------------------------------------------------
// Snippets

/// Where the first of the terms stands that has two characters and stands in the text at all; at the
/// start if there is none.
pub open spec fn hit_position(content: Text, terms: Seq<Text>) -> nat
    decreases terms.len(),
{
    if terms.len() == 0 {
        0
    } else if terms[0].len() >= 2 && text::first_from(terms[0], content, 0) is Some {
        text::first_from(terms[0], content, 0).unwrap()
    } else {
        hit_position(content, terms.skip(1))
    }
}

/// Where a snippet of at most `max` characters starts.
pub open spec fn snippet_start(content: Text, terms: Seq<Text>, max: nat) -> nat {
    let hit = hit_position(content, terms);
    if hit > max / 3 {
        (hit - max / 3) as nat
    } else {
        0
    }
}

/// Where a snippet of at most `max` characters ends.
pub open spec fn snippet_end(content: Text, terms: Seq<Text>, max: nat) -> nat {
    let start = snippet_start(content, terms, max);
    if start + max < content.len() {
        start + max
    } else {
        content.len()
    }
}

/// What of a text is shown around the first term that it has, with an ellipsis where something is
/// left out.
pub open spec fn snippet(content: Text, terms: Seq<Text>, max: nat) -> Text {
    if content.len() <= max {
        content
    } else {
        let start = snippet_start(content, terms, max);
        let end = snippet_end(content, terms, max);
        (if start > 0 {
            "..."@
        } else {
            Seq::empty()
        }) + content.subrange(start as int, end as int) + (if end < content.len() {
            "..."@
        } else {
            Seq::empty()
        })
    }
}

proof fn lemma_hit_position(content: Text, terms: Seq<Text>)
    ensures
        hit_position(content, terms) <= content.len(),
    decreases terms.len(),
{
    if terms.len() > 0 {
        text::lemma_first_from(terms[0], content, 0);
        lemma_hit_position(content, terms.skip(1));
    }
}

fn find_hit(content: &str, terms: &Vec<String>) -> (r: usize)
    ensures
        r == hit_position(content@, text::texts(terms@)),
{
    let ghost all = text::texts(terms@);
    assert(all.skip(0) =~= all);
    for i in 0..terms.len()
        invariant
            all == text::texts(terms@),
            hit_position(content@, all) == hit_position(content@, all.skip(i as int)),
    {
        let term = terms[i].as_str();
        proof {
            assert(all.skip(i as int)[0] == term@);
            assert(all.skip(i as int).skip(1) =~= all.skip(i + 1));
        }
        if text::char_count(term) >= 2 {
            if let Some(p) = text::find(content, term) {
                return p;
            }
        }
    }
    0
}

/// What of a text is shown around the first term that it has.
pub fn make_snippet(content: &str, terms: &Vec<String>, max_chars: usize) -> (r: String)
    ensures
        r@ == snippet(content@, text::texts(terms@), max_chars as nat),
{
    let chars = text::chars_of(content);
    let total = chars.len();
    if total <= max_chars {
        return text::copy_text(content);
    }
    let hit = find_hit(content, terms);
    proof {
        lemma_hit_position(content@, text::texts(terms@));
    }
    let third = max_chars / 3;
    let start = if hit > third {
        hit - third
    } else {
        0
    };
    let end = if max_chars < total - start {
        start + max_chars
    } else {
        total
    };
    let mut out = String::new();
    if start > 0 {
        out.append("...");
    }
    let ghost head = out@;
    let middle = text::text_between(&chars, start, end);
    out.append(middle.as_str());
    if end < total {
        out.append("...");
    }
    proof {
        let wanted = snippet(content@, text::texts(terms@), max_chars as nat);
        assert(out@ =~= wanted);
    }
    out
}

/// A snippet is no longer than asked for, but for its ellipses.
pub proof fn law_snippet_length(content: Text, terms: Seq<Text>, max: nat)
    ensures
        snippet(content, terms, max).len() <= max + 6,
{
    reveal_strlit("...");
    lemma_hit_position(content, terms);
}

/// A snippet shows the first search term that stands in the text, wherever that is, if the term is no
/// longer than two thirds of the snippet.
pub proof fn law_snippet_shows_term(content: Text, terms: Seq<Text>, max: nat, k: int)
    requires
        0 <= k < terms.len(),
        2 <= terms[k].len() <= max - max / 3,
        text::occurs_in(terms[k], content),
        forall|j: int|
            0 <= j < k ==> (#[trigger] terms[j]).len() < 2 || !text::occurs_in(terms[j], content),
    ensures
        text::occurs_in(terms[k], snippet(content, terms, max)),
{
    let term = terms[k];
    lemma_hit_position(content, terms);
    lemma_first_hit(content, terms, k);
    let hit = hit_position(content, terms) as int;
    text::lemma_first_from(term, content, 0);
    if content.len() > max {
        let start = snippet_start(content, terms, max) as int;
        let end = snippet_end(content, terms, max) as int;
        let shown = snippet(content, terms, max);
        let middle = content.subrange(start, end);
        let before = if start > 0 {
            "..."@
        } else {
            Seq::<char>::empty()
        };
        assert(middle.subrange(hit - start, hit - start + term.len()) =~= content.subrange(
            hit,
            hit + term.len(),
        ));
        let at = before.len() + hit - start;
        assert(shown.subrange(at, at + term.len()) =~= middle.subrange(
            hit - start,
            hit - start + term.len(),
        ));
        assert(text::occurs_at(term, shown, at));
    }
}

proof fn lemma_first_hit(content: Text, terms: Seq<Text>, k: int)
    requires
        0 <= k < terms.len(),
        terms[k].len() >= 2,
        text::occurs_in(terms[k], content),
        forall|j: int|
            0 <= j < k ==> (#[trigger] terms[j]).len() < 2 || !text::occurs_in(terms[j], content),
    ensures
        text::first_from(terms[k], content, 0) == Some(hit_position(content, terms)),
    decreases terms.len(),
{
    text::lemma_first_from(terms[0], content, 0);
    if k == 0 {
        let i = choose|i: int| text::occurs_at(terms[0], content, i);
        assert(text::occurs_at(terms[0], content, i));
    } else {
        let rest = terms.skip(1);
        assert forall|j: int| 0 <= j < k - 1 implies (#[trigger] rest[j]).len() < 2
            || !text::occurs_in(rest[j], content) by {
            assert(terms[j + 1].len() < 2 || !text::occurs_in(terms[j + 1], content));
        }
        match text::first_from(terms[0], content, 0) {
            Some(p) => {
                assert(text::occurs_at(terms[0], content, p as int));
                assert(terms[0].len() < 2);
            },
            None => {},
        }
        lemma_first_hit(content, rest, k - 1);
    }
}

// ---------------------------------------------------------------------------------------------
// Laws

/// A phrase of the full-text search is quoted character by character; only quotation marks are
/// doubled.
pub proof fn law_phrases(a: Text, b: Text, c: char)
    ensures
        doubled_quotes(a + b) == doubled_quotes(a) + doubled_quotes(b),
        c != '"' ==> doubled_quotes(seq![c]) == seq![c],
        doubled_quotes(seq!['"']) == seq!['"', '"'],
        fts_phrase(a)[0] == '"',
        fts_phrase(a).last() == '"',
        fts_phrase(a).len() == doubled_quotes(a).len() + 2,
{
    lemma_doubled(a, b);
    reveal_with_fuel(doubled_quotes, 2);
    assert(seq![c].drop_last() =~= Seq::<char>::empty());
    assert(seq!['"'].drop_last() =~= Seq::<char>::empty());
    assert(c != '"' ==> doubled_quotes(seq![c]) =~= seq![c]);
    assert(doubled_quotes(seq!['"']) =~= seq!['"', '"']);
}

proof fn lemma_doubled(a: Text, b: Text)
    ensures
        doubled_quotes(a + b) == doubled_quotes(a) + doubled_quotes(b),
    decreases b.len(),
{
    if b.len() == 0 {
        assert(a + b =~= a);
        assert(doubled_quotes(a) + doubled_quotes(b) =~= doubled_quotes(a));
    } else {
        assert((a + b).drop_last() =~= a + b.drop_last());
        assert((a + b).last() == b.last());
        lemma_doubled(a, b.drop_last());
        assert(doubled_quotes(a + b) =~= doubled_quotes(a) + doubled_quotes(b));
    }
}

/// The full-text search looks for the whole query and for each of its first twelve terms, where they
/// have two characters or more, and for nothing else.
pub proof fn law_expressions(query: Text, terms: Seq<Text>, x: Text)
    ensures
        fts_expressions(query, terms).contains(x) <==> x.len() >= 2 && (x == text::trimmed(query)
            || exists|i: int| 0 <= i < terms.len() && i < 12 && #[trigger] terms[i] == x),
{
    let first = text::first_items(terms, 12);
    if first.contains(x) {
        let i = choose|i: int| 0 <= i < first.len() && first[i] == x;
        assert(terms[i] == x);
    }
    if exists|i: int| 0 <= i < terms.len() && i < 12 && #[trigger] terms[i] == x {
        let i = choose|i: int| 0 <= i < terms.len() && i < 12 && #[trigger] terms[i] == x;
        assert(first[i] == x);
    }
}

/// The first ten expressions are alternatives of the full-text search: each stands in it as a phrase.
pub proof fn law_alternatives(expressions: Seq<Text>, i: int)
    requires
        0 <= i < expressions.len(),
        i < 10,
    ensures
        text::occurs_in(fts_phrase(expressions[i]), fts_text(expressions)),
        i > 0 ==> text::occurs_in(" OR "@, fts_text(expressions)),
{
    let asked = text::first_items(expressions, 10);
    let phrases = Seq::new(asked.len(), |k: int| fts_phrase(asked[k]));
    assert(phrases[i] == fts_phrase(expressions[i]));
    text::lemma_joined_contains(phrases, " OR "@, phrases[i]);
    text::lemma_joined_holds(phrases, " OR "@, i);
}

/// How much a text that holds the words of a query is raised: by 180 for the whole query, by 45 for each
/// term of four characters or more, and by 20 for each shorter one of two; by 450 at most.
pub proof fn law_match_bonus(query: Text, terms: Seq<Text>, s: Text)
    ensures
        match_bonus(query, terms, s) <= 450,
        text::trimmed(query).len() > 0 && text::occurs_in(text::trimmed(query), s) ==> match_bonus(
            query,
            terms,
            s,
        ) >= 180,
        terms.len() <= 30 && terms_match(terms, s) <= 270 ==> match_bonus(query, terms, s)
            == terms_match(terms, s) + if text::trimmed(query).len() > 0 && text::occurs_in(
            text::trimmed(query),
            s,
        ) {
            180nat
        } else {
            0
        },
{
    if terms.len() <= 30 {
        assert(text::first_items(terms, 30) =~= terms);
    }
}

/// Every term that stands in a text raises it by itself, whatever the other terms are.
pub proof fn law_terms_match(a: Seq<Text>, b: Seq<Text>, t: Text, s: Text)
    ensures
        terms_match(a + b, s) == terms_match(a, s) + terms_match(b, s),
        terms_match(seq![t], s) == if !text::occurs_in(t, s) || t.len() < 2 {
            0nat
        } else if t.len() >= 4 {
            45
        } else {
            20
        },
    decreases b.len(),
{
    reveal_with_fuel(terms_match, 2);
    assert(seq![t].drop_last() =~= Seq::<Text>::empty());
    if b.len() == 0 {
        assert(a + b =~= a);
    } else {
        assert((a + b).drop_last() =~= a + b.drop_last());
        assert((a + b).last() == b.last());
        law_terms_match(a, b.drop_last(), t, s);
    }
}

/// A snippet quotes the text: it is the text itself where that is short enough, and otherwise a part of
/// it with an ellipsis on each side on which something is left out.
pub proof fn law_snippet_quotes(content: Text, terms: Seq<Text>, max: nat) -> (r: (int, int))
    ensures
        0 <= r.0 <= r.1 <= content.len(),
        r.1 - r.0 <= max || content.len() <= max,
        content.len() <= max ==> snippet(content, terms, max) == content && r == (
            0int,
            content.len() as int,
        ),
        snippet(content, terms, max) == (if r.0 > 0 {
            "..."@
        } else {
            Seq::empty()
        }) + content.subrange(r.0, r.1) + (if r.1 < content.len() {
            "..."@
        } else {
            Seq::empty()
        }),
        r.1 < content.len() && content.len() > max ==> r.1 - r.0 == max,
{
    lemma_hit_position(content, terms);
    if content.len() <= max {
        let n = content.len() as int;
        let none: Text = Seq::empty();
        assert(none + content.subrange(0, n) + none =~= content);
        (0, n)
    } else {
        (
            snippet_start(content, terms, max) as int,
            snippet_end(content, terms, max) as int,
        )
    }
}

/// Only the first thirty terms raise a text.
pub proof fn law_thirty_terms(query: Text, terms: Seq<Text>, s: Text)
    requires
        terms.len() > 30,
    ensures
        match_bonus(query, terms, s) == match_bonus(query, terms.take(30), s),
{
    assert(text::first_items(terms, 30) =~= terms.take(30));
    assert(text::first_items(terms.take(30), 30) =~= terms.take(30));
}

} // verus!
