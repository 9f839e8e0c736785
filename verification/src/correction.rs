//! Correction of a search that found too little: further queries, and how their hits are merged.

use vstd::prelude::*;
use vstd::string::*;

use crate::context;
use crate::hierarchy;
use crate::listing;
use crate::profile::QuestionProfile;
use crate::ranking;
use crate::records::{Hit, SearchHit};
use crate::text;
use crate::text::Text;

verus! {

// ---------------------------------------------------------------------------------------------
// Further queries

/// How many lower concepts, aspects and terms further queries are made of.
pub const QUERY_CONCEPTS: usize = 30;

pub const QUERY_ASPECTS: usize = 12;

pub const QUERY_TERMS: usize = 8;

/// The most further queries.
pub const MAX_QUERIES: usize = 36;

/// Whether a question is searched for in more ways: where it is broad, where nothing was found, and
/// where what was found is weak.
pub fn needs_correction(profile: &QuestionProfile, found: usize, best_is_weak: bool) -> (r: bool)
    ensures
        r == (profile.is_broad || found == 0 || best_is_weak),
{
    profile.is_broad || found == 0 || best_is_weak
}

/// What further queries are made of: the question, its lower concepts, its aspects and its terms.
pub open spec fn query_sources(question: Text, profile: QuestionProfile) -> Seq<Text> {
    let terms = text::texts(profile.terms@);
    seq![text::trimmed(question)] + text::first_items(
        text::texts(profile.lower_concepts@),
        QUERY_CONCEPTS as nat,
    ) + text::first_items(text::texts(profile.aspects@), QUERY_ASPECTS as nat) + if terms.len() > 1 {
        seq![text::joined(text::first_items(terms, QUERY_TERMS as nat), " "@)]
    } else {
        Seq::empty()
    }
}

/// The further queries for a question.
pub fn corrective_queries(question: &str, profile: &QuestionProfile) -> (r: Vec<String>)
    ensures
        text::texts(r@) == text::first_items(
            listing::cleaned(query_sources(question@, *profile)),
            MAX_QUERIES as nat,
        ),
        r@.len() <= MAX_QUERIES,
        listing::cleaned(query_sources(question@, *profile)).len() <= 36 ==> text::texts(r@)
            == listing::cleaned(query_sources(question@, *profile)),
        r@.len() <= 36,
{
    let ghost lower = text::first_items(
        text::texts(profile.lower_concepts@),
        QUERY_CONCEPTS as nat,
    );
    let ghost aspects = text::first_items(text::texts(profile.aspects@), QUERY_ASPECTS as nat);
    let mut queries: Vec<String> = Vec::new();
    queries.push(text::copy_text(text::trim(question)));
    assert(text::texts(queries@) =~= seq![text::trimmed(question@)]);
    context::push_first(&mut queries, &profile.lower_concepts, QUERY_CONCEPTS);
    context::push_first(&mut queries, &profile.aspects, QUERY_ASPECTS);
    let ghost before = text::texts(queries@);
    if profile.terms.len() > 1 {
        let joined = text::join_first(&profile.terms, QUERY_TERMS, " ");
        queries.push(joined);
        assert(text::texts(queries@) =~= before + seq![joined@]);
    } else {
        assert(text::texts(queries@) =~= before + Seq::<Text>::empty());
    }
    assert(text::texts(queries@) =~= query_sources(question@, *profile));
    listing::normalize_string_list(&mut queries);
    hierarchy::keep_first(&mut queries, MAX_QUERIES);
    assert(text::texts(queries@).len() == queries@.len());
    queries
}

// ---------------------------------------------------------------------------------------------
// Merging

/// The place of a chunk among hits.
pub open spec fn place_among(hits: Seq<Hit>, chunk_id: i64) -> Option<nat>
    decreases hits.len(),
{
    if hits.len() == 0 {
        None
    } else if hits.last().chunk_id == chunk_id {
        Some((hits.len() - 1) as nat)
    } else {
        place_among(hits.drop_last(), chunk_id)
    }
}

/// A remark on the query that found a hit.
pub open spec fn with_remark(hit: Hit, query: Text) -> Hit {
    Hit { debug: hit.debug + " corrective_query="@ + query, ..hit }
}

/// Hits with one that a further query found: a new one with a remark; one that is there already gets
/// a remark if it has none.
pub open spec fn absorbed(hits: Seq<Hit>, hit: Hit, query: Text) -> Seq<Hit> {
    match place_among(hits, hit.chunk_id) {
        Some(p) => {
            let old_hit = hits[p as int];
            if text::occurs_in("corrective_query="@, old_hit.debug) {
                hits
            } else {
                hits.update(p as int, with_remark(old_hit, query))
            }
        },
        None => hits.push(with_remark(hit, query)),
    }
}

/// Hits with a seed: a new one, or in place of one of the same chunk.
pub open spec fn seeded(hits: Seq<Hit>, hit: Hit) -> Seq<Hit> {
    match place_among(hits, hit.chunk_id) {
        Some(p) => hits.update(p as int, hit),
        None => hits.push(hit),
    }
}

/// Whether no chunk occurs twice among hits.
pub open spec fn distinct_chunks(hits: Seq<Hit>) -> bool {
    forall|i: int, j: int|
        0 <= i < j < hits.len() ==> (#[trigger] hits[i]).chunk_id != (#[trigger] hits[j]).chunk_id
}

/// The hits of several queries, no chunk twice.
pub struct MergedHits {
    pub hits: Vec<SearchHit>,
}

impl View for MergedHits {
    type V = Seq<Hit>;

    open spec fn view(&self) -> Seq<Hit> {
        ranking::views(self.hits@)
    }
}

proof fn lemma_place_among(hits: Seq<Hit>, chunk_id: i64)
    ensures
        match place_among(hits, chunk_id) {
            Some(p) => p < hits.len() && hits[p as int].chunk_id == chunk_id,
            None => forall|k: int| 0 <= k < hits.len() ==> (#[trigger] hits[k]).chunk_id != chunk_id,
        },
    decreases hits.len(),
{
    if hits.len() > 0 && hits.last().chunk_id != chunk_id {
        let before = hits.drop_last();
        lemma_place_among(before, chunk_id);
        match place_among(hits, chunk_id) {
            Some(p) => {
                assert(hits[p as int] == before[p as int]);
            },
            None => {
                assert forall|k: int| 0 <= k < hits.len() implies (#[trigger] hits[k]).chunk_id
                    != chunk_id by {
                    if k < before.len() {
                        assert(before[k].chunk_id != chunk_id);
                    }
                }
            },
        }
    }
}

/// Further queries bring no chunk twice and lose none; only remarks change.
pub proof fn law_absorbed(hits: Seq<Hit>, hit: Hit, query: Text)
    requires
        distinct_chunks(hits),
    ensures
        distinct_chunks(absorbed(hits, hit, query)),
        hits.len() <= absorbed(hits, hit, query).len() <= hits.len() + 1,
        forall|k: int|
            0 <= k < hits.len() ==> (Hit {
                debug: hits[k].debug,
                ..(#[trigger] absorbed(hits, hit, query)[k])
            }) == hits[k],
        exists|k: int|
            0 <= k < absorbed(hits, hit, query).len() && (#[trigger] absorbed(
                hits,
                hit,
                query,
            )[k]).chunk_id == hit.chunk_id,
{
    lemma_place_among(hits, hit.chunk_id);
    let after = absorbed(hits, hit, query);
    match place_among(hits, hit.chunk_id) {
        Some(p) => {
            assert(after[p as int].chunk_id == hit.chunk_id);
        },
        None => {
            assert(after[hits.len() as int].chunk_id == hit.chunk_id);
        },
    }
    assert forall|i: int, j: int| 0 <= i < j < after.len() implies (#[trigger] after[i]).chunk_id != (
    #[trigger] after[j]).chunk_id by {
        if j < hits.len() {
            assert(hits[i].chunk_id != hits[j].chunk_id);
        }
    }
}

fn find_place(hits: &Vec<SearchHit>, chunk_id: i64) -> (r: Option<usize>)
    ensures
        match r {
            Some(p) => place_among(ranking::views(hits@), chunk_id) == Some(p as nat) && p
                < hits@.len(),
            None => place_among(ranking::views(hits@), chunk_id) is None,
        },
{
    let ghost all = ranking::views(hits@);
    let mut i: usize = hits.len();
    assert(all.take(all.len() as int) =~= all);
    while i > 0
        invariant
            all == ranking::views(hits@),
            i <= hits@.len(),
            place_among(all, chunk_id) == place_among(all.take(i as int), chunk_id),
        decreases i,
    {
        proof {
            assert(all.take(i as int).drop_last() =~= all.take(i - 1));
            assert(all.take(i as int).last() == hits@[i - 1]@);
        }
        if hits[i - 1].chunk_id == chunk_id {
            return Some(i - 1);
        }
        i -= 1;
    }
    None
}

fn remark(hit: SearchHit, query: &str) -> (r: SearchHit)
    ensures
        r@ == with_remark(hit@, query@),
{
    let mut hit = hit;
    let mut debug = hit.debug.clone();
    debug.append(" corrective_query=");
    debug.append(query);
    hit.debug = debug;
    hit
}

impl MergedHits {
    /// No hits.
    pub fn new() -> (r: Self)
        ensures
            r@.len() == 0,
            distinct_chunks(r@),
    {
        MergedHits { hits: Vec::new() }
    }

    /// Takes in a hit of the first search, and tells which hit it replaced, if any.
    pub fn seed(&mut self, hit: SearchHit) -> (r: Option<usize>)
        requires
            distinct_chunks(old(self)@),
        ensures
            final(self)@ == seeded(old(self)@, hit@),
            distinct_chunks(final(self)@),
            match r {
                Some(p) => place_among(old(self)@, hit.chunk_id) == Some(p as nat),
                None => place_among(old(self)@, hit.chunk_id) is None,
            },
    {
        let ghost before = self@;
        proof {
            lemma_place_among(before, hit.chunk_id);
        }
        let place = find_place(&self.hits, hit.chunk_id);
        match place {
            Some(p) => {
                let ghost new_hit = hit@;
                self.hits.set(p, hit);
                assert(self@ =~= before.update(p as int, new_hit));
            },
            None => {
                let ghost new_hit = hit@;
                self.hits.push(hit);
                assert(self@ =~= before.push(new_hit));
            },
        }
        proof {
            let after = self@;
            assert forall|i: int, j: int| 0 <= i < j < after.len() implies (
            #[trigger] after[i]).chunk_id != (#[trigger] after[j]).chunk_id by {
                if j < before.len() {
                    assert(before[i].chunk_id != before[j].chunk_id);
                }
            }
        }
        place
    }

    /// Takes in a hit of a further query, and tells which hit was there already, if any.
    pub fn absorb(&mut self, hit: SearchHit, query: &str) -> (r: Option<usize>)
        requires
            distinct_chunks(old(self)@),
        ensures
            final(self)@ == absorbed(old(self)@, hit@, query@),
            distinct_chunks(final(self)@),
            match r {
                Some(p) => place_among(old(self)@, hit.chunk_id) == Some(p as nat),
                None => place_among(old(self)@, hit.chunk_id) is None,
            },
    {
        let ghost before = self@;
        proof {
            lemma_place_among(before, hit.chunk_id);
            law_absorbed(before, hit@, query@);
        }
        let place = find_place(&self.hits, hit.chunk_id);
        match place {
            Some(p) => {
                assert(before[p as int] == self.hits@[p as int]@);
                if !text::contains(self.hits[p].debug.as_str(), "corrective_query=") {
                    let known = self.hits.remove(p);
                    let known = remark(known, query);
                    self.hits.insert(p, known);
                    assert(self@ =~= before.update(p as int, with_remark(before[p as int], query@)));
                }
            },
            None => {
                let ghost new_hit = hit@;
                self.hits.push(remark(hit, query));
                assert(self@ =~= before.push(with_remark(new_hit, query@)));
            },
        }
        place
    }
}

// ---------------------------------------------------------------------------------------------
// Queries and remarks

/// The queries of a second search are the question itself, the first thirty lower concepts, the first
/// twelve aspects, and the first eight terms together where there are two or more.
pub proof fn law_queries(question: Text, profile: QuestionProfile, x: Text)
    ensures
        ({
            let lower = text::texts(profile.lower_concepts@);
            let aspects = text::texts(profile.aspects@);
            let terms = text::texts(profile.terms@);
            query_sources(question, profile).contains(x) <==> x == text::trimmed(question) || (exists|
                i: int,
            |
                0 <= i < lower.len() && i < 30 && #[trigger] lower[i] == x) || (exists|i: int|
                0 <= i < aspects.len() && i < 12 && #[trigger] aspects[i] == x) || (terms.len() > 1
                && x == text::joined(text::first_items(terms, 8), " "@))
        }),
{
    let lower = text::texts(profile.lower_concepts@);
    let aspects = text::texts(profile.aspects@);
    let terms = text::texts(profile.terms@);
    let a = seq![text::trimmed(question)];
    let b = text::first_items(lower, 30);
    let c = text::first_items(aspects, 12);
    let d = if terms.len() > 1 {
        seq![text::joined(text::first_items(terms, 8), " "@)]
    } else {
        Seq::empty()
    };
    let all = query_sources(question, profile);
    assert(all == a + b + c + d);
    let m = 1 + b.len();
    let n = m + c.len();
    if all.contains(x) {
        let k = choose|k: int| 0 <= k < all.len() && all[k] == x;
        if k == 0 {
            assert(x == a[0]);
        } else if k < m {
            assert(x == b[k - 1]);
            assert(lower[k - 1] == x);
        } else if k < n {
            assert(x == c[k - m]);
            assert(aspects[k - m] == x);
        } else {
            assert(x == d[k - n]);
        }
    }
    if x == text::trimmed(question) {
        assert(all[0] == x);
    }
    if exists|i: int| 0 <= i < lower.len() && i < 30 && #[trigger] lower[i] == x {
        let i = choose|i: int| 0 <= i < lower.len() && i < 30 && #[trigger] lower[i] == x;
        assert(b[i] == x);
        assert(all[1 + i] == x);
    }
    if exists|i: int| 0 <= i < aspects.len() && i < 12 && #[trigger] aspects[i] == x {
        let i = choose|i: int| 0 <= i < aspects.len() && i < 12 && #[trigger] aspects[i] == x;
        assert(c[i] == x);
        assert(all[m + i] == x);
    }
    if terms.len() > 1 && x == text::joined(text::first_items(terms, 8), " "@) {
        assert(d[0] == x);
        assert(all[n as int] == x);
    }
}

proof fn lemma_place_of(hits: Seq<Hit>, p: int)
    requires
        distinct_chunks(hits),
        0 <= p < hits.len(),
    ensures
        place_among(hits, hits[p].chunk_id) == Some(p as nat),
    decreases hits.len(),
{
    let front = hits.drop_last();
    if p < hits.len() - 1 {
        assert(hits[p].chunk_id != hits[hits.len() - 1].chunk_id);
        assert(front[p] == hits[p]);
        assert forall|i: int, j: int| 0 <= i < j < front.len() implies (#[trigger] front[i]).chunk_id != (
        #[trigger] front[j]).chunk_id by {
            assert(hits[i].chunk_id != hits[j].chunk_id);
        }
        lemma_place_of(front, p);
    }
}

proof fn lemma_remark_stands(hit: Hit, query: Text)
    ensures
        text::occurs_in("corrective_query="@, with_remark(hit, query).debug),
{
    reveal_strlit("corrective_query=");
    reveal_strlit(" corrective_query=");
    let mark = "corrective_query="@;
    let before = hit.debug + " "@;
    reveal_strlit(" ");
    assert(with_remark(hit, query).debug =~= before + mark + query);
    text::lemma_middle_occurs(before, mark, query);
}

/// A hit of a second search stands among the hits afterwards, with the query that found it first; what
/// else is known of a hit stays as it was, and finding it again changes nothing.
pub proof fn law_absorbed_with_remark(hits: Seq<Hit>, hit: Hit, query: Text, again: Text)
    requires
        distinct_chunks(hits),
    ensures
        ({
            let after = absorbed(hits, hit, query);
            &&& exists|k: int|
                0 <= k < after.len() && (#[trigger] after[k]).chunk_id == hit.chunk_id
                    && text::occurs_in("corrective_query="@, after[k].debug)
            &&& absorbed(after, hit, again) == after
            &&& place_among(hits, hit.chunk_id) is None ==> after == hits.push(
                (Hit { debug: hit.debug + " corrective_query="@ + query, ..hit }),
            )
        }),
{
    let after = absorbed(hits, hit, query);
    law_absorbed(hits, hit, query);
    lemma_place_among(hits, hit.chunk_id);
    let p = match place_among(hits, hit.chunk_id) {
        Some(p) => p as int,
        None => hits.len() as int,
    };
    lemma_remark_stands(hit, query);
    if p < hits.len() {
        lemma_remark_stands(hits[p], query);
    }
    assert(after[p].chunk_id == hit.chunk_id);
    assert(text::occurs_in("corrective_query="@, after[p].debug));
    lemma_place_of(after, p);
}

/// A hit of the first search stands among the hits as it is, in place of an older one of its chunk.
pub proof fn law_seeded(hits: Seq<Hit>, hit: Hit)
    requires
        distinct_chunks(hits),
    ensures
        seeded(hits, hit).contains(hit),
        distinct_chunks(seeded(hits, hit)),
        forall|k: int|
            0 <= k < hits.len() && (#[trigger] hits[k]).chunk_id != hit.chunk_id ==> seeded(
                hits,
                hit,
            )[k] == hits[k],
{
    lemma_place_among(hits, hit.chunk_id);
    let after = seeded(hits, hit);
    match place_among(hits, hit.chunk_id) {
        Some(p) => {
            assert(after[p as int] == hit);
            assert forall|i: int, j: int| 0 <= i < j < after.len() implies (#[trigger] after[i]).chunk_id
                != (#[trigger] after[j]).chunk_id by {
                assert(hits[i].chunk_id != hits[j].chunk_id);
            }
        },
        None => {
            assert(after[hits.len() as int] == hit);
            assert forall|i: int, j: int| 0 <= i < j < after.len() implies (#[trigger] after[i]).chunk_id
                != (#[trigger] after[j]).chunk_id by {
                if j < hits.len() {
                    assert(hits[i].chunk_id != hits[j].chunk_id);
                }
            }
        },
    }
}

} // verus!
