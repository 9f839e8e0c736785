//! Scores by text: how often, or how strongly, each of a set of texts was counted.

use vstd::prelude::*;

use crate::listing;
use crate::text;
use crate::text::Text;

verus! {

/// The largest number that a score holds; larger sums stay at it.
pub open spec fn saturated(n: nat) -> nat {
    if n <= u64::MAX {
        n
    } else {
        u64::MAX as nat
    }
}

/// Whether `a` ranks before `b`: by a higher score, or by text order where the scores are equal.
pub open spec fn ahead(score: spec_fn(Text) -> nat, a: Text, b: Text) -> bool {
    score(a) > score(b) || (score(a) == score(b) && listing::precedes(a, b))
}

/// The scored texts that rank before `x`.
pub open spec fn rivals(score: spec_fn(Text) -> nat, x: Text) -> Set<Text> {
    Set::new(|y: Text| score(y) > 0 && ahead(score, y, x))
}

/// The first `limit` scored texts in the ranking.
pub open spec fn leaders(score: spec_fn(Text) -> nat, limit: nat) -> Set<Text> {
    Set::new(|x: Text| score(x) > 0 && rivals(score, x).len() < limit)
}

/// Of distinct texts, one that all others are ahead of.
proof fn lemma_last_ranked(score: spec_fn(Text) -> nat, list: Seq<Text>) -> (last: int)
    requires
        list.len() > 0,
        listing::ascending(list),
    ensures
        0 <= last < list.len(),
        forall|j: int| 0 <= j < list.len() && j != last ==> ahead(score, #[trigger] list[j], list[last]),
    decreases list.len(),
{
    let n = list.len() - 1;
    if n == 0 {
        0
    } else {
        let before = list.drop_last();
        assert forall|p: int, q: int| 0 <= p < q < before.len() implies listing::precedes(
            #[trigger] before[p],
            #[trigger] before[q],
        ) by {
            assert(listing::precedes(list[p], list[q]));
        }
        let m = lemma_last_ranked(score, before);
        assert(listing::precedes(list[m], list[n]));
        if ahead(score, list[m], list[n]) {
            assert forall|j: int| 0 <= j < list.len() && j != n implies ahead(
                score,
                #[trigger] list[j],
                list[n],
            ) by {
                if j != m {
                    assert(ahead(score, before[j], before[m]));
                    assert(listing::precedes(list[j], list[n]));
                }
            }
            n
        } else {
            assert(ahead(score, list[n], list[m]));
            assert forall|j: int| 0 <= j < list.len() && j != m implies ahead(
                score,
                #[trigger] list[j],
                list[m],
            ) by {
                if j < n {
                    assert(ahead(score, before[j], before[m]));
                }
            }
            m
        }
    }
}

/// Texts with a positive score each, in ascending order.
pub struct Tally {
    terms: Vec<String>,
    scores: Vec<u64>,
}

impl Tally {
    /// The terms are distinct and ascending, and each has a positive score.
    pub closed spec fn wf(self) -> bool {
        &&& self.terms@.len() == self.scores@.len()
        &&& listing::ascending(text::texts(self.terms@))
        &&& forall|i: int| 0 <= i < self.scores@.len() ==> #[trigger] self.scores@[i] > 0
    }

    /// The scored texts in ascending order.
    pub closed spec fn names(self) -> Seq<Text> {
        text::texts(self.terms@)
    }

    spec fn position(self, x: Text) -> int {
        choose|i: int| 0 <= i < self.terms@.len() && #[trigger] self.terms@[i]@ == x
    }

    /// The score of a text, zero for a text that was never counted.
    pub closed spec fn at(self, x: Text) -> nat {
        if exists|i: int| 0 <= i < self.terms@.len() && #[trigger] self.terms@[i]@ == x {
            self.scores@[self.position(x)] as nat
        } else {
            0
        }
    }

    /// The scores as a function.
    pub open spec fn score_fn(self) -> spec_fn(Text) -> nat {
        |x: Text| self.at(x)
    }

    proof fn lemma_at(self, i: int)
        requires
            self.wf(),
            0 <= i < self.terms@.len(),
        ensures
            self.at(self.terms@[i]@) == self.scores@[i],
    {
        let x = self.terms@[i]@;
        assert(self.terms@[i]@ == x);
        let k = self.position(x);
        let all = text::texts(self.terms@);
        assert(all[i] == all[k]);
        if i < k {
            assert(listing::precedes(all[i], all[k]));
            listing::lemma_precedes_total(all[i], all[k]);
        } else if k < i {
            assert(listing::precedes(all[k], all[i]));
            listing::lemma_precedes_total(all[k], all[i]);
        }
    }

    /// The listed texts are those with a positive score.
    pub proof fn lemma_names(self)
        requires
            self.wf(),
        ensures
            listing::lists(self.names(), Set::new(|x: Text| self.at(x) > 0)),
    {
        let all = self.names();
        assert forall|x: Text| #[trigger] all.contains(x) <==> Set::new(
            |x: Text| self.at(x) > 0,
        ).contains(x) by {
            if all.contains(x) {
                let k = choose|k: int| 0 <= k < all.len() && all[k] == x;
                assert(self.terms@[k]@ == x);
                self.lemma_at(k);
            }
            if self.at(x) > 0 {
                let k = choose|k: int| 0 <= k < self.terms@.len() && #[trigger] self.terms@[k]@ == x;
                assert(all[k] == x);
            }
        }
    }

    /// A tally in which nothing was counted yet.
    pub fn new() -> (r: Self)
        ensures
            r.wf(),
            forall|x: Text| r.at(x) == 0,
    {
        Tally { terms: Vec::new(), scores: Vec::new() }
    }

    /// The number of scored texts.
    pub fn len(&self) -> (r: usize)
        ensures
            r == self.names().len(),
    {
        self.terms.len()
    }

    /// The text at a position of the ascending list.
    pub fn term(&self, i: usize) -> (r: &String)
        requires
            i < self.names().len(),
        ensures
            r@ == self.names()[i as int],
    {
        &self.terms[i]
    }

    /// The score at a position of the ascending list.
    pub fn score(&self, i: usize) -> (r: u64)
        requires
            self.wf(),
            i < self.names().len(),
        ensures
            r as nat == self.at(self.names()[i as int]),
    {
        proof {
            self.lemma_at(i as int);
        }
        self.scores[i]
    }

    /// The score of a text.
    pub fn get(&self, term: &str) -> (r: u64)
        requires
            self.wf(),
        ensures
            r as nat == self.at(term@),
    {
        let at = listing::lower_bound(&self.terms, term);
        if at < self.terms.len() && text::same_text(self.terms[at].as_str(), term) {
            proof {
                self.lemma_at(at as int);
            }
            self.scores[at]
        } else {
            proof {
                self.lemma_absent(at as int, term@);
            }
            0
        }
    }

    proof fn lemma_absent(self, at: int, x: Text)
        requires
            self.wf(),
            0 <= at <= self.terms@.len(),
            at < self.terms@.len() ==> self.terms@[at]@ != x,
            forall|i: int| 0 <= i < at ==> listing::precedes(#[trigger] self.terms@[i]@, x),
            forall|i: int|
                at <= i < self.terms@.len() ==> !listing::precedes(#[trigger] self.terms@[i]@, x),
        ensures
            self.at(x) == 0,
            forall|i: int| 0 <= i < self.terms@.len() ==> #[trigger] self.terms@[i]@ != x,
    {
        let all = text::texts(self.terms@);
        assert forall|i: int| 0 <= i < self.terms@.len() implies #[trigger] self.terms@[i]@ != x by {
            listing::lemma_precedes_total(self.terms@[i]@, x);
            if i > at && self.terms@[i]@ == x {
                assert(listing::precedes(all[at], all[i]));
            }
        }
    }

    /// Adds to the score of a text.
    pub fn add(&mut self, term: &str, amount: u64)
        requires
            old(self).wf(),
            amount > 0,
        ensures
            final(self).wf(),
            forall|x: Text| #[trigger]
                final(self).at(x) == if x == term@ {
                    saturated(old(self).at(x) + amount as nat)
                } else {
                    old(self).at(x)
                },
    {
        let ghost before = *self;
        let at = listing::lower_bound(&self.terms, term);
        if at < self.terms.len() && text::same_text(self.terms[at].as_str(), term) {
            let sum = self.scores[at].saturating_add(amount);
            self.scores.set(at, sum);
            proof {
                assert forall|x: Text| #[trigger] self.at(x) == if x == term@ {
                    saturated(before.at(x) + amount as nat)
                } else {
                    before.at(x)
                } by {
                    if exists|i: int| 0 <= i < self.terms@.len() && #[trigger] self.terms@[i]@ == x {
                        let i = choose|i: int|
                            0 <= i < self.terms@.len() && #[trigger] self.terms@[i]@ == x;
                        self.lemma_at(i);
                        before.lemma_at(i);
                        before.lemma_at(at as int);
                        if x == term@ && i != at {
                            self.lemma_at(at as int);
                        }
                        self.lemma_same_index(i, at as int);
                    }
                }
            }
        } else {
            proof {
                before.lemma_absent(at as int, term@);
            }
            self.terms.insert(at, text::copy_text(term));
            self.scores.insert(at, amount);
            proof {
                self.lemma_inserted(before, at as int, term@, amount);
            }
        }
    }

    proof fn lemma_same_index(self, i: int, j: int)
        requires
            self.wf(),
            0 <= i < self.terms@.len(),
            0 <= j < self.terms@.len(),
        ensures
            self.terms@[i]@ == self.terms@[j]@ ==> i == j,
    {
        let all = text::texts(self.terms@);
        listing::lemma_precedes_total(all[i], all[j]);
        if i < j {
            assert(listing::precedes(all[i], all[j]));
        } else if j < i {
            assert(listing::precedes(all[j], all[i]));
        }
    }

    proof fn lemma_inserted(self, before: Tally, at: int, x: Text, amount: u64)
        requires
            before.wf(),
            amount > 0,
            0 <= at <= before.terms@.len(),
            before.at(x) == 0,
            forall|i: int| 0 <= i < before.terms@.len() ==> #[trigger] before.terms@[i]@ != x,
            forall|i: int| 0 <= i < at ==> listing::precedes(#[trigger] before.terms@[i]@, x),
            forall|i: int|
                at <= i < before.terms@.len() ==> !listing::precedes(#[trigger] before.terms@[i]@, x),
            self.terms@.len() == before.terms@.len() + 1,
            self.scores@ == before.scores@.insert(at, amount),
            forall|i: int| 0 <= i < at ==> #[trigger] self.terms@[i] == before.terms@[i],
            self.terms@[at]@ == x,
            forall|i: int| at < i < self.terms@.len() ==> #[trigger] self.terms@[i] == before.terms@[i - 1],
        ensures
            self.wf(),
            forall|y: Text| #[trigger]
                self.at(y) == if y == x {
                    saturated(before.at(y) + amount as nat)
                } else {
                    before.at(y)
                },
    {
        let old_names = text::texts(before.terms@);
        let names = text::texts(self.terms@);
        assert forall|i: int| at <= i < before.terms@.len() implies listing::precedes(
            x,
            #[trigger] old_names[i],
        ) by {
            listing::lemma_precedes_total(before.terms@[i]@, x);
        }
        assert forall|i: int, j: int| 0 <= i < j < names.len() implies listing::precedes(
            #[trigger] names[i],
            #[trigger] names[j],
        ) by {
            let p = if i < at {
                i
            } else {
                i - 1
            };
            let q = if j < at {
                j
            } else {
                j - 1
            };
            if i == at {
                assert(listing::precedes(x, old_names[q]));
            } else if j == at {
                assert(listing::precedes(before.terms@[i]@, x));
            } else {
                assert(listing::precedes(old_names[p], old_names[q]));
            }
        }
        assert forall|i: int| 0 <= i < self.scores@.len() implies #[trigger] self.scores@[i] > 0 by {
            if i < at {
                assert(before.scores@[i] > 0);
            } else if i > at {
                assert(before.scores@[i - 1] > 0);
            }
        }
        assert(self.wf());
        assert forall|y: Text| #[trigger] self.at(y) == if y == x {
            saturated(before.at(y) + amount as nat)
        } else {
            before.at(y)
        } by {
            if y == x {
                self.lemma_at(at);
            } else if exists|i: int| 0 <= i < self.terms@.len() && #[trigger] self.terms@[i]@ == y {
                let i = choose|i: int| 0 <= i < self.terms@.len() && #[trigger] self.terms@[i]@ == y;
                self.lemma_at(i);
                if i < at {
                    before.lemma_at(i);
                } else {
                    before.lemma_at(i - 1);
                }
            } else if exists|i: int|
                0 <= i < before.terms@.len() && #[trigger] before.terms@[i]@ == y {
                let i = choose|i: int|
                    0 <= i < before.terms@.len() && #[trigger] before.terms@[i]@ == y;
                let j = if i < at {
                    i
                } else {
                    i + 1
                };
                assert(self.terms@[j]@ == y);
            }
        }
    }

    fn ranks_before(&self, j: usize, i: usize) -> (r: bool)
        requires
            self.wf(),
            j < self.names().len(),
            i < self.names().len(),
        ensures
            r == ahead(self.score_fn(), self.names()[j as int], self.names()[i as int]),
    {
        let a = self.score(j);
        let b = self.score(i);
        a > b || (a == b && listing::text_less(self.terms[j].as_str(), self.terms[i].as_str()))
    }

    fn count_rivals(&self, i: usize) -> (r: usize)
        requires
            self.wf(),
            i < self.names().len(),
        ensures
            r == rivals(self.score_fn(), self.names()[i as int]).len(),
    {
        let ghost x = self.names()[i as int];
        let ghost f = self.score_fn();
        let mut count: usize = 0;
        let ghost mut found: Set<Text> = Set::empty();
        for j in 0..self.terms.len()
            invariant
                self.wf(),
                i < self.names().len(),
                x == self.names()[i as int],
                f == self.score_fn(),
                count <= j,
                found.finite(),
                found.len() == count,
                forall|y: Text| #[trigger]
                    found.contains(y) <==> ahead(f, y, x) && exists|k: int|
                        0 <= k < j && #[trigger] self.names()[k] == y,
        {
            let ghost y = self.names()[j as int];
            proof {
                assert forall|k: int| 0 <= k < j implies #[trigger] self.names()[k] != y by {
                    assert(listing::precedes(self.names()[k], self.names()[j as int]));
                    listing::lemma_precedes_total(self.names()[k], y);
                }
                assert(!found.contains(y));
            }
            if self.ranks_before(j, i) {
                count += 1;
                proof {
                    found = found.insert(y);
                }
            }
            proof {
                assert forall|z: Text| #[trigger] found.contains(z) <==> ahead(f, z, x) && exists|k: int|
                    0 <= k < j + 1 && #[trigger] self.names()[k] == z by {
                    if exists|k: int| 0 <= k < j && #[trigger] self.names()[k] == z {
                        let k = choose|k: int| 0 <= k < j && #[trigger] self.names()[k] == z;
                        assert(self.names()[k] == z && k < j + 1);
                    }
                    assert(self.names()[j as int] == y);
                }
            }
        }
        proof {
            self.lemma_names();
            assert forall|y: Text| #[trigger] found.contains(y) <==> rivals(f, x).contains(y) by {
                assert(self.names().contains(y) <==> Set::new(|x: Text| self.at(x) > 0).contains(y));
            }
            assert(found =~= rivals(f, x));
        }
        count
    }

    /// The first `limit` texts of the ranking, in ascending order.
    pub fn top(&self, limit: usize) -> (r: Vec<String>)
        requires
            self.wf(),
        ensures
            listing::lists(text::texts(r@), leaders(self.score_fn(), limit as nat)),
            text::texts(r@) == listing::listing(leaders(self.score_fn(), limit as nat)),
            r@.len() <= limit,
    {
        let ghost f = self.score_fn();
        let ghost kept = leaders(f, limit as nat);
        let mut out: Vec<String> = Vec::new();
        for i in 0..self.terms.len()
            invariant
                self.wf(),
                f == self.score_fn(),
                kept == leaders(f, limit as nat),
                listing::ascending(text::texts(out@)),
                forall|y: Text| #[trigger]
                    text::texts(out@).contains(y) <==> kept.contains(y) && exists|k: int|
                        0 <= k < i && #[trigger] self.names()[k] == y,
        {
            let ghost before = text::texts(out@);
            let ghost y = self.names()[i as int];
            proof {
                self.lemma_at(i as int);
            }
            if self.count_rivals(i) < limit {
                out.push(self.terms[i].clone());
                proof {
                    let after = text::texts(out@);
                    assert(after =~= before.push(y));
                    assert forall|p: int, q: int| 0 <= p < q < after.len() implies listing::precedes(
                        #[trigger] after[p],
                        #[trigger] after[q],
                    ) by {
                        if q == before.len() {
                            assert(before.contains(before[p]));
                            let k = choose|k: int|
                                0 <= k < i && #[trigger] self.names()[k] == before[p];
                            assert(listing::precedes(self.names()[k], self.names()[i as int]));
                        } else {
                            assert(listing::precedes(before[p], before[q]));
                        }
                    }
                }
            }
            proof {
                let after = text::texts(out@);
                assert forall|z: Text| #[trigger] after.contains(z) <==> kept.contains(z) && exists|k: int|
                    0 <= k < i + 1 && #[trigger] self.names()[k] == z by {
                    assert(before.contains(z) <==> kept.contains(z) && exists|k: int|
                        0 <= k < i && #[trigger] self.names()[k] == z);
                    if exists|k: int| 0 <= k < i && #[trigger] self.names()[k] == z {
                        let k = choose|k: int| 0 <= k < i && #[trigger] self.names()[k] == z;
                        assert(self.names()[k] == z && k < i + 1);
                    }
                    assert(self.names()[i as int] == y);
                    if before.contains(z) {
                        let p = choose|p: int| 0 <= p < before.len() && before[p] == z;
                        assert(after[p] == z);
                    }
                    if after.contains(z) {
                        let p = choose|p: int| 0 <= p < after.len() && after[p] == z;
                        if p < before.len() {
                            assert(before[p] == z);
                        }
                    }
                    if kept.contains(y) {
                        assert(after.last() == y);
                    }
                }
            }
        }
        proof {
            self.lemma_names();
            assert forall|y: Text| #[trigger] text::texts(out@).contains(y) <==> kept.contains(y) by {
                assert(self.names().contains(y) <==> Set::new(|x: Text| self.at(x) > 0).contains(y));
            }
            listing::lemma_listing(text::texts(out@), kept);
            self.lemma_leaders_len(text::texts(out@), limit as nat);
        }
        out
    }

    /// There are no more leaders than the limit.
    proof fn lemma_leaders_len(self, list: Seq<Text>, limit: nat)
        requires
            self.wf(),
            listing::lists(list, leaders(self.score_fn(), limit)),
        ensures
            list.len() <= limit,
    {
        let f = self.score_fn();
        if list.len() > 0 {
            let last = lemma_last_ranked(f, list);
            let x = list[last];
            assert(list.contains(x));
            self.lemma_names();
            let all = self.names().to_set();
            let others = list.remove(last);
            assert(rivals(f, x).subset_of(all)) by {
                assert forall|y: Text| #[trigger] rivals(f, x).contains(y) implies all.contains(y) by {
                    assert(self.names().contains(y) <==> Set::new(
                        |x: Text| self.at(x) > 0,
                    ).contains(y));
                }
            }
            vstd::set_lib::lemma_len_subset(rivals(f, x), all);
            assert(others.to_set().subset_of(rivals(f, x))) by {
                assert forall|y: Text| #[trigger] others.to_set().contains(y) implies rivals(
                    f,
                    x,
                ).contains(y) by {
                    let k = choose|k: int| 0 <= k < others.len() && others[k] == y;
                    let j = if k < last {
                        k
                    } else {
                        k + 1
                    };
                    assert(list[j] == y);
                    assert(list.contains(y));
                    assert(ahead(f, list[j], list[last]));
                }
            }
            assert(others.no_duplicates()) by {
                assert forall|i: int, j: int|
                    0 <= i < others.len() && 0 <= j < others.len() && i != j implies others[i]
                    != others[j] by {
                    let a = if i < last {
                        i
                    } else {
                        i + 1
                    };
                    let b = if j < last {
                        j
                    } else {
                        j + 1
                    };
                    listing::lemma_precedes_total(list[a], list[b]);
                    if a < b {
                        assert(listing::precedes(list[a], list[b]));
                    } else {
                        assert(listing::precedes(list[b], list[a]));
                    }
                }
            }
            others.unique_seq_to_set();
            vstd::set_lib::lemma_len_subset(others.to_set(), rivals(f, x));
        }
    }

    /// Adds to the scores of distinct texts, to each its own amount.
    pub(crate) fn add_each(
        &mut self,
        terms: &Vec<String>,
        amounts: &Vec<u64>,
        Ghost(base): Ghost<spec_fn(Text) -> nat>,
        Ghost(amount): Ghost<spec_fn(Text) -> nat>,
    )
        requires
            old(self).wf(),
            listing::ascending(text::texts(terms@)),
            terms@.len() == amounts@.len(),
            forall|i: int|
                0 <= i < terms@.len() ==> #[trigger] amounts@[i] as nat == saturated(
                    amount(terms@[i]@),
                ),
            forall|x: Text| #[trigger] old(self).at(x) == saturated(base(x)),
        ensures
            final(self).wf(),
            forall|x: Text| #[trigger]
                final(self).at(x) == saturated(
                    base(x) + if text::texts(terms@).contains(x) {
                        amount(x)
                    } else {
                        0
                    },
                ),
    {
        let ghost all = text::texts(terms@);
        for i in 0..terms.len()
            invariant
                self.wf(),
                all == text::texts(terms@),
                listing::ascending(all),
                terms@.len() == amounts@.len(),
                forall|k: int|
                    0 <= k < terms@.len() ==> #[trigger] amounts@[k] as nat == saturated(
                        amount(terms@[k]@),
                    ),
                forall|x: Text| #[trigger]
                    self.at(x) == saturated(
                        base(x) + if all.take(i as int).contains(x) {
                            amount(x)
                        } else {
                            0
                        },
                    ),
        {
            let ghost before = *self;
            let ghost done = all.take(i as int);
            let ghost next = all.take(i + 1);
            let ghost term = all[i as int];
            if amounts[i] > 0 {
                self.add(terms[i].as_str(), amounts[i]);
            }
            proof {
                assert(next =~= done.push(term));
                assert(!done.contains(term)) by {
                    if done.contains(term) {
                        let k = choose|k: int| 0 <= k < done.len() && done[k] == term;
                        assert(listing::precedes(all[k], all[i as int]));
                        listing::lemma_precedes_total(all[k], all[i as int]);
                    }
                }
                assert forall|x: Text| #[trigger] self.at(x) == saturated(
                    base(x) + if next.contains(x) {
                        amount(x)
                    } else {
                        0
                    },
                ) by {
                    listing::lemma_push_members(done, term, x);
                    assert(before.at(x) == saturated(
                        base(x) + if done.contains(x) {
                            amount(x)
                        } else {
                            0
                        },
                    ));
                    assert(amounts@[i as int] as nat == saturated(amount(terms@[i as int]@)));
                }
            }
        }
        assert(all.take(all.len() as int) =~= all);
    }

    /// The scored texts in ascending order.
    pub fn terms(&self) -> (r: &Vec<String>)
        requires
            self.wf(),
        ensures
            text::texts(r@) == self.names(),
            listing::ascending(text::texts(r@)),
    {
        &self.terms
    }
}

// ---------------------------------------------------------------------------------------------
// Laws

/// Whoever leads has a score, and no one who does not lead is ahead: the score is higher, or the same
/// with a name that comes first. Where few have a score, all of them lead.
pub proof fn law_leaders(score: spec_fn(Text) -> nat, limit: nat, x: Text, y: Text)
    requires
        Set::new(|z: Text| score(z) > 0).finite(),
        score(y) > 0,
    ensures
        leaders(score, limit).contains(x) ==> score(x) > 0,
        leaders(score, limit).contains(x) && !leaders(score, limit).contains(y) ==> score(x) > score(
            y,
        ) || (score(x) == score(y) && listing::precedes(x, y)),
        Set::new(|z: Text| score(z) > 0).len() <= limit ==> leaders(score, limit).contains(y),
{
    let all = Set::new(|z: Text| score(z) > 0);
    let before_x = rivals(score, x);
    let before_y = rivals(score, y);
    assert(before_x.subset_of(all));
    assert(before_y.subset_of(all));
    vstd::set_lib::lemma_set_subset_finite(all, before_x);
    vstd::set_lib::lemma_set_subset_finite(all, before_y);
    listing::lemma_precedes_total(y, y);
    assert(!before_y.contains(y));
    let without = all.remove(y);
    assert(before_y.subset_of(without));
    vstd::set_lib::lemma_len_subset(before_y, without);
    listing::lemma_precedes_total(x, y);
    if ahead(score, y, x) {
        assert forall|z: Text| before_y.contains(z) implies before_x.contains(z) by {
            if score(z) == score(y) && score(y) == score(x) {
                listing::lemma_precedes_transitive(z, y, x);
            }
        }
        vstd::set_lib::lemma_len_subset(before_y, before_x);
    }
}

/// No more lead than the limit allows.
pub proof fn law_leaders_are_few(score: spec_fn(Text) -> nat, limit: nat)
    requires
        Set::new(|z: Text| score(z) > 0).finite(),
    ensures
        leaders(score, limit).finite(),
        leaders(score, limit).len() <= limit,
{
    let all = Set::new(|z: Text| score(z) > 0);
    let ahead_of_rest = leaders(score, limit);
    assert(ahead_of_rest.subset_of(all));
    vstd::set_lib::lemma_set_subset_finite(all, ahead_of_rest);
    listing::lemma_listing_lists(ahead_of_rest);
    let list = listing::listing(ahead_of_rest);
    if ahead_of_rest.len() > 0 {
        let some = ahead_of_rest.choose();
        assert(list.contains(some));
        let last = lemma_last_ranked(score, list);
        let x = list[last];
        assert(list.contains(x));
        assert(ahead_of_rest.contains(x));
        let before = rivals(score, x);
        assert(before.subset_of(all));
        vstd::set_lib::lemma_set_subset_finite(all, before);
        let others = ahead_of_rest.remove(x);
        assert forall|y: Text| others.contains(y) implies before.contains(y) by {
            assert(list.contains(y));
            let j = choose|j: int| 0 <= j < list.len() && list[j] == y;
            assert(ahead(score, list[j], list[last]));
        }
        vstd::set_lib::lemma_len_subset(others, before);
    }
}

/// A score is what was counted, up to the largest number that can be held.
pub proof fn law_saturated(n: nat)
    ensures
        n <= 0xffff_ffff_ffff_ffff ==> saturated(n) == n,
        n > 0xffff_ffff_ffff_ffff ==> saturated(n) == 0xffff_ffff_ffff_ffff,
{
}

} // verus!
