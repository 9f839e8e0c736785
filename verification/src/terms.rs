//! Search terms: the words of a text, and the short character runs of its Japanese words.

use vstd::prelude::*;
use vstd::string::*;

use crate::digest;
use crate::listing;
use crate::tally::Tally;
use crate::text;
use crate::text::Text;

verus! {

/// The fewest and the most characters of a whole word that is a term.
pub const MIN_WORD_CHARS: usize = 2;

pub const MAX_WORD_CHARS: usize = 40;

/// The kind of a character: 1 for ASCII words, 2 for Japanese words, 0 for anything else.
pub open spec fn kind_of(c: char) -> u8 {
    if ('a' <= c <= 'z') || ('A' <= c <= 'Z') || ('0' <= c <= '9') || c == '_' || c == '-' {
        1
    } else if (0x3040 <= c as u32 <= 0x30ff) || (0x3400 <= c as u32 <= 0x9fff) || (0xf900 <= c as u32
        <= 0xfaff) || (0xff66 <= c as u32 <= 0xff9f) {
        2
    } else {
        0
    }
}

/// The kind of a character: 1 for ASCII words, 2 for Japanese words, 0 for anything else.
pub fn token_kind(ch: char) -> (r: u8)
    ensures
        r == kind_of(ch),
{
    if ('a' <= ch && ch <= 'z') || ('A' <= ch && ch <= 'Z') || ('0' <= ch && ch <= '9') || ch == '_'
        || ch == '-' {
        return 1;
    }
    let code = ch as u32;
    if (0x3040 <= code && code <= 0x30ff) || (0x3400 <= code && code <= 0x9fff) || (0xf900 <= code
        && code <= 0xfaff) || (0xff66 <= code && code <= 0xff9f) {
        return 2;
    }
    0
}

/// The runs of `n` characters in `s`, from left to right.
pub open spec fn grams(s: Text, n: nat) -> Seq<Text> {
    Seq::new(
        if s.len() >= n {
            (s.len() - n + 1) as nat
        } else {
            0
        },
        |i: int| s.subrange(i, i + n),
    )
}

/// The terms of one word: the word itself, in lower case if it is ASCII, unless it is too short or
/// too long, and for any other word its runs of two and of three characters.
pub open spec fn token_terms(token: Text, kind: u8) -> Seq<Text> {
    if text::is_blank(token) {
        Seq::empty()
    } else {
        let word = if kind == 1 {
            text::lower_ascii(token)
        } else {
            token
        };
        let whole = if MIN_WORD_CHARS <= word.len() <= MAX_WORD_CHARS {
            seq![word]
        } else {
            Seq::empty()
        };
        if kind == 1 {
            whole
        } else {
            whole + grams(word, 2) + grams(word, 3)
        }
    }
}

fn push_grams(terms: &mut Vec<String>, chars: &Vec<char>, n: usize)
    requires
        n > 0,
    ensures
        text::texts(final(terms)@) == text::texts(old(terms)@) + grams(chars@, n as nat),
{
    let ghost before = text::texts(terms@);
    if chars.len() < n {
        assert(before + grams(chars@, n as nat) =~= before);
        return ;
    }
    let total = chars.len();
    let count = total - n + 1;
    for i in 0..count
        invariant
            n > 0,
            total == chars@.len(),
            count == chars@.len() - n + 1,
            text::texts(terms@) == before + grams(chars@, n as nat).take(i as int),
    {
        let ghost now = text::texts(terms@);
        let gram = text::text_between(chars, i, i + n);
        terms.push(gram);
        assert(text::texts(terms@) =~= now.push(gram@));
        assert(grams(chars@, n as nat).take(i + 1) =~= grams(chars@, n as nat).take(i as int).push(
            gram@,
        ));
    }
    assert(grams(chars@, n as nat).take(count as int) =~= grams(chars@, n as nat));
}

/// Appends the terms of one word.
pub fn flush_token(terms: &mut Vec<String>, token: &str, kind: u8)
    ensures
        text::texts(final(terms)@) == text::texts(old(terms)@) + token_terms(token@, kind),
{
    let ghost before = text::texts(terms@);
    if text::blank(token) {
        assert(before + token_terms(token@, kind) =~= before);
        return ;
    }
    let normalized = if kind == 1 {
        text::to_lower_ascii(token)
    } else {
        text::copy_text(token)
    };
    let ghost word = normalized@;
    let chars = text::chars_of(normalized.as_str());
    if MIN_WORD_CHARS <= chars.len() && chars.len() <= MAX_WORD_CHARS {
        terms.push(normalized);
    }
    let ghost whole = if MIN_WORD_CHARS <= word.len() <= MAX_WORD_CHARS {
        seq![word]
    } else {
        Seq::empty()
    };
    assert(text::texts(terms@) =~= before + whole);
    if kind != 1 {
        push_grams(terms, &chars, 2);
        push_grams(terms, &chars, 3);
        assert(before + whole + grams(word, 2) + grams(word, 3) =~= before + (whole + grams(word, 2)
            + grams(word, 3)));
    }
}

/// Whether the characters from `i` up to `j` are a word: characters of one kind, with no character
/// of that kind next to them.
pub open spec fn is_token(s: Text, i: int, j: int) -> bool {
    &&& 0 <= i < j <= s.len()
    &&& kind_of(s[i]) != 0
    &&& forall|k: int| i <= k < j ==> kind_of(#[trigger] s[k]) == kind_of(s[i])
    &&& i > 0 ==> kind_of(s[i - 1]) != kind_of(s[i])
    &&& j < s.len() ==> kind_of(s[j]) != kind_of(s[i])
}

/// The terms of the word from `i` up to `j`.
pub open spec fn terms_at(s: Text, i: int, j: int) -> Seq<Text> {
    token_terms(s.subrange(i, j), kind_of(s[i]))
}

/// Whether `x` is a term of a word of `s` that ends at `end` or before.
pub open spec fn term_until(s: Text, end: int, x: Text) -> bool {
    exists|i: int, j: int|
        is_token(s, i, j) && j <= end && #[trigger] terms_at(s, i, j).contains(x)
}

/// The terms of a text.
pub open spec fn terms_of(s: Text) -> Set<Text> {
    Set::new(|x: Text| term_until(s, s.len() as int, x))
}

spec fn terms_in_row(s: Text, i: int, n: int) -> Set<Text> {
    Set::new(|x: Text| exists|j: int| 0 <= j < n && #[trigger] terms_at(s, i, j).contains(x))
}

proof fn lemma_row_finite(s: Text, i: int, n: int)
    ensures
        terms_in_row(s, i, n).finite(),
    decreases n,
{
    if n <= 0 {
        assert(terms_in_row(s, i, n) =~= Set::empty());
    } else {
        lemma_row_finite(s, i, n - 1);
        let last = terms_at(s, i, n - 1);
        assert(terms_in_row(s, i, n) =~= terms_in_row(s, i, n - 1).union(last.to_set())) by {
            assert forall|x: Text| terms_in_row(s, i, n).contains(x) implies terms_in_row(
                s,
                i,
                n - 1,
            ).union(last.to_set()).contains(x) by {
                let j = choose|j: int| 0 <= j < n && #[trigger] terms_at(s, i, j).contains(x);
                if j == n - 1 {
                    assert(last.to_set().contains(x));
                }
            }
        }
    }
}

spec fn terms_in_rows(s: Text, m: int) -> Set<Text> {
    Set::new(
        |x: Text| exists|i: int| 0 <= i < m && #[trigger] terms_in_row(s, i, s.len() as int + 1).contains(x),
    )
}

proof fn lemma_rows_finite(s: Text, m: int)
    ensures
        terms_in_rows(s, m).finite(),
    decreases m,
{
    if m <= 0 {
        assert(terms_in_rows(s, m) =~= Set::empty());
    } else {
        lemma_rows_finite(s, m - 1);
        let last = terms_in_row(s, m - 1, s.len() as int + 1);
        lemma_row_finite(s, m - 1, s.len() as int + 1);
        assert(terms_in_rows(s, m) =~= terms_in_rows(s, m - 1).union(last)) by {
            assert forall|x: Text| terms_in_rows(s, m).contains(x) implies terms_in_rows(
                s,
                m - 1,
            ).union(last).contains(x) by {
                let i = choose|i: int|
                    0 <= i < m && #[trigger] terms_in_row(s, i, s.len() as int + 1).contains(x);
                if i == m - 1 {
                    assert(last.contains(x));
                }
            }
        }
    }
}

/// The terms of a text can be listed.
pub proof fn lemma_terms_listed(s: Text)
    ensures
        terms_of(s).finite(),
        listing::lists(listing::listing(terms_of(s)), terms_of(s)),
{
    let all = terms_in_rows(s, s.len() as int + 1);
    lemma_rows_finite(s, s.len() as int + 1);
    assert(terms_of(s).subset_of(all)) by {
        assert forall|x: Text| #[trigger] terms_of(s).contains(x) implies all.contains(x) by {
            let (i, j) = choose|i: int, j: int|
                is_token(s, i, j) && j <= s.len() && #[trigger] terms_at(s, i, j).contains(x);
            assert(terms_at(s, i, j).contains(x));
            assert(terms_in_row(s, i, s.len() as int + 1).contains(x));
        }
    }
    vstd::set_lib::lemma_len_subset(terms_of(s), all);
    listing::lemma_listing_lists(terms_of(s));
}

/// What is known of the characters between `start` and `p` that were not turned into terms yet.
spec fn pending(s: Text, start: int, p: int, current: Text, kind: u8) -> bool {
    &&& 0 <= start <= p <= s.len()
    &&& current == s.subrange(start, p)
    &&& (kind == 0) == (start == p)
    &&& forall|k: int| start <= k < p ==> kind_of(#[trigger] s[k]) == kind
    &&& start > 0 && start < p ==> kind_of(s[start - 1]) != kind
    &&& start > 0 && start == p ==> kind_of(s[start - 1]) == 0
}

/// Ending the pending word at `p` adds exactly its terms.
proof fn lemma_flushed(s: Text, start: int, p: int, kind: u8, x: Text)
    requires
        pending(s, start, p, s.subrange(start, p), kind),
        p < s.len() ==> kind_of(s[p]) != kind || kind == 0,
    ensures
        term_until(s, p, x) <==> term_until(s, start, x) || token_terms(
            s.subrange(start, p),
            kind,
        ).contains(x),
{
    if start < p {
        assert(kind_of(s[start]) == kind);
        assert(is_token(s, start, p));
        if token_terms(s.subrange(start, p), kind).contains(x) {
            assert(terms_at(s, start, p).contains(x));
        }
    } else {
        assert(s.subrange(start, p) =~= Seq::<char>::empty());
        lemma_empty_token(kind);
    }
    if term_until(s, start, x) {
        let (i, j) = choose|i: int, j: int|
            is_token(s, i, j) && j <= start && #[trigger] terms_at(s, i, j).contains(x);
        assert(is_token(s, i, j) && j <= p && terms_at(s, i, j).contains(x));
    }
    if term_until(s, p, x) && !term_until(s, start, x) {
        let (i, j) = choose|i: int, j: int|
            is_token(s, i, j) && j <= p && #[trigger] terms_at(s, i, j).contains(x);
        assert(j > start);
        assert(kind_of(s[j - 1]) == kind_of(s[i]));
        assert(kind_of(s[j - 1]) == kind);
        if j < p {
            assert(kind_of(s[j]) == kind);
        }
        if i < start {
            assert(kind_of(s[start - 1]) == kind_of(s[i]));
        } else if i > start {
            assert(kind_of(s[i - 1]) == kind);
        }
        assert(i == start && j == p);
    }
}

proof fn lemma_empty_token(kind: u8)
    ensures
        token_terms(Seq::<char>::empty(), kind).len() == 0,
{
    assert(text::is_blank(Seq::<char>::empty()));
}

/// Skipping a character of no kind ends no further word.
proof fn lemma_skipped(s: Text, p: int, x: Text)
    requires
        0 <= p < s.len(),
        kind_of(s[p]) == 0,
    ensures
        term_until(s, p + 1, x) <==> term_until(s, p, x),
{
    if term_until(s, p + 1, x) {
        let (i, j) = choose|i: int, j: int|
            is_token(s, i, j) && j <= p + 1 && #[trigger] terms_at(s, i, j).contains(x);
        if j == p + 1 {
            assert(kind_of(s[p]) == kind_of(s[i]));
        }
        assert(is_token(s, i, j) && j <= p && terms_at(s, i, j).contains(x));
    }
    if term_until(s, p, x) {
        let (i, j) = choose|i: int, j: int|
            is_token(s, i, j) && j <= p && #[trigger] terms_at(s, i, j).contains(x);
        assert(is_token(s, i, j) && j <= p + 1 && terms_at(s, i, j).contains(x));
    }
}

proof fn lemma_concat_members(a: Seq<Text>, b: Seq<Text>, x: Text)
    ensures
        (a + b).contains(x) <==> a.contains(x) || b.contains(x),
{
    if a.contains(x) {
        let k = choose|k: int| 0 <= k < a.len() && a[k] == x;
        assert((a + b)[k] == x);
    }
    if b.contains(x) {
        let k = choose|k: int| 0 <= k < b.len() && b[k] == x;
        assert((a + b)[a.len() + k] == x);
    }
    if (a + b).contains(x) {
        let k = choose|k: int| 0 <= k < (a + b).len() && (a + b)[k] == x;
        if k < a.len() {
            assert(a[k] == x);
        } else {
            assert(b[k - a.len()] == x);
        }
    }
}

/// A word of a text is a word of any longer text in which a character of no kind, or the end, stands
/// at each end of the text.
proof fn lemma_token_within(s: Text, whole: Text, from: int, i: int, j: int)
    requires
        0 <= from,
        from + s.len() <= whole.len(),
        s == whole.subrange(from, from + s.len()),
        from > 0 ==> kind_of(whole[from - 1]) == 0,
        from + s.len() < whole.len() ==> kind_of(whole[from + s.len()]) == 0,
        0 <= i < j <= s.len(),
    ensures
        is_token(s, i, j) <==> is_token(whole, from + i, from + j),
        terms_at(s, i, j) == terms_at(whole, from + i, from + j),
{
    assert(s.subrange(i, j) =~= whole.subrange(from + i, from + j));
    assert(s[i] == whole[from + i]);
    if i > 0 {
        assert(s[i - 1] == whole[from + i - 1]);
    }
    if j < s.len() {
        assert(s[j] == whole[from + j]);
    }
    if is_token(s, i, j) {
        assert forall|k: int| from + i <= k < from + j implies kind_of(#[trigger] whole[k]) == kind_of(
            whole[from + i],
        ) by {
            assert(s[k - from] == whole[k]);
        }
    }
    if is_token(whole, from + i, from + j) {
        assert forall|k: int| i <= k < j implies kind_of(#[trigger] s[k]) == kind_of(s[i]) by {
            assert(s[k] == whole[from + k]);
        }
    }
}

/// A character of no kind separates: the terms of a text are those of the parts around it.
#[verifier::rlimit(60)]
pub proof fn law_terms_separate(a: Text, c: char, b: Text)
    requires
        kind_of(c) == 0,
    ensures
        terms_of(a + seq![c] + b) == terms_of(a).union(terms_of(b)),
{
    let whole = a + seq![c] + b;
    let n = a.len() as int;
    assert(whole[n] == c);
    assert(whole.subrange(0, n) =~= a);
    assert(whole.subrange(n + 1, n + 1 + b.len()) =~= b);
    assert forall|x: Text| terms_of(whole).contains(x) <==> terms_of(a).union(terms_of(b)).contains(x) by {
        if terms_of(whole).contains(x) {
            let (i, j) = choose|i: int, j: int|
                is_token(whole, i, j) && j <= whole.len() && #[trigger] terms_at(whole, i, j).contains(
                    x,
                );
            if i <= n < j {
                assert(kind_of(whole[n]) == kind_of(whole[i]));
            } else if j <= n {
                lemma_token_within(a, whole, 0, i, j);
                assert(terms_at(a, i, j).contains(x));
            } else {
                lemma_token_within(b, whole, n + 1, i - n - 1, j - n - 1);
                assert(terms_at(b, i - n - 1, j - n - 1).contains(x));
            }
        }
        if terms_of(a).contains(x) {
            let (i, j) = choose|i: int, j: int|
                is_token(a, i, j) && j <= a.len() && #[trigger] terms_at(a, i, j).contains(x);
            lemma_token_within(a, whole, 0, i, j);
            assert(terms_at(whole, i, j).contains(x));
        }
        if terms_of(b).contains(x) {
            let (i, j) = choose|i: int, j: int|
                is_token(b, i, j) && j <= b.len() && #[trigger] terms_at(b, i, j).contains(x);
            lemma_token_within(b, whole, n + 1, i, j);
            assert(terms_at(whole, n + 1 + i, n + 1 + j).contains(x));
        }
    }
    assert(terms_of(whole) =~= terms_of(a).union(terms_of(b)));
}

/// The terms of a text, distinct and in ascending order.
pub fn extract_terms(text: &str) -> (r: Vec<String>)
    ensures
        listing::lists(text::texts(r@), terms_of(text@)),
        text::texts(r@) == listing::listing(terms_of(text@)),
{
    let ghost s = text@;
    let mut terms: Vec<String> = Vec::new();
    let mut current = String::new();
    let mut current_kind: u8 = 0;
    let ghost mut start: int = 0;
    proof {
        assert forall|x: Text| !term_until(s, 0, x) by {}
        assert(s.subrange(0, 0) =~= Seq::<char>::empty());
    }
    for ch in it: text.chars()
        invariant
            s == text@,
            it.seq() == s,
            pending(s, start, it.index() as int, current@, current_kind),
            forall|x: Text| #[trigger] text::texts(terms@).contains(x) <==> term_until(s, start, x),
    {
        let ghost p = it.index() as int;
        let ghost before = text::texts(terms@);
        let kind = token_kind(ch);
        if kind == 0 {
            flush_token(&mut terms, current.as_str(), current_kind);
            proof {
                assert forall|x: Text| #[trigger] text::texts(terms@).contains(x) <==> term_until(
                    s,
                    p + 1,
                    x,
                ) by {
                    lemma_concat_members(before, token_terms(current@, current_kind), x);
                    lemma_flushed(s, start, p, current_kind, x);
                    lemma_skipped(s, p, x);
                    assert(before.contains(x) <==> term_until(s, start, x));
                }
                start = p + 1;
                assert(s.subrange(start, start) =~= Seq::<char>::empty());
            }
            current = String::new();
            current_kind = 0;
        } else {
            if current_kind != 0 && current_kind != kind {
                flush_token(&mut terms, current.as_str(), current_kind);
                proof {
                    assert forall|x: Text| #[trigger] text::texts(terms@).contains(x) <==> term_until(
                        s,
                        p,
                        x,
                    ) by {
                        lemma_concat_members(before, token_terms(current@, current_kind), x);
                        lemma_flushed(s, start, p, current_kind, x);
                        assert(before.contains(x) <==> term_until(s, start, x));
                    }
                    start = p;
                    assert(s.subrange(start, start) =~= Seq::<char>::empty());
                }
                current = String::new();
            }
            current.push(ch);
            current_kind = kind;
            assert(s.subrange(start, p + 1) =~= s.subrange(start, p).push(ch));
        }
    }
    let ghost before = text::texts(terms@);
    flush_token(&mut terms, current.as_str(), current_kind);
    proof {
        let n = s.len() as int;
        assert forall|x: Text| #[trigger] text::texts(terms@).to_set().contains(x) <==> terms_of(
            s,
        ).contains(x) by {
            lemma_concat_members(before, token_terms(current@, current_kind), x);
            lemma_flushed(s, start, n, current_kind, x);
            assert(before.contains(x) <==> term_until(s, start, x));
        }
        assert(text::texts(terms@).to_set() =~= terms_of(s));
    }
    listing::sort_distinct(terms)
}

// ---------------------------------------------------------------------------------------------
// Weights

/// A term of at least this many characters weighs twice as much as a shorter one.
pub const LONG_TERM_CHARS: usize = 4;

/// The number of times a term of a heading counts.
pub const HEADING_FACTOR: u64 = 2;

/// The largest weight that the term index stores.
pub const MAX_STORED_WEIGHT: u64 = 12;

/// The weight of a term.
pub open spec fn weight_of(term: Text) -> nat {
    if term.len() >= LONG_TERM_CHARS {
        2
    } else {
        1
    }
}

/// The weight of `x` in a text: that of the term, or zero if it is not a term of the text.
pub open spec fn weight_in(s: Text, x: Text) -> nat {
    if terms_of(s).contains(x) {
        weight_of(x)
    } else {
        0
    }
}

/// The weight of a term.
pub fn term_weight(term: &str) -> (r: u64)
    ensures
        r as nat == weight_of(term@),
        1 <= r <= 2,
{
    if text::char_count(term) >= LONG_TERM_CHARS {
        2
    } else {
        1
    }
}

fn add_weights(weights: &mut Tally, text: &str, factor: u64)
    requires
        old(weights).wf(),
        1 <= factor <= 8,
        forall|x: Text| #[trigger] old(weights).at(x) <= 64,
    ensures
        final(weights).wf(),
        forall|x: Text| #[trigger]
            final(weights).at(x) == old(weights).at(x) + factor * weight_in(text@, x),
{
    let terms = extract_terms(text);
    let ghost all = text::texts(terms@);
    let ghost before = *weights;
    for i in 0..terms.len()
        invariant
            1 <= factor <= 8,
            all == text::texts(terms@),
            listing::ascending(all),
            weights.wf(),
            forall|x: Text| #[trigger] before.at(x) <= 64,
            forall|x: Text| #[trigger]
                weights.at(x) == before.at(x) + (if all.take(i as int).contains(x) {
                    factor * weight_of(x)
                } else {
                    0
                }),
    {
        let ghost now = *weights;
        let ghost term = all[i as int];
        let weight = term_weight(terms[i].as_str());
        assert(1 <= factor * weight <= 16) by (nonlinear_arith)
            requires
                1 <= factor <= 8,
                1 <= weight <= 2,
        ;
        weights.add(terms[i].as_str(), factor * weight);
        proof {
            let done = all.take(i as int);
            let next = all.take(i + 1);
            assert(next =~= done.push(term));
            assert(!done.contains(term)) by {
                if done.contains(term) {
                    let k = choose|k: int| 0 <= k < done.len() && done[k] == term;
                    assert(listing::precedes(all[k], all[i as int]));
                    listing::lemma_precedes_total(all[k], all[i as int]);
                }
            }
            assert forall|x: Text| #[trigger] weights.at(x) == before.at(x) + (if next.contains(x) {
                factor * weight_of(x)
            } else {
                0
            }) by {
                assert(now.at(x) == before.at(x) + (if done.contains(x) {
                    factor * weight_of(x)
                } else {
                    0
                }));
                lemma_concat_members(done, seq![term], x);
                assert(done + seq![term] =~= next);
                assert(seq![term].contains(x) <==> x == term) by {
                    assert(seq![term][0] == term);
                }
            }
        }
    }
    proof {
        assert(all.take(all.len() as int) =~= all);
        assert forall|x: Text| #[trigger] weights.at(x) == before.at(x) + factor * weight_in(
            text@,
            x,
        ) by {
            assert(all.contains(x) <==> terms_of(text@).contains(x));
            assert(factor * 0 == 0);
        }
    }
}

/// The terms of a text, each with its weight.
pub fn term_weights(text: &str) -> (r: Tally)
    ensures
        r.wf(),
        forall|x: Text| #[trigger] r.at(x) == weight_in(text@, x),
{
    let mut weights = Tally::new();
    add_weights(&mut weights, text, 1);
    weights
}

/// The weight of `x` in a chunk: the terms of its heading count twice.
pub open spec fn chunk_weight(content: Text, heading: Text, x: Text) -> nat {
    weight_in(content, x) + HEADING_FACTOR as nat * weight_in(heading, x)
}

/// The terms of a chunk and its heading, each with its weight.
pub fn chunk_term_weights(content: &str, heading: &str) -> (r: Tally)
    ensures
        r.wf(),
        forall|x: Text| #[trigger] r.at(x) == chunk_weight(content@, heading@, x),
{
    let mut weights = term_weights(content);
    add_weights(&mut weights, heading, HEADING_FACTOR);
    weights
}

/// One entry of the term index.
pub struct TermRow {
    pub term: String,
    pub weight: u64,
}

/// The entries of the term index for a chunk: its terms in ascending order, each with its weight
/// as far as the index stores it.
pub fn term_rows(content: &str, heading: &str) -> (r: Vec<TermRow>)
    ensures
        listing::lists(
            Seq::new(r@.len(), |i: int| r@[i].term@),
            terms_of(content@).union(terms_of(heading@)),
        ),
        forall|i: int|
            0 <= i < r@.len() ==> {
                let w = chunk_weight(content@, heading@, #[trigger] r@[i].term@);
                r@[i].weight as nat == if w < MAX_STORED_WEIGHT {
                    w
                } else {
                    MAX_STORED_WEIGHT as nat
                }
            },
{
    let weights = chunk_term_weights(content, heading);
    let mut out: Vec<TermRow> = Vec::new();
    proof {
        weights.lemma_names();
    }
    let count = weights.len();
    for i in 0..count
        invariant
            count == weights.names().len(),
            weights.wf(),
            forall|x: Text| #[trigger] weights.at(x) == chunk_weight(content@, heading@, x),
            out@.len() == i,
            i <= weights.names().len(),
            forall|k: int|
                0 <= k < i ==> {
                    let w = chunk_weight(content@, heading@, #[trigger] out@[k].term@);
                    &&& out@[k].term@ == weights.names()[k]
                    &&& out@[k].weight as nat == if w < MAX_STORED_WEIGHT {
                        w
                    } else {
                        MAX_STORED_WEIGHT as nat
                    }
                },
    {
        let weight = weights.score(i);
        let stored = if weight < MAX_STORED_WEIGHT {
            weight
        } else {
            MAX_STORED_WEIGHT
        };
        out.push(TermRow { term: weights.term(i).clone(), weight: stored });
    }
    proof {
        let names = Seq::new(out@.len(), |i: int| out@[i].term@);
        assert(names =~= weights.names());
        assert forall|x: Text| #[trigger] names.contains(x) <==> terms_of(content@).union(
            terms_of(heading@),
        ).contains(x) by {
            assert(weights.names().contains(x) <==> Set::new(
                |x: Text| weights.at(x) > 0,
            ).contains(x));
        }
    }
    out
}

// ---------------------------------------------------------------------------------------------
// Embedding

/// The number of components of an embedding.
pub const EMBEDDING_DIMS: usize = 384;

/// The component to which a term contributes: the first four bytes of its digest, read as a
/// little-endian number, modulo the number of components.
pub open spec fn bucket_of(term: Text) -> nat {
    let d = digest::sha256(vstd::utf8::encode_utf8(term));
    (d[0] as nat + 256 * d[1] as nat + 65536 * d[2] as nat + 16777216 * d[3] as nat)
        % EMBEDDING_DIMS as nat
}

/// What a term contributes: its weight, negative if the fifth byte of its digest is odd.
pub open spec fn contribution_of(term: Text) -> int {
    let d = digest::sha256(vstd::utf8::encode_utf8(term));
    if d[4] % 2 == 0 {
        weight_of(term) as int
    } else {
        -(weight_of(term) as int)
    }
}

/// The component `b` of the embedding of some terms, before it is scaled to unit length.
pub open spec fn component(terms: Seq<Text>, b: nat) -> int
    decreases terms.len(),
{
    if terms.len() == 0 {
        0
    } else {
        let term = terms.last();
        component(terms.drop_last(), b) + if bucket_of(term) == b {
            contribution_of(term)
        } else {
            0
        }
    }
}

proof fn lemma_component_bound(terms: Seq<Text>, b: nat)
    ensures
        -2 * terms.len() <= component(terms, b) <= 2 * terms.len(),
    decreases terms.len(),
{
    if terms.len() > 0 {
        lemma_component_bound(terms.drop_last(), b);
    }
}

/// The place and the amount of a term's contribution, from its digest.
pub fn term_contribution(digest: &[u8], weight: u64) -> (r: (usize, i64))
    requires
        digest@.len() >= 5,
        weight <= 2,
    ensures
        r.0 as nat == (digest@[0] as nat + 256 * digest@[1] as nat + 65536 * digest@[2] as nat
            + 16777216 * digest@[3] as nat) % EMBEDDING_DIMS as nat,
        r.0 < EMBEDDING_DIMS,
        r.1 == if digest@[4] % 2 == 0 {
            weight as int
        } else {
            -(weight as int)
        },
{
    let index = digest[0] as u64 + 256 * digest[1] as u64 + 65536 * digest[2] as u64 + 16777216
        * digest[3] as u64;
    let bucket = (index % (EMBEDDING_DIMS as u64)) as usize;
    let amount = if digest[4] % 2 == 0 {
        weight as i64
    } else {
        -(weight as i64)
    };
    (bucket, amount)
}

/// The embedding of a text before it is scaled to unit length, as whole numbers.
pub fn embedding_counts(text: &str) -> (r: Vec<i128>)
    ensures
        r@.len() == EMBEDDING_DIMS,
        forall|b: int|
            0 <= b < EMBEDDING_DIMS ==> #[trigger] r@[b] == component(
                listing::listing(terms_of(text@)),
                b as nat,
            ),
{
    let terms = extract_terms(text);
    let total = terms.len();
    let ghost all = text::texts(terms@);
    let mut counts: Vec<i128> = Vec::new();
    for b in 0..EMBEDDING_DIMS
        invariant
            counts@.len() == b,
            forall|k: int| 0 <= k < b ==> #[trigger] counts@[k] == 0,
    {
        counts.push(0);
    }
    for i in 0..total
        invariant
            total == terms@.len(),
            all == text::texts(terms@),
            counts@.len() == EMBEDDING_DIMS,
            forall|b: int|
                0 <= b < EMBEDDING_DIMS ==> #[trigger] counts@[b] == component(
                    all.take(i as int),
                    b as nat,
                ),
    {
        let term = &terms[i];
        let digest = digest::sha256_digest(term.as_str().as_bytes());
        let (bucket, amount) = term_contribution(digest.as_slice(), term_weight(term.as_str()));
        proof {
            let next = all.take(i + 1);
            assert(next.drop_last() =~= all.take(i as int));
            assert(next.last() == term@);
            lemma_component_bound(all.take(i as int), bucket as nat);
        }
        let sum = counts[bucket] + amount as i128;
        counts.set(bucket, sum);
    }
    assert(all.take(all.len() as int) =~= all);
    counts
}

// ---------------------------------------------------------------------------------------------
// What terms are

proof fn lemma_token_start(s: Text, p: int) -> (i: int)
    requires
        0 <= p < s.len(),
    ensures
        0 <= i <= p,
        forall|k: int| i <= k <= p ==> kind_of(#[trigger] s[k]) == kind_of(s[p]),
        i > 0 ==> kind_of(s[i - 1]) != kind_of(s[p]),
    decreases p,
{
    if p > 0 && kind_of(s[p - 1]) == kind_of(s[p]) {
        lemma_token_start(s, p - 1)
    } else {
        p
    }
}

proof fn lemma_token_end(s: Text, p: int) -> (j: int)
    requires
        0 <= p < s.len(),
    ensures
        p < j <= s.len(),
        forall|k: int| p <= k < j ==> kind_of(#[trigger] s[k]) == kind_of(s[p]),
        j < s.len() ==> kind_of(s[j]) != kind_of(s[p]),
    decreases s.len() - p,
{
    if p + 1 < s.len() && kind_of(s[p + 1]) == kind_of(s[p]) {
        lemma_token_end(s, p + 1)
    } else {
        p + 1
    }
}

/// Every two and every three Japanese characters that follow one another are a term.
#[verifier::rlimit(40)]
pub proof fn law_japanese_neighbours(s: Text, i: int, n: int)
    requires
        2 <= n <= 3,
        0 <= i,
        i + n <= s.len(),
        forall|k: int|
            i <= k < i + n ==> (0x3040 <= #[trigger] s[k] as u32 <= 0x30ff) || (0x3400 <= s[k] as u32
                <= 0x9fff) || (0xf900 <= s[k] as u32 <= 0xfaff) || (0xff66 <= s[k] as u32 <= 0xff9f),
    ensures
        terms_of(s).contains(s.subrange(i, i + n)),
{
    assert forall|k: int| i <= k < i + n implies kind_of(#[trigger] s[k]) == 2 by {}
    assert(kind_of(s[i]) == 2);
    let a = lemma_token_start(s, i);
    let b = lemma_token_end(s, i);
    assert(kind_of(s[a]) == 2);
    assert(is_token(s, a, b));
    if b < i + n {
        assert(kind_of(s[b]) == 2);
    }
    let token = s.subrange(a, b);
    let x = s.subrange(i, i + n);
    assert(token[i - a] == s[i]);
    text::lemma_not_blank(token, i - a);
    let whole = if MIN_WORD_CHARS <= token.len() <= MAX_WORD_CHARS {
        seq![token]
    } else {
        Seq::empty()
    };
    let twos = grams(token, 2);
    let threes = grams(token, 3);
    assert(terms_at(s, a, b) == whole + twos + threes);
    assert(token.subrange(i - a, i - a + n) =~= x);
    if n == 2 {
        assert(twos[i - a] == x);
        assert((whole + twos + threes)[whole.len() + (i - a)] == x);
    } else {
        assert(threes[i - a] == x);
        assert((whole + twos + threes)[whole.len() + twos.len() + (i - a)] == x);
    }
    assert(terms_at(s, a, b).contains(x));
    assert(term_until(s, s.len() as int, x));
}

/// Every word of letters, digits, underscores and hyphens that has between two and forty characters is
/// a term in lower case.
pub proof fn law_latin_words(s: Text, i: int, j: int)
    requires
        0 <= i,
        2 <= j - i <= 40,
        j <= s.len(),
        forall|k: int|
            i <= k < j ==> 'a' <= #[trigger] s[k] <= 'z' || 'A' <= s[k] <= 'Z' || '0' <= s[k] <= '9'
                || s[k] == '_' || s[k] == '-',
        i > 0 ==> !('a' <= s[i - 1] <= 'z' || 'A' <= s[i - 1] <= 'Z' || '0' <= s[i - 1] <= '9' || s[i
            - 1] == '_' || s[i - 1] == '-'),
        j < s.len() ==> !('a' <= s[j] <= 'z' || 'A' <= s[j] <= 'Z' || '0' <= s[j] <= '9' || s[j] == '_'
            || s[j] == '-'),
    ensures
        terms_of(s).contains(text::lower_ascii(s.subrange(i, j))),
{
    assert forall|k: int| i <= k < j implies kind_of(#[trigger] s[k]) == 1 by {}
    assert(kind_of(s[i]) == 1);
    assert(is_token(s, i, j));
    let token = s.subrange(i, j);
    assert(token[0] == s[i]);
    text::lemma_not_blank(token, 0);
    let x = text::lower_ascii(token);
    assert(terms_at(s, i, j) == seq![x]);
    assert(terms_at(s, i, j)[0] == x);
    assert(terms_at(s, i, j).contains(x));
    assert(term_until(s, s.len() as int, x));
}

proof fn lemma_token_term(token: Text, kind: u8, x: Text) -> (q: int)
    requires
        kind == 1 || kind == 2,
        token_terms(token, kind).contains(x),
    ensures
        2 <= x.len() <= 40,
        kind == 1 ==> x == text::lower_ascii(token),
        kind == 2 ==> text::occurs_at(x, token, q),
{
    let all = token_terms(token, kind);
    let p = choose|p: int| 0 <= p < all.len() && all[p] == x;
    if kind == 1 {
        let word = text::lower_ascii(token);
        assert(all =~= if MIN_WORD_CHARS <= word.len() <= MAX_WORD_CHARS {
            seq![word]
        } else {
            Seq::empty()
        });
        0
    } else {
        let whole = if MIN_WORD_CHARS <= token.len() <= MAX_WORD_CHARS {
            seq![token]
        } else {
            Seq::empty()
        };
        let twos = grams(token, 2);
        let threes = grams(token, 3);
        assert(all == whole + twos + threes);
        if p < whole.len() {
            assert(x == token);
            assert(token.subrange(0, token.len() as int) =~= token);
            0
        } else if p < whole.len() + twos.len() {
            let q = p - whole.len();
            assert(x == twos[q]);
            q
        } else {
            let q = p - whole.len() - twos.len();
            assert(x == threes[q]);
            q
        }
    }
}

proof fn lemma_kind_visible(c: char)
    requires
        kind_of(c) != 0,
    ensures
        !text::is_white_space(c),
        !text::is_white_space(text::lower_ascii_char(c)),
{
}

proof fn lemma_term_at(s: Text, i: int, j: int, x: Text)
    requires
        is_token(s, i, j),
        terms_at(s, i, j).contains(x),
    ensures
        2 <= x.len() <= 40,
        text::occurs_in(x, s) || text::occurs_in(x, text::lower_ascii(s)),
        forall|k: int| 0 <= k < x.len() ==> !text::is_white_space(#[trigger] x[k]),
{
    let kind = kind_of(s[i]);
    let token = s.subrange(i, j);
    let q = lemma_token_term(token, kind, x);
    if kind == 1 {
        let lower = text::lower_ascii(s);
        assert(lower.subrange(i, j) =~= x);
        assert(text::occurs_at(x, lower, i));
        assert forall|k: int| 0 <= k < x.len() implies !text::is_white_space(#[trigger] x[k]) by {
            let c = s[i + k];
            assert(kind_of(c) == kind);
            lemma_kind_visible(c);
            assert(x[k] == text::lower_ascii_char(c));
        }
    } else {
        let n = x.len() as int;
        assert(s.subrange(i + q, i + q + n) =~= token.subrange(q, q + n));
        assert(text::occurs_at(x, s, i + q));
        assert forall|k: int| 0 <= k < x.len() implies !text::is_white_space(#[trigger] x[k]) by {
            let c = s[i + q + k];
            assert(kind_of(c) == kind);
            lemma_kind_visible(c);
            assert(token.subrange(q, q + n)[k] == c);
        }
    }
}

/// Every term has between two and forty characters and stands in the text, as it is or in lower case.
/// None of its characters is white space.
pub proof fn law_terms_stand_in_text(s: Text, x: Text)
    requires
        terms_of(s).contains(x),
    ensures
        2 <= x.len() <= 40,
        text::occurs_in(x, s) || text::occurs_in(x, text::lower_ascii(s)),
        forall|k: int| 0 <= k < x.len() ==> !text::is_white_space(#[trigger] x[k]),
{
    let (i, j) = choose|i: int, j: int|
        is_token(s, i, j) && j <= s.len() && #[trigger] terms_at(s, i, j).contains(x);
    lemma_term_at(s, i, j, x);
}

/// A term of the heading weighs twice as much as one of the text, and a term of four characters or more
/// twice as much as a shorter one.
pub proof fn law_chunk_weights(content: Text, heading: Text, x: Text)
    ensures
        chunk_weight(content, heading, x) == (if x.len() >= 4 {
            2nat
        } else {
            1
        }) * ((if terms_of(content).contains(x) {
            1nat
        } else {
            0
        }) + (if terms_of(heading).contains(x) {
            2nat
        } else {
            0
        })),
{
}

/// A term changes one component of an embedding alone, by its weight, in the direction that its digest
/// gives.
pub proof fn law_components(terms: Seq<Text>, x: Text, b: nat)
    ensures
        bucket_of(x) < 384,
        b != bucket_of(x) ==> component(terms.push(x), b) == component(terms, b),
        component(terms.push(x), bucket_of(x)) - component(terms, bucket_of(x)) == if x.len() >= 4 {
            2int
        } else {
            1
        } || component(terms.push(x), bucket_of(x)) - component(terms, bucket_of(x)) == if x.len()
            >= 4 {
            -2int
        } else {
            -1
        },
        digest::sha256(vstd::utf8::encode_utf8(x))[4] % 2 == 0 <==> component(
            terms.push(x),
            bucket_of(x),
        ) > component(terms, bucket_of(x)),
{
    assert(terms.push(x).drop_last() =~= terms);
}

} // verus!
