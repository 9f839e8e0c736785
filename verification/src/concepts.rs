//! Concepts that a source names itself: the topics of its headings, and the compound words of its
//! text that end in a word for an allowance, a leave, a procedure and the like.

use vstd::prelude::*;
use vstd::string::*;

use crate::listing;
use crate::pattern;
use crate::tally;
use crate::tally::Tally;
use crate::text;
use crate::text::{CharClass, Text};

verus! {

// ---------------------------------------------------------------------------------------------
// Words

/// The characters of Japanese words.
pub open spec fn is_word_char(c: char) -> bool {
    ||| 0x3040 <= c as u32 <= 0x30ff
    ||| 0x3400 <= c as u32 <= 0x9fff
    ||| 0xf900 <= c as u32 <= 0xfaff
    ||| c == '々'
    ||| c == 'ー'
}

/// Whether a character belongs to a Japanese word.
pub fn is_japanese_word_char(ch: char) -> (r: bool)
    ensures
        r == is_word_char(ch),
{
    let code = ch as u32;
    (0x3040 <= code && code <= 0x30ff) || (0x3400 <= code && code <= 0x9fff) || (0xf900 <= code
        && code <= 0xfaff) || ch == '々' || ch == 'ー'
}

/// The number of word characters at the start of a text.
pub open spec fn word_run(s: Text) -> nat
    decreases s.len(),
{
    if s.len() > 0 && is_word_char(s[0]) {
        1 + word_run(s.skip(1))
    } else {
        0
    }
}

/// A run of word characters lies within the text.
pub proof fn lemma_word_run(s: Text)
    ensures
        word_run(s) <= s.len(),
        forall|i: int| 0 <= i < word_run(s) ==> is_word_char(#[trigger] s[i]),
        word_run(s) < s.len() ==> !is_word_char(s[word_run(s) as int]),
    decreases s.len(),
{
    if s.len() > 0 && is_word_char(s[0]) {
        lemma_word_run(s.skip(1));
        assert forall|i: int| 0 <= i < word_run(s) implies is_word_char(#[trigger] s[i]) by {
            if i > 0 {
                assert(s[i] == s.skip(1)[i - 1]);
            }
        }
    }
}

/// The longest runs of word characters, from left to right.
pub open spec fn segments(s: Text) -> Seq<Text>
    decreases s.len(),
{
    if s.len() == 0 {
        Seq::empty()
    } else if !is_word_char(s[0]) {
        segments(s.skip(1))
    } else {
        proof {
            lemma_word_run(s);
        }
        seq![s.take(word_run(s) as int)] + segments(s.skip(word_run(s) as int))
    }
}

/// The longest runs of word characters, from left to right.
pub fn split_japanese_segments(text: &str) -> (r: Vec<String>)
    ensures
        text::texts(r@) == segments(text@),
{
    let chars = text::chars_of(text);
    let ghost s = text@;
    let mut out: Vec<String> = Vec::new();
    let mut i: usize = 0;
    assert(s.skip(0) =~= s);
    while i < chars.len()
        invariant
            chars@ == s,
            i <= s.len(),
            segments(s) == text::texts(out@) + segments(s.skip(i as int)),
        decreases s.len() - i,
    {
        let ghost rest = s.skip(i as int);
        if !is_japanese_word_char(chars[i]) {
            assert(rest.skip(1) =~= s.skip(i + 1));
            i += 1;
        } else {
            let mut j: usize = i;
            while j < chars.len() && is_japanese_word_char(chars[j])
                invariant
                    chars@ == s,
                    i <= j <= s.len(),
                    word_run(s.skip(i as int)) == j - i + word_run(s.skip(j as int)),
                decreases s.len() - j,
            {
                assert(s.skip(j as int).skip(1) =~= s.skip(j + 1));
                j += 1;
            }
            let ghost done = text::texts(out@);
            let segment = text::text_between(&chars, i, j);
            out.push(segment);
            proof {
                lemma_word_run(rest);
                assert(word_run(rest) == j - i);
                assert(rest.take(j - i) =~= s.subrange(i as int, j as int));
                assert(rest.skip(j - i) =~= s.skip(j as int));
                assert(text::texts(out@) =~= done.push(segment@));
                assert(done + (seq![segment@] + segments(s.skip(j as int))) =~= text::texts(out@)
                    + segments(s.skip(j as int)));
            }
            i = j;
        }
    }
    assert(text::texts(out@) + segments(s.skip(i as int)) =~= text::texts(out@));
    out
}

proof fn lemma_run_before(a: Text, c: char, b: Text)
    requires
        !is_word_char(c),
    ensures
        word_run(a + seq![c] + b) == word_run(a),
    decreases a.len(),
{
    let all = a + seq![c] + b;
    if a.len() > 0 {
        assert(all[0] == a[0]);
        assert(all.skip(1) =~= a.skip(1) + seq![c] + b);
        lemma_run_before(a.skip(1), c, b);
    } else {
        assert(all[0] == c);
    }
}

/// A character of no word separates: the words around it are found one by one.
pub proof fn law_segments_separate(a: Text, c: char, b: Text)
    requires
        !is_word_char(c),
    ensures
        segments(a + seq![c] + b) == segments(a) + segments(b),
    decreases a.len(),
{
    let all = a + seq![c] + b;
    if a.len() == 0 {
        assert(all[0] == c);
        assert(all.skip(1) =~= b);
        assert(segments(a) + segments(b) =~= segments(b));
    } else {
        assert(all[0] == a[0]);
        if !is_word_char(a[0]) {
            assert(all.skip(1) =~= a.skip(1) + seq![c] + b);
            law_segments_separate(a.skip(1), c, b);
        } else {
            lemma_word_run(a);
            lemma_run_before(a, c, b);
            let n = word_run(a) as int;
            assert(all.take(n) =~= a.take(n));
            assert(all.skip(n) =~= a.skip(n) + seq![c] + b);
            law_segments_separate(a.skip(n), c, b);
            assert(segments(all) =~= segments(a) + segments(b));
        }
    }
}

/// The words that end a compound word that names a concept.
pub open spec fn suffix_list() -> Seq<Text> {
    seq![
        "手当"@,
        "休暇"@,
        "休業"@,
        "規程"@,
        "規則"@,
        "制度"@,
        "給与"@,
        "勤務"@,
        "旅費"@,
        "届出"@,
        "申請"@,
        "許可"@,
        "承認"@,
        "控除"@,
        "賞与"@,
        "退職"@,
        "手続"@,
        "補助"@,
        "扶養"@,
    ]
}

/// The words that end a compound word that names a concept.
pub fn concept_suffixes() -> (r: Vec<&'static str>)
    ensures
        Seq::new(r@.len(), |i: int| r@[i]@) == suffix_list(),
{
    let r = vec![
        "手当",
        "休暇",
        "休業",
        "規程",
        "規則",
        "制度",
        "給与",
        "勤務",
        "旅費",
        "届出",
        "申請",
        "許可",
        "承認",
        "控除",
        "賞与",
        "退職",
        "手続",
        "補助",
        "扶養",
    ];
    assert(Seq::new(r@.len(), |i: int| r@[i]@) =~= suffix_list());
    r
}

/// The characters that connect words, which no concept begins with.
pub open spec fn is_connector(c: char) -> bool {
    c == 'の' || c == 'に' || c == 'を' || c == 'は' || c == 'が' || c == 'と' || c == '及' || c == 'び'
        || c == '又'
}

/// The characters after which a concept begins.
pub open spec fn is_boundary(c: char) -> bool {
    is_connector(c) || c == '者' || c == '時' || c == '合'
}

/// Whether a character connects words.
pub fn is_concept_connector(ch: char) -> (r: bool)
    ensures
        r == is_connector(ch),
{
    ch == 'の' || ch == 'に' || ch == 'を' || ch == 'は' || ch == 'が' || ch == 'と' || ch == '及' || ch
        == 'び' || ch == '又'
}

/// Whether a concept begins after a character.
pub fn is_concept_boundary(ch: char) -> (r: bool)
    ensures
        r == is_boundary(ch),
{
    is_concept_connector(ch) || ch == '者' || ch == '時' || ch == '合'
}

/// The most characters of a concept before its suffix.
pub const MAX_STEM_CHARS: usize = 10;

/// The first position from `i` on, and no later than `end`, that holds no connector.
pub open spec fn after_connectors(chars: Text, i: int, end: int) -> int
    decreases end - i,
{
    if i < end && is_connector(chars[i]) {
        after_connectors(chars, i + 1, end)
    } else {
        i
    }
}

/// The position after the last boundary between `from` and `end`, or `from` if there is none.
pub open spec fn after_boundary(chars: Text, from: int, end: int) -> int
    decreases end - from,
{
    if end <= from {
        from
    } else if is_boundary(chars[end - 1]) {
        end
    } else {
        after_boundary(chars, from, end - 1)
    }
}

/// Where the concept whose suffix stands at `suffix_start` begins.
pub open spec fn concept_start(chars: Text, suffix_start: int) -> int {
    let earliest = if suffix_start >= MAX_STEM_CHARS {
        suffix_start - MAX_STEM_CHARS
    } else {
        0
    };
    after_boundary(chars, after_connectors(chars, earliest, suffix_start), suffix_start)
}

/// A concept begins at its suffix or before, by at most the length of a stem.
pub proof fn lemma_concept_start(chars: Text, suffix_start: int)
    requires
        0 <= suffix_start <= chars.len(),
    ensures
        0 <= concept_start(chars, suffix_start) <= suffix_start,
        suffix_start - concept_start(chars, suffix_start) <= MAX_STEM_CHARS,
{
    let earliest = if suffix_start >= MAX_STEM_CHARS {
        suffix_start - MAX_STEM_CHARS
    } else {
        0
    };
    lemma_after_connectors(chars, earliest, suffix_start);
    lemma_after_boundary(chars, after_connectors(chars, earliest, suffix_start), suffix_start);
}

proof fn lemma_after_connectors(chars: Text, i: int, end: int)
    requires
        0 <= i <= end,
    ensures
        i <= after_connectors(chars, i, end) <= end,
    decreases end - i,
{
    if i < end && is_connector(chars[i]) {
        lemma_after_connectors(chars, i + 1, end);
    }
}

proof fn lemma_after_boundary(chars: Text, from: int, end: int)
    requires
        0 <= from <= end,
    ensures
        from <= after_boundary(chars, from, end) <= end,
    decreases end - from,
{
    if end > from && !is_boundary(chars[end - 1]) {
        lemma_after_boundary(chars, from, end - 1);
    }
}

/// Where the concept whose suffix stands at `suffix_start` begins.
pub fn concept_start_index(chars: &[char], suffix_start: usize) -> (r: usize)
    requires
        suffix_start <= chars@.len(),
    ensures
        r == concept_start(chars@, suffix_start as int),
        r <= suffix_start,
{
    let mut start: usize = if suffix_start >= MAX_STEM_CHARS {
        suffix_start - MAX_STEM_CHARS
    } else {
        0
    };
    let ghost earliest = start as int;
    while start < suffix_start && is_concept_connector(chars[start])
        invariant
            start <= suffix_start <= chars@.len(),
            after_connectors(chars@, earliest, suffix_start as int) == after_connectors(
                chars@,
                start as int,
                suffix_start as int,
            ),
        decreases suffix_start - start,
    {
        start += 1;
    }
    let mut idx: usize = suffix_start;
    while idx > start
        invariant
            start <= idx <= suffix_start <= chars@.len(),
            concept_start(chars@, suffix_start as int) == after_boundary(
                chars@,
                start as int,
                idx as int,
            ),
        decreases idx,
    {
        if is_concept_boundary(chars[idx - 1]) {
            return idx;
        }
        idx -= 1;
    }
    start
}

// ---------------------------------------------------------------------------------------------
// Names of concepts

/// The words that no concept begins with.
pub open spec fn dropped_prefixes() -> Seq<Text> {
    seq!["この"@, "その"@, "当該"@, "各"@, "別に定める"@]
}

/// A text without the prefixes of a list, each removed in turn.
pub open spec fn without_prefixes(s: Text, prefixes: Seq<Text>) -> Text
    decreases prefixes.len(),
{
    if prefixes.len() == 0 {
        s
    } else {
        text::without_prefix(without_prefixes(s, prefixes.drop_last()), prefixes.last())
    }
}

/// The name of a concept found in running text.
pub open spec fn content_concept(raw: Text) -> Text {
    without_prefixes(
        text::trimmed(pattern::without_mark(text::trimmed(raw))),
        dropped_prefixes(),
    )
}

/// The name of a concept found in running text.
pub fn normalize_content_concept(raw: &str) -> (r: String)
    ensures
        r@ == content_concept(raw@),
{
    let unmarked = pattern::remove_mark(text::trim(raw));
    let mut name = text::copy_text(text::trim(unmarked.as_str()));
    let ghost base = name@;
    let prefixes: Vec<&'static str> = vec!["この", "その", "当該", "各", "別に定める"];
    let ghost all = dropped_prefixes();
    for i in 0..prefixes.len()
        invariant
            all == dropped_prefixes(),
            prefixes@.len() == all.len(),
            forall|k: int| 0 <= k < all.len() ==> #[trigger] prefixes@[k]@ == all[k],
            name@ == without_prefixes(base, all.take(i as int)),
    {
        name = text::copy_text(text::strip_prefix_repeats(name.as_str(), prefixes[i]));
        proof {
            assert(all.take(i + 1).drop_last() =~= all.take(i as int));
        }
    }
    assert(all.take(all.len() as int) =~= all);
    name
}

/// The words that say nothing of the subject of a question.
pub open spec fn is_stop_word(term: Text) -> bool {
    ||| term == "どう"@
    ||| term == "なっ"@
    ||| term == "なって"@
    ||| term == "います"@
    ||| term == "ます"@
    ||| term == "です"@
    ||| term == "ください"@
    ||| term == "教えて"@
    ||| term == "について"@
    ||| term == "もの"@
    ||| term == "こと"@
    ||| term == "場合"@
    ||| term == "情報"@
    ||| term == "質問"@
    ||| term == "回答"@
    ||| term == "一覧"@
    ||| term == "まとめ"@
    ||| term == "全体"@
    ||| term == "全部"@
    ||| term == "全て"@
    ||| term == "すべて"@
}

/// Whether a word says nothing of the subject of a question.
pub fn is_stop_term(term: &str) -> (r: bool)
    ensures
        r == is_stop_word(term@),
{
    text::same_text(term, "どう") || text::same_text(term, "なっ") || text::same_text(term, "なって")
        || text::same_text(term, "います") || text::same_text(term, "ます") || text::same_text(
        term,
        "です",
    ) || text::same_text(term, "ください") || text::same_text(term, "教えて") || text::same_text(
        term,
        "について",
    ) || text::same_text(term, "もの") || text::same_text(term, "こと") || text::same_text(term, "場合")
        || text::same_text(term, "情報") || text::same_text(term, "質問") || text::same_text(
        term,
        "回答",
    ) || text::same_text(term, "一覧") || text::same_text(term, "まとめ") || text::same_text(
        term,
        "全体",
    ) || text::same_text(term, "全部") || text::same_text(term, "全て") || text::same_text(
        term,
        "すべて",
    )
}

/// The headings that every regulation has.
pub open spec fn is_generic(concept: Text) -> bool {
    ||| concept == "総則"@
    ||| concept == "目的"@
    ||| concept == "定義"@
    ||| concept == "適用範囲"@
    ||| concept == "雑則"@
    ||| concept == "附則"@
    ||| concept == "施行"@
    ||| concept == "改正"@
    ||| concept == "経過措置"@
}

/// Whether a concept is a heading that every regulation has.
pub fn is_generic_concept(concept: &str) -> (r: bool)
    ensures
        r == is_generic(concept@),
{
    text::same_text(concept, "総則") || text::same_text(concept, "目的") || text::same_text(
        concept,
        "定義",
    ) || text::same_text(concept, "適用範囲") || text::same_text(concept, "雑則") || text::same_text(
        concept,
        "附則",
    ) || text::same_text(concept, "施行") || text::same_text(concept, "改正") || text::same_text(
        concept,
        "経過措置",
    )
}

/// The characters of numbered marks.
pub open spec fn is_mark_char(c: char) -> bool {
    c == '第' || c == '章' || c == '節' || c == '条' || c == '項'
}

/// Whether a name can be a concept of the source: of 2 to 18 characters, no stop word, and not made
/// of the characters of numbered marks alone.
pub open spec fn is_source_concept(concept: Text) -> bool {
    &&& 2 <= concept.len() <= 18
    &&& !is_stop_word(concept)
    &&& exists|i: int| 0 <= i < concept.len() && !is_mark_char(#[trigger] concept[i])
}

/// Whether a name can be a concept of the source.
pub fn is_valid_source_concept(concept: &str) -> (r: bool)
    ensures
        r == is_source_concept(concept@),
{
    let chars = text::chars_of(concept);
    if chars.len() < 2 || chars.len() > 18 || is_stop_term(concept) {
        return false;
    }
    for i in 0..chars.len()
        invariant
            chars@ == concept@,
            2 <= chars@.len() <= 18,
            !is_stop_word(concept@),
            forall|k: int| 0 <= k < i ==> is_mark_char(#[trigger] concept@[k]),
    {
        let c = chars[i];
        if !(c == '第' || c == '章' || c == '節' || c == '条' || c == '項') {
            assert(!is_mark_char(concept@[i as int]));
            return true;
        }
    }
    false
}

// ---------------------------------------------------------------------------------------------
// Concepts in running text

/// The name of the concept whose suffix stands at `p`.
pub open spec fn named_at(segment: Text, suffix: Text, p: int) -> Text {
    content_concept(segment.subrange(concept_start(segment, p), p + suffix.len()))
}

/// Whether the suffix stands at `p` and ends the concept `x`.
pub open spec fn names_at(segment: Text, suffix: Text, p: int, x: Text) -> bool {
    text::occurs_at(suffix, segment, p) && is_source_concept(x) && named_at(segment, suffix, p) == x
}

/// How often the concept `x` is named in a segment with the suffix before position `n`.
pub open spec fn count_positions(segment: Text, suffix: Text, n: nat, x: Text) -> nat
    decreases n,
{
    if n == 0 {
        0
    } else {
        let p = (n - 1) as nat;
        count_positions(segment, suffix, p, x) + if names_at(segment, suffix, p as int, x) {
            1nat
        } else {
            0
        }
    }
}

/// How often the concept `x` is named in a segment with the first `k` suffixes.
pub open spec fn count_suffixes(segment: Text, k: nat, x: Text) -> nat
    decreases k,
{
    if k == 0 {
        0
    } else {
        count_suffixes(segment, (k - 1) as nat, x) + count_positions(
            segment,
            suffix_list()[k - 1],
            segment.len(),
            x,
        )
    }
}

/// How often the concept `x` is named in the first `m` segments.
pub open spec fn count_segments(segments: Seq<Text>, m: nat, x: Text) -> nat
    decreases m,
{
    if m == 0 {
        0
    } else {
        count_segments(segments, (m - 1) as nat, x) + count_suffixes(
            segments[m - 1],
            suffix_list().len(),
            x,
        )
    }
}

/// How often the concept `x` is named in a text.
pub open spec fn concept_count(s: Text, x: Text) -> nat {
    count_segments(segments(s), segments(s).len(), x)
}

fn count_in_segment(
    counts: &mut Tally,
    chars: &Vec<char>,
    suffix: &Vec<char>,
    Ghost(base): Ghost<spec_fn(Text) -> nat>,
)
    requires
        old(counts).wf(),
        forall|x: Text| #[trigger] old(counts).at(x) == tally::saturated(base(x)),
    ensures
        final(counts).wf(),
        forall|x: Text| #[trigger]
            final(counts).at(x) == tally::saturated(
                base(x) + count_positions(chars@, suffix@, chars@.len(), x),
            ),
{
    let total = chars.len();
    for p in 0..total
        invariant
            total == chars@.len(),
            counts.wf(),
            forall|x: Text| #[trigger]
                counts.at(x) == tally::saturated(
                    base(x) + count_positions(chars@, suffix@, p as nat, x),
                ),
    {
        let ghost before = *counts;
        let ghost n = (p + 1) as nat;
        let mut named: Option<String> = None;
        if suffix.len() <= total - p && text::stands_at(suffix, chars, p) {
            let end = p + suffix.len();
            proof {
                lemma_concept_start(chars@, p as int);
            }
            let start = concept_start_index(chars, p);
            let raw = text::text_between(chars, start, end);
            let concept = normalize_content_concept(raw.as_str());
            if is_valid_source_concept(concept.as_str()) {
                named = Some(concept);
            }
        }
        match &named {
            Some(concept) => {
                counts.add(concept.as_str(), 1);
                assert(names_at(chars@, suffix@, p as int, concept@));
            },
            None => {
                assert(forall|x: Text| !names_at(chars@, suffix@, p as int, x));
            },
        }
        assert forall|x: Text| #[trigger] counts.at(x) == tally::saturated(
            base(x) + count_positions(chars@, suffix@, n, x),
        ) by {
            assert(before.at(x) == tally::saturated(
                base(x) + count_positions(chars@, suffix@, p as nat, x),
            ));
        }
    }
}

/// The concepts that a text names, each with how often it does.
pub fn content_concept_counts(text: &str) -> (r: Tally)
    ensures
        r.wf(),
        forall|x: Text| #[trigger] r.at(x) == tally::saturated(concept_count(text@, x)),
{
    let parts = split_japanese_segments(text);
    let suffixes = concept_suffixes();
    let ghost all = text::texts(parts@);
    let ghost sufs = suffix_list();
    let mut counts = Tally::new();
    proof {
        assert(forall|i: int| 0 <= i < suffixes@.len() ==> #[trigger] suffixes@[i]@ == Seq::new(
            suffixes@.len(),
            |i: int| suffixes@[i]@,
        )[i]);
    }
    for m in 0..parts.len()
        invariant
            all == text::texts(parts@),
            sufs == suffix_list(),
            suffixes@.len() == sufs.len(),
            forall|i: int| 0 <= i < sufs.len() ==> #[trigger] suffixes@[i]@ == sufs[i],
            counts.wf(),
            forall|x: Text| #[trigger]
                counts.at(x) == tally::saturated(count_segments(all, m as nat, x)),
    {
        let chars = text::chars_of(parts[m].as_str());
        assert(chars@ == all[m as int]);
        for k in 0..suffixes.len()
            invariant
                sufs == suffix_list(),
                suffixes@.len() == sufs.len(),
                forall|i: int| 0 <= i < sufs.len() ==> #[trigger] suffixes@[i]@ == sufs[i],
                counts.wf(),
                forall|x: Text| #[trigger]
                    counts.at(x) == tally::saturated(
                        count_segments(all, m as nat, x) + count_suffixes(chars@, k as nat, x),
                    ),
        {
            let suffix = text::chars_of(suffixes[k]);
            count_in_segment(
                &mut counts,
                &chars,
                &suffix,
                Ghost(
                    |x: Text| count_segments(all, m as nat, x) + count_suffixes(chars@, k as nat, x),
                ),
            );
        }
    }
    counts
}

// ---------------------------------------------------------------------------------------------
// Concepts in headings

/// The most characters of a bracketed title whose brackets are removed.
pub const MAX_BRACKETED_CHARS: usize = 60;

/// A title without the brackets around it.
pub open spec fn without_brackets(s: Text) -> Text {
    if s.len() > 0 && s[0] == '（' && s.last() == '）' && s.len() <= MAX_BRACKETED_CHARS {
        text::trimmed(
            text::trimmed_end(
                text::trimmed_start(s, CharClass::Only('（')),
                CharClass::Only('）'),
            ),
        )
    } else {
        s
    }
}

/// The name of the concept that one heading states.
pub open spec fn heading_concept(raw: Text) -> Text {
    text::trimmed_both(
        text::trimmed(pattern::without_spaced_mark(without_brackets(text::trimmed(raw)))),
        CharClass::Quotes,
    )
}

/// The name of the concept that one heading states: without brackets, numbered mark and quotation
/// marks.
pub fn normalize_heading_concept(raw: &str) -> (r: String)
    ensures
        r@ == heading_concept(raw@),
{
    let trimmed = text::trim(raw);
    let chars = text::chars_of(trimmed);
    let bracketed = chars.len() > 0 && chars[0] == '（' && chars[chars.len() - 1] == '）'
        && chars.len() <= MAX_BRACKETED_CHARS;
    let inner = if bracketed {
        text::trim(
            text::trim_end(
                text::trim_start(trimmed, CharClass::Only('（')),
                CharClass::Only('）'),
            ),
        )
    } else {
        trimmed
    };
    let unmarked = pattern::remove_spaced_mark(inner);
    text::copy_text(text::trim_both(text::trim(unmarked.as_str()), CharClass::Quotes))
}

/// The most characters of a heading's concept.
pub const MAX_HEADING_CONCEPT_CHARS: usize = 50;

/// The concepts that some headings state, in their order, as far as they have an acceptable length.
pub open spec fn stated_concepts(headings: Seq<Text>) -> Seq<Text>
    decreases headings.len(),
{
    if headings.len() == 0 {
        Seq::empty()
    } else {
        let before = stated_concepts(headings.drop_last());
        let concept = heading_concept(headings.last());
        if 2 <= concept.len() <= MAX_HEADING_CONCEPT_CHARS {
            before.push(concept)
        } else {
            before
        }
    }
}

/// The concepts of the headings of a path.
pub open spec fn heading_concepts(path: Text) -> Set<Text> {
    listing::clean_entries(stated_concepts(text::pieces(path, " > "@)))
}

/// The concepts of the headings of a path, distinct and in ascending order.
pub fn concepts_from_heading(heading_path: &str) -> (r: Vec<String>)
    ensures
        listing::lists(text::texts(r@), heading_concepts(heading_path@)),
        text::texts(r@) == listing::listing(heading_concepts(heading_path@)),
{
    proof {
        reveal_strlit(" > ");
    }
    let parts = text::split_on(heading_path, " > ");
    let ghost all = text::pieces(heading_path@, " > "@);
    let mut concepts: Vec<String> = Vec::new();
    for i in 0..parts.len()
        invariant
            text::texts(parts@) == all,
            text::texts(concepts@) == stated_concepts(all.take(i as int)),
    {
        let ghost before = text::texts(concepts@);
        let concept = normalize_heading_concept(parts[i].as_str());
        let count = text::char_count(concept.as_str());
        proof {
            assert(all.take(i + 1).drop_last() =~= all.take(i as int));
            assert(all.take(i + 1).last() == parts@[i as int]@);
        }
        if 2 <= count && count <= MAX_HEADING_CONCEPT_CHARS {
            concepts.push(concept);
            assert(text::texts(concepts@) =~= before.push(concept@));
        }
    }
    assert(all.take(all.len() as int) =~= all);
    listing::normalize_string_list(&mut concepts);
    concepts
}

/// Whether a heading path mentions a concept.
pub fn heading_mentions_concept(heading_path: &str, concept: &str) -> (r: bool)
    ensures
        r == (!text::is_blank(concept@) && text::occurs_in(concept@, heading_path@)),
{
    !text::blank(concept) && text::contains(heading_path, concept)
}

// ---------------------------------------------------------------------------------------------
// Where concepts come from

proof fn lemma_segment_occurs(s: Text, i: int)
    requires
        0 <= i < segments(s).len(),
    ensures
        text::occurs_in(segments(s)[i], s),
    decreases s.len(),
{
    if !is_word_char(s[0]) {
        lemma_segment_occurs(s.skip(1), i);
        text::lemma_skip_occurs(s, 1);
        text::lemma_occurs_transitive(segments(s)[i], s.skip(1), s);
    } else {
        lemma_word_run(s);
        let n = word_run(s) as int;
        if i == 0 {
            assert(s.take(n) =~= s.subrange(0, n));
            text::lemma_range_occurs(s, 0, n);
        } else {
            lemma_segment_occurs(s.skip(n), i - 1);
            text::lemma_skip_occurs(s, n);
            text::lemma_occurs_transitive(segments(s)[i], s.skip(n), s);
        }
    }
}

proof fn lemma_without_prefixes_occurs(s: Text, prefixes: Seq<Text>)
    ensures
        text::occurs_in(without_prefixes(s, prefixes), s),
    decreases prefixes.len(),
{
    if prefixes.len() == 0 {
        text::lemma_occurs_self(s);
    } else {
        let before = without_prefixes(s, prefixes.drop_last());
        lemma_without_prefixes_occurs(s, prefixes.drop_last());
        text::lemma_without_prefix_occurs(before, prefixes.last());
        text::lemma_occurs_transitive(without_prefixes(s, prefixes), before, s);
    }
}

proof fn lemma_content_concept_occurs(raw: Text)
    ensures
        text::occurs_in(content_concept(raw), raw),
{
    let a = text::trimmed(raw);
    let b = pattern::without_mark(a);
    let c = text::trimmed(b);
    text::lemma_trimmed_both_occurs(raw, CharClass::WhiteSpace);
    pattern::lemma_without_mark_occurs(a);
    text::lemma_occurs_transitive(b, a, raw);
    text::lemma_trimmed_both_occurs(b, CharClass::WhiteSpace);
    text::lemma_occurs_transitive(c, b, raw);
    lemma_without_prefixes_occurs(c, dropped_prefixes());
    text::lemma_occurs_transitive(content_concept(raw), c, raw);
}

proof fn lemma_counted_position(segment: Text, suffix: Text, n: nat, x: Text)
    requires
        n <= segment.len(),
        count_positions(segment, suffix, n, x) > 0,
    ensures
        text::occurs_in(x, segment),
    decreases n,
{
    let p = n - 1;
    if names_at(segment, suffix, p, x) {
        lemma_concept_start(segment, p);
        let raw = segment.subrange(concept_start(segment, p), p + suffix.len());
        text::lemma_range_occurs(segment, concept_start(segment, p), (p + suffix.len()) as int);
        lemma_content_concept_occurs(raw);
        text::lemma_occurs_transitive(x, raw, segment);
    } else {
        lemma_counted_position(segment, suffix, p as nat, x);
    }
}

proof fn lemma_counted_suffix(segment: Text, k: nat, x: Text)
    requires
        count_suffixes(segment, k, x) > 0,
    ensures
        text::occurs_in(x, segment),
    decreases k,
{
    if count_suffixes(segment, (k - 1) as nat, x) > 0 {
        lemma_counted_suffix(segment, (k - 1) as nat, x);
    } else {
        lemma_counted_position(segment, suffix_list()[k - 1], segment.len(), x);
    }
}

proof fn lemma_counted_segment(s: Text, m: nat, x: Text)
    requires
        m <= segments(s).len(),
        count_segments(segments(s), m, x) > 0,
    ensures
        text::occurs_in(x, s),
    decreases m,
{
    if count_segments(segments(s), (m - 1) as nat, x) > 0 {
        lemma_counted_segment(s, (m - 1) as nat, x);
    } else {
        lemma_counted_suffix(segments(s)[m - 1], suffix_list().len(), x);
        lemma_segment_occurs(s, m - 1);
        text::lemma_occurs_transitive(x, segments(s)[m - 1], s);
    }
}

/// A concept that a text names stands in the text, word for word.
pub proof fn law_named_concepts_occur(s: Text, x: Text)
    requires
        concept_count(s, x) > 0,
    ensures
        text::occurs_in(x, s),
{
    lemma_counted_segment(s, segments(s).len(), x);
}

proof fn lemma_segment_chars(s: Text, i: int, k: int)
    requires
        0 <= i < segments(s).len(),
        0 <= k < segments(s)[i].len(),
    ensures
        is_word_char(segments(s)[i][k]),
    decreases s.len(),
{
    if !is_word_char(s[0]) {
        lemma_segment_chars(s.skip(1), i, k);
    } else {
        lemma_word_run(s);
        let n = word_run(s) as int;
        if i > 0 {
            assert(segments(s)[i] == segments(s.skip(n))[i - 1]);
            lemma_segment_chars(s.skip(n), i - 1, k);
        } else {
            assert(segments(s)[0] == s.take(n));
        }
    }
}

proof fn lemma_named_in_segment(s: Text, m: nat, x: Text)
    requires
        m <= segments(s).len(),
        count_segments(segments(s), m, x) > 0,
    ensures
        exists|i: int| 0 <= i < segments(s).len() && text::occurs_in(x, #[trigger] segments(s)[i]),
    decreases m,
{
    if count_segments(segments(s), (m - 1) as nat, x) > 0 {
        lemma_named_in_segment(s, (m - 1) as nat, x);
    } else {
        lemma_counted_suffix(segments(s)[m - 1], suffix_list().len(), x);
    }
}

/// A concept that a text names has no white space at its ends.
pub proof fn lemma_named_concept_trimmed(s: Text, x: Text)
    requires
        concept_count(s, x) > 0,
    ensures
        text::trimmed(x) == x,
{
    lemma_named_in_segment(s, segments(s).len(), x);
    let i = choose|i: int|
        0 <= i < segments(s).len() && text::occurs_in(x, #[trigger] segments(s)[i]);
    let segment = segments(s)[i];
    let p = choose|p: int| text::occurs_at(x, segment, p);
    if x.len() > 0 {
        lemma_segment_chars(s, i, p);
        lemma_segment_chars(s, i, p + x.len() - 1);
        assert(segment.subrange(p, p + x.len())[0] == segment[p]);
        assert(segment.subrange(p, p + x.len())[x.len() - 1] == segment[p + x.len() - 1]);
    }
}

/// A concept of a heading path has no white space at its ends.
pub proof fn lemma_heading_concept_trimmed(path: Text, x: Text)
    requires
        heading_concepts(path).contains(x),
    ensures
        text::trimmed(x) == x,
{
    let items = stated_concepts(text::pieces(path, " > "@));
    let k = choose|k: int| 0 <= k < items.len() && text::trimmed(#[trigger] items[k]) == x;
    text::lemma_trimmed_twice(items[k]);
}

proof fn lemma_heading_concept_occurs(raw: Text)
    ensures
        text::occurs_in(heading_concept(raw), raw),
{
    let a = text::trimmed(raw);
    let b = without_brackets(a);
    let c = pattern::without_spaced_mark(b);
    let d = text::trimmed(c);
    text::lemma_trimmed_both_occurs(raw, CharClass::WhiteSpace);
    let opened = text::trimmed_start(a, CharClass::Only('（'));
    let closed_off = text::trimmed_end(opened, CharClass::Only('）'));
    text::lemma_trimmed_start_occurs(a, CharClass::Only('（'));
    text::lemma_trimmed_end_occurs(opened, CharClass::Only('）'));
    text::lemma_trimmed_both_occurs(closed_off, CharClass::WhiteSpace);
    text::lemma_occurs_transitive(closed_off, opened, a);
    text::lemma_occurs_transitive(text::trimmed(closed_off), closed_off, a);
    text::lemma_occurs_self(a);
    text::lemma_occurs_transitive(b, a, raw);
    pattern::lemma_without_spaced_mark_occurs(b);
    text::lemma_occurs_transitive(c, b, raw);
    text::lemma_trimmed_both_occurs(c, CharClass::WhiteSpace);
    text::lemma_occurs_transitive(d, c, raw);
    text::lemma_trimmed_both_occurs(d, CharClass::Quotes);
    text::lemma_occurs_transitive(heading_concept(raw), d, raw);
}

proof fn lemma_stated_concept(headings: Seq<Text>, k: int)
    requires
        0 <= k < stated_concepts(headings).len(),
    ensures
        exists|i: int|
            0 <= i < headings.len() && heading_concept(#[trigger] headings[i]) == stated_concepts(
                headings,
            )[k],
    decreases headings.len(),
{
    let before = stated_concepts(headings.drop_last());
    if k < before.len() {
        lemma_stated_concept(headings.drop_last(), k);
        let i = choose|i: int|
            0 <= i < headings.drop_last().len() && heading_concept(
                #[trigger] headings.drop_last()[i],
            ) == before[k];
        assert(headings[i] == headings.drop_last()[i]);
    } else {
        assert(heading_concept(headings[headings.len() - 1]) == stated_concepts(headings)[k]);
    }
}

/// A concept of a heading path stands in the path, word for word.
pub proof fn law_heading_concepts_occur(path: Text, x: Text)
    requires
        heading_concepts(path).contains(x),
    ensures
        text::occurs_in(x, path),
{
    let headings = text::pieces(path, " > "@);
    let stated = stated_concepts(headings);
    let k = choose|k: int| 0 <= k < stated.len() && text::trimmed(#[trigger] stated[k]) == x;
    lemma_stated_concept(headings, k);
    let i = choose|i: int|
        0 <= i < headings.len() && heading_concept(#[trigger] headings[i]) == stated[k];
    text::lemma_pieces_occur(path, " > "@, i);
    lemma_heading_concept_occurs(headings[i]);
    text::lemma_occurs_transitive(stated[k], headings[i], path);
    text::lemma_trimmed_both_occurs(stated[k], CharClass::WhiteSpace);
    text::lemma_occurs_transitive(x, stated[k], path);
}

// ---------------------------------------------------------------------------------------------
// The main concepts of a document

/// What a heading's concept counts, compared with one mention in the text.
pub const HEADING_TOPIC_SCORE: u64 = 3;

/// What `x` scores in one text with its heading.
pub open spec fn topic_score(heading: Text, content: Text, x: Text) -> nat {
    if is_generic(x) {
        0
    } else {
        (if heading_concepts(heading).contains(x) {
            HEADING_TOPIC_SCORE as nat
        } else {
            0
        }) + concept_count(content, x)
    }
}

/// What `x` scores in some texts with their headings.
pub open spec fn topic_total(texts: Seq<(Text, Text)>, x: Text) -> nat
    decreases texts.len(),
{
    if texts.len() == 0 {
        0
    } else {
        topic_total(texts.drop_last(), x) + topic_score(texts.last().0, texts.last().1, x)
    }
}

/// The scores of concepts in some texts with their headings.
pub open spec fn topic_scores(texts: Seq<(Text, Text)>) -> spec_fn(Text) -> nat {
    |x: Text| tally::saturated(topic_total(texts, x))
}

/// The concepts of highest score, as a cleaned list.
pub open spec fn top_concepts(texts: Seq<(Text, Text)>, limit: nat) -> Seq<Text> {
    listing::cleaned(listing::listing(tally::leaders(topic_scores(texts), limit)))
}

/// The contents of headings and texts.
pub open spec fn text_pairs(items: Seq<(&str, &str)>) -> Seq<(Text, Text)> {
    Seq::new(items.len(), |i: int| (items[i].0@, items[i].1@))
}

fn score_topics(
    scores: &mut Tally,
    heading: &str,
    content: &str,
    Ghost(base): Ghost<spec_fn(Text) -> nat>,
)
    requires
        old(scores).wf(),
        forall|x: Text| #[trigger] old(scores).at(x) == tally::saturated(base(x)),
    ensures
        final(scores).wf(),
        forall|x: Text| #[trigger]
            final(scores).at(x) == tally::saturated(base(x) + topic_score(heading@, content@, x)),
{
    let concepts = concepts_from_heading(heading);
    let ghost by_heading = |x: Text|
        if is_generic(x) {
            0
        } else {
            HEADING_TOPIC_SCORE as nat
        };
    let mut amounts: Vec<u64> = Vec::new();
    for i in 0..concepts.len()
        invariant
            by_heading == (|x: Text|
                if is_generic(x) {
                    0
                } else {
                    HEADING_TOPIC_SCORE as nat
                }),
            amounts@.len() == i,
            forall|k: int|
                0 <= k < i ==> #[trigger] amounts@[k] as nat == tally::saturated(
                    by_heading(concepts@[k]@),
                ),
    {
        let amount: u64 = if is_generic_concept(concepts[i].as_str()) {
            0
        } else {
            HEADING_TOPIC_SCORE
        };
        amounts.push(amount);
    }
    scores.add_each(&concepts, &amounts, Ghost(base), Ghost(by_heading));
    let counts = content_concept_counts(content);
    let ghost by_count = |x: Text|
        if is_generic(x) {
            0
        } else {
            concept_count(content@, x)
        };
    let mut amounts: Vec<u64> = Vec::new();
    let names = counts.terms();
    for i in 0..names.len()
        invariant
            by_count == (|x: Text|
                if is_generic(x) {
                    0
                } else {
                    concept_count(content@, x)
                }),
            counts.wf(),
            forall|x: Text| #[trigger] counts.at(x) == tally::saturated(concept_count(content@, x)),
            text::texts(names@) == counts.names(),
            amounts@.len() == i,
            forall|k: int|
                0 <= k < i ==> #[trigger] amounts@[k] as nat == tally::saturated(
                    by_count(names@[k]@),
                ),
    {
        assert(counts.names()[i as int] == names@[i as int]@);
        let amount: u64 = if is_generic_concept(names[i].as_str()) {
            0
        } else {
            counts.score(i)
        };
        amounts.push(amount);
    }
    let ghost middle = |x: Text|
        base(x) + if text::texts(concepts@).contains(x) {
            by_heading(x)
        } else {
            0
        };
    scores.add_each(names, &amounts, Ghost(middle), Ghost(by_count));
    proof {
        counts.lemma_names();
        assert forall|x: Text| #[trigger] scores.at(x) == tally::saturated(
            base(x) + topic_score(heading@, content@, x),
        ) by {
            assert(text::texts(concepts@).contains(x) <==> heading_concepts(heading@).contains(x));
            assert(counts.names().contains(x) <==> Set::new(|x: Text| counts.at(x) > 0).contains(x));
        }
    }
}

/// The concepts that some texts with their headings name most, at most `limit` of them: those of a
/// higher score first, and where the scores are equal by text order.
pub fn top_concepts_from_texts(texts: &[(&str, &str)], limit: usize) -> (r: Vec<String>)
    ensures
        text::texts(r@) == top_concepts(text_pairs(texts@), limit as nat),
        listing::lists(
            listing::listing(tally::leaders(topic_scores(text_pairs(texts@)), limit as nat)),
            tally::leaders(topic_scores(text_pairs(texts@)), limit as nat),
        ),
        r@.len() <= limit,
        forall|i: int|
            0 <= i < r@.len() ==> stands_in(text_pairs(texts@), #[trigger] r@[i]@) && !is_generic(
                r@[i]@,
            ),
{
    let ghost all = text_pairs(texts@);
    let mut scores = Tally::new();
    for i in 0..texts.len()
        invariant
            all == text_pairs(texts@),
            scores.wf(),
            forall|x: Text| #[trigger]
                scores.at(x) == tally::saturated(topic_total(all.take(i as int), x)),
    {
        let ghost done = all.take(i as int);
        score_topics(
            &mut scores,
            texts[i].0,
            texts[i].1,
            Ghost(|x: Text| topic_total(done, x)),
        );
        proof {
            assert(all.take(i + 1).drop_last() =~= done);
            assert(all.take(i + 1).last() == all[i as int]);
        }
    }
    let mut out = scores.top(limit);
    proof {
        assert(all.take(all.len() as int) =~= all);
        assert(scores.score_fn() =~= topic_scores(all));
    }
    let ghost best = text::texts(out@);
    listing::normalize_string_list(&mut out);
    proof {
        let after = text::texts(out@);
        listing::lemma_cleaned_len(best, after);
        assert forall|i: int| 0 <= i < out@.len() implies stands_in(all, #[trigger] out@[i]@)
            && !is_generic(out@[i]@) by {
            let x = out@[i]@;
            assert(after[i] == x);
            assert(after.contains(x));
            let k = choose|k: int| 0 <= k < best.len() && text::trimmed(#[trigger] best[k]) == x;
            assert(best.contains(best[k]));
            law_topics_occur(all, best[k]);
            lemma_topic_name(all, best[k]);
            let t = choose|t: int|
                0 <= t < all.len() && (text::occurs_in(best[k], (#[trigger] all[t]).0)
                    || text::occurs_in(best[k], all[t].1));
            text::lemma_trimmed_both_occurs(best[k], CharClass::WhiteSpace);
            if text::occurs_in(best[k], all[t].0) {
                text::lemma_occurs_transitive(x, best[k], all[t].0);
            } else {
                text::lemma_occurs_transitive(x, best[k], all[t].1);
            }
        }
    }
    out
}

/// What scores is trimmed, and no heading that every regulation has.
proof fn lemma_topic_name(texts: Seq<(Text, Text)>, x: Text)
    requires
        topic_total(texts, x) > 0,
    ensures
        text::trimmed(x) == x,
        !is_generic(x),
    decreases texts.len(),
{
    if topic_total(texts.drop_last(), x) > 0 {
        lemma_topic_name(texts.drop_last(), x);
    } else {
        let last = texts.last();
        if heading_concepts(last.0).contains(x) {
            lemma_heading_concept_trimmed(last.0, x);
        } else {
            lemma_named_concept_trimmed(last.1, x);
        }
    }
}

/// Whether a text stands, word for word, in one of some headings or texts.
pub open spec fn stands_in(texts: Seq<(Text, Text)>, x: Text) -> bool {
    exists|i: int|
        0 <= i < texts.len() && (text::occurs_in(x, (#[trigger] texts[i]).0) || text::occurs_in(
            x,
            texts[i].1,
        ))
}

/// A concept that scores stands in one of the headings or texts, word for word.
pub proof fn law_topics_occur(texts: Seq<(Text, Text)>, x: Text)
    requires
        topic_total(texts, x) > 0,
    ensures
        stands_in(texts, x),
    decreases texts.len(),
{
    let before = texts.drop_last();
    if topic_total(before, x) > 0 {
        law_topics_occur(before, x);
        let i = choose|i: int|
            0 <= i < before.len() && (text::occurs_in(x, (#[trigger] before[i]).0)
                || text::occurs_in(x, before[i].1));
        assert(texts[i] == before[i]);
    } else {
        let last = texts.last();
        if heading_concepts(last.0).contains(x) {
            law_heading_concepts_occur(last.0, x);
        } else {
            law_named_concepts_occur(last.1, x);
        }
        assert(texts[texts.len() - 1] == last);
    }
}

// ---------------------------------------------------------------------------------------------
// Where concepts begin

proof fn lemma_connectors_passed(chars: Text, i: int, end: int)
    requires
        0 <= i <= end,
    ensures
        i <= after_connectors(chars, i, end) <= end,
        after_connectors(chars, i, end) > i ==> is_connector(
            chars[after_connectors(chars, i, end) - 1],
        ),
    decreases end - i,
{
    if i < end && is_connector(chars[i]) {
        lemma_connectors_passed(chars, i + 1, end);
    }
}

proof fn lemma_boundary_passed(chars: Text, from: int, end: int)
    requires
        0 <= from <= end,
    ensures
        from <= after_boundary(chars, from, end) <= end,
        after_boundary(chars, from, end) > from ==> is_boundary(
            chars[after_boundary(chars, from, end) - 1],
        ),
        forall|k: int|
            after_boundary(chars, from, end) <= k < end ==> !is_boundary(#[trigger] chars[k]),
    decreases end - from,
{
    if end > from && !is_boundary(chars[end - 1]) {
        lemma_boundary_passed(chars, from, end - 1);
    }
}

/// No particle stands between where a concept begins and its suffix, nor 者, 時 or 合. A concept has at
/// most ten characters before its suffix, and begins where the text begins, ten characters before the
/// suffix, or directly behind one of those characters.
pub proof fn law_stem_holds_no_particle(chars: Text, suffix_start: int)
    requires
        0 <= suffix_start <= chars.len(),
    ensures
        ({
            let start = concept_start(chars, suffix_start);
            &&& 0 <= start <= suffix_start <= start + 10
            &&& forall|k: int|
                start <= k < suffix_start ==> !"のにをはがと及び又者時合"@.contains(#[trigger] chars[k])
            &&& start == 0 || start == suffix_start - 10 || "のにをはがと及び又者時合"@.contains(
                chars[start - 1],
            )
        }),
{
    reveal_strlit("のにをはがと及び又者時合");
    let particles = "のにをはがと及び又者時合"@;
    let earliest = if suffix_start >= 10 {
        suffix_start - 10
    } else {
        0
    };
    let from = after_connectors(chars, earliest, suffix_start);
    let start = concept_start(chars, suffix_start);
    lemma_connectors_passed(chars, earliest, suffix_start);
    lemma_boundary_passed(chars, from, suffix_start);
    assert forall|k: int| start <= k < suffix_start implies !particles.contains(
        #[trigger] chars[k],
    ) by {
        assert(!is_boundary(chars[k]));
    }
    if start > 0 && start != suffix_start - 10 {
        let c = chars[start - 1];
        assert(is_boundary(c));
        assert(particles[0] == 'の' && particles[1] == 'に' && particles[2] == 'を' && particles[3]
            == 'は' && particles[4] == 'が' && particles[5] == 'と' && particles[6] == '及'
            && particles[7] == 'び' && particles[8] == '又' && particles[9] == '者' && particles[10]
            == '時' && particles[11] == '合');
    }
}

/// A suffix that directly follows one word after a particle names that word and the suffix alone.
pub proof fn law_word_after_particle(before: Text, particle: char, word: Text, suffix: Text, rest: Text)
    requires
        "のにをはがと及び又者時合"@.contains(particle),
        forall|k: int|
            0 <= k < word.len() ==> !"のにをはがと及び又者時合"@.contains(#[trigger] word[k]),
        word.len() <= 10,
    ensures
        named_at(
            before + seq![particle] + word + suffix + rest,
            suffix,
            (before.len() + 1 + word.len()) as int,
        ) == content_concept(word + suffix),
{
    let all = before + seq![particle] + word + suffix + rest;
    let p = (before.len() + 1 + word.len()) as int;
    let begin = before.len() + 1;
    law_stem_holds_no_particle(all, p);
    let start = concept_start(all, p);
    assert(all[before.len() as int] == particle);
    assert forall|k: int| begin <= k < p implies all[k] == word[k - begin] by {}
    if start <= before.len() {
        assert(!"のにをはがと及び又者時合"@.contains(all[before.len() as int]));
    }
    if start > begin {
        assert(all[start - 1] == word[start - 1 - begin]);
    }
    assert(start == begin);
    assert(all.subrange(start, p + suffix.len()) =~= word + suffix);
}

proof fn lemma_position_counts(segment: Text, suffix: Text, n: nat, p: int, x: Text)
    requires
        0 <= p < n,
        names_at(segment, suffix, p, x),
    ensures
        count_positions(segment, suffix, n, x) > 0,
    decreases n,
{
    if p < n - 1 {
        lemma_position_counts(segment, suffix, (n - 1) as nat, p, x);
    }
}

proof fn lemma_suffix_counts(segment: Text, k: nat, i: int, x: Text)
    requires
        0 <= i < k,
        count_positions(segment, suffix_list()[i], segment.len(), x) > 0,
    ensures
        count_suffixes(segment, k, x) > 0,
    decreases k,
{
    if i < k - 1 {
        lemma_suffix_counts(segment, (k - 1) as nat, i, x);
    }
}

proof fn lemma_segment_counts(all: Seq<Text>, m: nat, i: int, x: Text)
    requires
        0 <= i < m <= all.len(),
        count_suffixes(all[i], suffix_list().len(), x) > 0,
    ensures
        count_segments(all, m, x) > 0,
    decreases m,
{
    if i < m - 1 {
        lemma_segment_counts(all, (m - 1) as nat, i, x);
    }
}

/// Every concept that a text names is found: wherever one of the suffixes stands in a word of the text,
/// what it names there is counted, unless it is no name at all.
pub proof fn law_named_concepts_are_found(s: Text, i: int, suffix: Text, p: int)
    requires
        0 <= i < segments(s).len(),
        seq![
            "手当"@,
            "休暇"@,
            "休業"@,
            "規程"@,
            "規則"@,
            "制度"@,
            "給与"@,
            "勤務"@,
            "旅費"@,
            "届出"@,
            "申請"@,
            "許可"@,
            "承認"@,
            "控除"@,
            "賞与"@,
            "退職"@,
            "手続"@,
            "補助"@,
            "扶養"@,
        ].contains(suffix),
        text::occurs_at(suffix, segments(s)[i], p),
        is_source_concept(named_at(segments(s)[i], suffix, p)),
    ensures
        concept_count(s, named_at(segments(s)[i], suffix, p)) > 0,
{
    let segment = segments(s)[i];
    let x = named_at(segment, suffix, p);
    reveal_strlit("手当");
    reveal_strlit("休暇");
    reveal_strlit("休業");
    reveal_strlit("規程");
    reveal_strlit("規則");
    reveal_strlit("制度");
    reveal_strlit("給与");
    reveal_strlit("勤務");
    reveal_strlit("旅費");
    reveal_strlit("届出");
    reveal_strlit("申請");
    reveal_strlit("許可");
    reveal_strlit("承認");
    reveal_strlit("控除");
    reveal_strlit("賞与");
    reveal_strlit("退職");
    reveal_strlit("手続");
    reveal_strlit("補助");
    reveal_strlit("扶養");
    assert(suffix_list().contains(suffix));
    let j = choose|j: int| 0 <= j < suffix_list().len() && suffix_list()[j] == suffix;
    assert(suffix.len() == 2);
    lemma_position_counts(segment, suffix, segment.len(), p, x);
    lemma_suffix_counts(segment, suffix_list().len(), j, x);
    lemma_segment_counts(segments(s), segments(s).len(), i, x);
}

/// The headings of the frame of a regulation are no topics, however often they occur.
pub proof fn law_frame_is_no_topic(texts: Seq<(Text, Text)>, x: Text)
    requires
        seq![
            "総則"@,
            "目的"@,
            "定義"@,
            "適用範囲"@,
            "雑則"@,
            "附則"@,
            "施行"@,
            "改正"@,
            "経過措置"@,
        ].contains(x),
    ensures
        topic_total(texts, x) == 0,
    decreases texts.len(),
{
    if texts.len() > 0 {
        law_frame_is_no_topic(texts.drop_last(), x);
    }
}

/// A concept of a heading weighs as much as three mentions in the text below it, and every mention
/// counts once.
pub proof fn law_topic_scores(heading: Text, content: Text, x: Text)
    requires
        !is_generic(x),
    ensures
        topic_score(heading, content, x) == concept_count(content, x) + if heading_concepts(
            heading,
        ).contains(x) {
            3nat
        } else {
            0
        },
{
}

/// A name has between two and eighteen characters, and is more than a mark of a chapter or an article.
pub proof fn law_names_say_something(s: Text, x: Text)
    requires
        concept_count(s, x) > 0,
    ensures
        2 <= x.len() <= 18,
        exists|i: int|
            0 <= i < x.len() && !"第章節条項"@.contains(#[trigger] x[i]),
        !seq!["場合"@, "情報"@, "質問"@, "回答"@, "一覧"@, "まとめ"@, "全体"@, "こと"@, "もの"@].contains(x),
{
    lemma_counted_is_concept(s, segments(s).len(), x);
    reveal_strlit("第章節条項");
    let i = choose|i: int| 0 <= i < x.len() && !is_mark_char(#[trigger] x[i]);
    assert(!"第章節条項"@.contains(x[i]));
}

proof fn lemma_counted_is_concept(s: Text, m: nat, x: Text)
    requires
        m <= segments(s).len(),
        count_segments(segments(s), m, x) > 0,
    ensures
        is_source_concept(x),
    decreases m,
{
    if count_segments(segments(s), (m - 1) as nat, x) > 0 {
        lemma_counted_is_concept(s, (m - 1) as nat, x);
    } else {
        lemma_suffixed_is_concept(segments(s)[m - 1], suffix_list().len(), x);
    }
}

proof fn lemma_suffixed_is_concept(segment: Text, k: nat, x: Text)
    requires
        count_suffixes(segment, k, x) > 0,
    ensures
        is_source_concept(x),
    decreases k,
{
    if count_suffixes(segment, (k - 1) as nat, x) > 0 {
        lemma_suffixed_is_concept(segment, (k - 1) as nat, x);
    } else {
        lemma_placed_is_concept(segment, suffix_list()[k - 1], segment.len(), x);
    }
}

proof fn lemma_placed_is_concept(segment: Text, suffix: Text, n: nat, x: Text)
    requires
        count_positions(segment, suffix, n, x) > 0,
    ensures
        is_source_concept(x),
    decreases n,
{
    if !names_at(segment, suffix, n - 1, x) {
        lemma_placed_is_concept(segment, suffix, (n - 1) as nat, x);
    }
}

// ---------------------------------------------------------------------------------------------
// Words and topics

/// Hiragana, katakana and ideographs belong to words; Latin characters, white space and Japanese
/// punctuation do not.
pub proof fn law_word_characters(c: char)
    ensures
        0x3040 <= c as u32 <= 0x30ff ==> is_word_char(c),
        0x3400 <= c as u32 <= 0x9fff ==> is_word_char(c),
        0xf900 <= c as u32 <= 0xfaff ==> is_word_char(c),
        c == '々' || c == 'ー' ==> is_word_char(c),
        (c as u32) < 0x3005 ==> !is_word_char(c),
        0x3006 <= c as u32 <= 0x303f ==> !is_word_char(c),
        0xff00 <= c as u32 <= 0xffef ==> !is_word_char(c),
        is_word_char(c) ==> !text::is_white_space(c),
{
}

/// A text of word characters alone is one word.
pub proof fn law_one_word(word: Text)
    requires
        word.len() > 0,
        forall|i: int| 0 <= i < word.len() ==> is_word_char(#[trigger] word[i]),
    ensures
        segments(word) == seq![word],
{
    lemma_word_run(word);
    let n = word_run(word) as int;
    if n < word.len() {
        assert(is_word_char(word[n]));
    }
    assert(word.take(n) =~= word);
    assert(word.skip(n) =~= Seq::<char>::empty());
    assert(segments(word.skip(n)).len() == 0);
    assert(segments(word) =~= seq![word]);
}

proof fn lemma_dropped(s: Text)
    ensures
        without_prefixes(s, dropped_prefixes()) == text::without_prefix(
            text::without_prefix(
                text::without_prefix(
                    text::without_prefix(text::without_prefix(s, "この"@), "その"@),
                    "当該"@,
                ),
                "各"@,
            ),
            "別に定める"@,
        ),
{
    let all = dropped_prefixes();
    let four = all.drop_last();
    let three = four.drop_last();
    let two = three.drop_last();
    let one = two.drop_last();
    assert(one.drop_last() =~= Seq::<Text>::empty());
    assert(all.last() == "別に定める"@);
    assert(four.last() == "各"@);
    assert(three.last() == "当該"@);
    assert(two.last() == "その"@);
    assert(one.last() == "この"@);
    reveal_with_fuel(without_prefixes, 6);
}

proof fn lemma_not_begun(s: Text, prefix: Text)
    requires
        s.len() > 0,
        prefix.len() > 0,
        s[0] != prefix[0],
    ensures
        text::without_prefix(s, prefix) == s,
{
    if text::begins_with(s, prefix) {
        assert(s.subrange(0, prefix.len() as int)[0] == s[0]);
    }
}

/// A word that points at something is no part of a concept's name: a concept is named without この,
/// その, 当該, 各 and 別に定める before it, and otherwise as it stands.
pub proof fn law_pointing_words(prefix: Text, x: Text)
    requires
        prefix == "この"@ || prefix == "その"@ || prefix == "当該"@ || prefix == "各"@ || prefix
            == "別に定める"@,
        x.len() > 0,
        !text::is_white_space(x[0]),
        !text::is_white_space(x.last()),
        !"第こそ当各別"@.contains(x[0]),
    ensures
        content_concept(prefix + x) == x,
        content_concept(x) == x,
{
    reveal_strlit("この");
    reveal_strlit("その");
    reveal_strlit("当該");
    reveal_strlit("各");
    reveal_strlit("別に定める");
    reveal_strlit("第こそ当各別");
    let firsts = "第こそ当各別"@;
    assert(firsts[0] == '第' && firsts[1] == 'こ' && firsts[2] == 'そ' && firsts[3] == '当' && firsts[4]
        == '各' && firsts[5] == '別');
    assert(x[0] != '第' && x[0] != 'こ' && x[0] != 'そ' && x[0] != '当' && x[0] != '各' && x[0] != '別');
    let whole = prefix + x;
    assert(whole[0] == prefix[0]);
    assert(whole.last() == x.last());
    text::lemma_trimmed_by_ends(x);
    text::lemma_trimmed_by_ends(whole);
    lemma_dropped(x);
    lemma_dropped(whole);
    lemma_not_begun(x, "この"@);
    lemma_not_begun(x, "その"@);
    lemma_not_begun(x, "当該"@);
    lemma_not_begun(x, "各"@);
    lemma_not_begun(x, "別に定める"@);
    text::law_without_prefix(x, prefix);
    if prefix == "この"@ {
    } else if prefix == "その"@ {
        lemma_not_begun(whole, "この"@);
    } else if prefix == "当該"@ {
        lemma_not_begun(whole, "この"@);
        lemma_not_begun(whole, "その"@);
    } else if prefix == "各"@ {
        lemma_not_begun(whole, "この"@);
        lemma_not_begun(whole, "その"@);
        lemma_not_begun(whole, "当該"@);
    } else {
        lemma_not_begun(whole, "この"@);
        lemma_not_begun(whole, "その"@);
        lemma_not_begun(whole, "当該"@);
        lemma_not_begun(whole, "各"@);
    }
}

proof fn lemma_topic_unquoted(topic: Text)
    requires
        topic.len() > 0,
        !"「」\"' \t"@.contains(topic[0]),
        !"「」\"' \t"@.contains(topic.last()),
    ensures
        text::trimmed_both(topic, CharClass::Quotes) == topic,
{
    text::law_quotes(topic[0]);
    text::law_quotes(topic.last());
}

/// The concept of a numbered heading is its title, and that of a title in brackets is what stands in
/// the brackets; any other heading is its own concept.
pub proof fn law_heading_topics(digits: Text, unit: char, topic: Text)
    requires
        digits.len() > 0,
        forall|i: int|
            0 <= i < digits.len() ==> '0' <= #[trigger] digits[i] <= '9' || '０' <= digits[i] <= '９'
                || "一二三四五六七八九十百千"@.contains(digits[i]),
        "章節款目条"@.contains(unit),
        topic.len() > 0,
        !text::is_white_space(topic[0]),
        !text::is_white_space(topic.last()),
        !"「」\"' \t"@.contains(topic[0]),
        !"「」\"' \t"@.contains(topic.last()),
        topic[0] != '第',
        topic[0] != '（',
        topic.last() != '）',
    ensures
        heading_concept(seq!['第'] + digits + seq![unit] + seq![' '] + topic) == topic,
        heading_concept(seq!['第'] + digits + seq![unit] + topic) == topic,
        topic.len() <= 58 ==> heading_concept(seq!['（'] + topic + seq!['）']) == topic,
        heading_concept(topic) == topic,
{
    text::lemma_trimmed_by_ends(topic);
    lemma_topic_unquoted(topic);
    // A numbered heading, with a space behind the mark.
    let spaced = seq![' '] + topic;
    let first = seq!['第'] + digits + seq![unit] + seq![' '] + topic;
    assert(first =~= seq!['第'] + digits + seq![unit] + spaced);
    assert(first[0] == '第');
    assert(first.last() == topic.last());
    text::lemma_trimmed_by_ends(first);
    pattern::law_marks_are_removed(digits, unit, spaced);
    assert(spaced[0] == ' ');
    assert(spaced.skip(1) =~= topic);
    assert(text::trimmed_start(spaced, CharClass::WhiteSpace) == text::trimmed_start(
        topic,
        CharClass::WhiteSpace,
    ));
    // A numbered heading, with nothing behind the mark.
    let second = seq!['第'] + digits + seq![unit] + topic;
    assert(second[0] == '第');
    assert(second.last() == topic.last());
    text::lemma_trimmed_by_ends(second);
    pattern::law_marks_are_removed(digits, unit, topic);
    // A title in brackets.
    let third = seq!['（'] + topic + seq!['）'];
    assert(third[0] == '（');
    assert(third.last() == '）');
    text::lemma_trimmed_by_ends(third);
    let open = CharClass::Only('（');
    let close = CharClass::Only('）');
    let rest = topic + seq!['）'];
    assert(third.skip(1) =~= rest);
    assert(rest[0] == topic[0]);
    assert(text::trimmed_start(third, open) == text::trimmed_start(rest, open));
    assert(text::trimmed_start(rest, open) == rest);
    assert(rest.last() == '）');
    assert(rest.drop_last() =~= topic);
    assert(text::trimmed_end(rest, close) == text::trimmed_end(topic, close));
    assert(text::trimmed_end(topic, close) == topic);
}

proof fn lemma_stated_concepts(headings: Seq<Text>, i: int)
    requires
        0 <= i < headings.len(),
        2 <= heading_concept(headings[i]).len() <= 50,
    ensures
        stated_concepts(headings).contains(heading_concept(headings[i])),
    decreases headings.len(),
{
    let front = headings.drop_last();
    let before = stated_concepts(front);
    let all = stated_concepts(headings);
    let x = heading_concept(headings[i]);
    if i < headings.len() - 1 {
        assert(front[i] == headings[i]);
        lemma_stated_concepts(front, i);
        let k = choose|k: int| 0 <= k < before.len() && before[k] == x;
        assert(all[k] == x);
    } else {
        assert(all[before.len() as int] == x);
    }
}

/// Every heading of a path is one of its concepts, where the concept has between two and fifty
/// characters.
pub proof fn law_path_concepts(headings: Seq<Text>, path: Text, i: int)
    requires
        text::pieces(path, " > "@) == headings,
        0 <= i < headings.len(),
        2 <= heading_concept(headings[i]).len() <= 50,
        text::trimmed(heading_concept(headings[i])) == heading_concept(headings[i]),
    ensures
        heading_concepts(path).contains(heading_concept(headings[i])),
{
    lemma_stated_concepts(headings, i);
    let all = stated_concepts(headings);
    let x = heading_concept(headings[i]);
    let k = choose|k: int| 0 <= k < all.len() && all[k] == x;
    assert(text::trimmed(all[k]) == x);
}

/// The words that say nothing of the subject of a question, and no others.
pub proof fn law_stop_words(x: Text)
    ensures
        is_stop_word(x) <==> seq![
            "どう"@,
            "なっ"@,
            "なって"@,
            "います"@,
            "ます"@,
            "です"@,
            "ください"@,
            "教えて"@,
            "について"@,
            "もの"@,
            "こと"@,
            "場合"@,
            "情報"@,
            "質問"@,
            "回答"@,
            "一覧"@,
            "まとめ"@,
            "全体"@,
            "全部"@,
            "全て"@,
            "すべて"@,
        ].contains(x),
{
    let all = seq![
        "どう"@,
        "なっ"@,
        "なって"@,
        "います"@,
        "ます"@,
        "です"@,
        "ください"@,
        "教えて"@,
        "について"@,
        "もの"@,
        "こと"@,
        "場合"@,
        "情報"@,
        "質問"@,
        "回答"@,
        "一覧"@,
        "まとめ"@,
        "全体"@,
        "全部"@,
        "全て"@,
        "すべて"@,
    ];
    assert(all[0] == "どう"@ && all[1] == "なっ"@ && all[2] == "なって"@ && all[3] == "います"@ && all[4]
        == "ます"@ && all[5] == "です"@ && all[6] == "ください"@ && all[7] == "教えて"@ && all[8] == "について"@
        && all[9] == "もの"@ && all[10] == "こと"@ && all[11] == "場合"@ && all[12] == "情報"@ && all[13]
        == "質問"@ && all[14] == "回答"@ && all[15] == "一覧"@ && all[16] == "まとめ"@ && all[17] == "全体"@
        && all[18] == "全部"@ && all[19] == "全て"@ && all[20] == "すべて"@);
}

/// A name of a concept is a text of two to eighteen characters that says something and holds more than
/// the characters of marks; every such text is one.
pub proof fn law_valid_names(x: Text)
    ensures
        is_source_concept(x) <==> 2 <= x.len() <= 18 && !is_stop_word(x) && exists|i: int|
            0 <= i < x.len() && !"第章節条項"@.contains(#[trigger] x[i]),
{
    reveal_strlit("第章節条項");
    let marks = "第章節条項"@;
    assert(marks[0] == '第' && marks[1] == '章' && marks[2] == '節' && marks[3] == '条' && marks[4]
        == '項');
    assert forall|c: char| marks.contains(c) <==> #[trigger] is_mark_char(c) by {}
}

/// The frame of a regulation, and nothing else, is no topic.
pub proof fn law_generic_names(x: Text)
    ensures
        is_generic(x) <==> x == "総則"@ || x == "目的"@ || x == "定義"@ || x == "適用範囲"@ || x == "雑則"@
            || x == "附則"@ || x == "施行"@ || x == "改正"@ || x == "経過措置"@,
{
}

proof fn lemma_topic_len(texts: Seq<(Text, Text)>, x: Text)
    requires
        topic_total(texts, x) > 0,
    ensures
        2 <= x.len() <= 80,
    decreases texts.len(),
{
    if topic_total(texts.drop_last(), x) > 0 {
        lemma_topic_len(texts.drop_last(), x);
    } else {
        let content = texts.last().1;
        if concept_count(content, x) > 0 {
            lemma_counted_is_concept(content, segments(content).len(), x);
        }
    }
}

/// Where there are no more topics than are asked for, every one of them is named.
pub proof fn law_few_topics_are_all_named(texts: Seq<(Text, Text)>, limit: nat, x: Text)
    requires
        Set::new(|z: Text| topic_total(texts, z) > 0).finite(),
        Set::new(|z: Text| topic_total(texts, z) > 0).len() <= limit,
        topic_total(texts, x) > 0,
    ensures
        top_concepts(texts, limit).contains(x),
{
    let score = topic_scores(texts);
    let topics = Set::new(|z: Text| topic_total(texts, z) > 0);
    let scored = Set::new(|z: Text| score(z) > 0);
    assert(topics =~= scored);
    tally::law_leaders(score, limit, x, x);
    tally::law_leaders_are_few(score, limit);
    listing::lemma_listing_lists(tally::leaders(score, limit));
    let list = listing::listing(tally::leaders(score, limit));
    assert(list.contains(x));
    lemma_topic_name(texts, x);
    lemma_topic_len(texts, x);
    let k = choose|k: int| 0 <= k < list.len() && list[k] == x;
    assert(text::trimmed(list[k]) == x);
    listing::law_cleaned_entries(list, x);
}

} // verus!
