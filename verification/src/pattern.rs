//! The patterns of regulation headings: numbered marks such as a chapter or an article number, and
//! titles in brackets.

use vstd::prelude::*;

use crate::text;
use crate::text::{CharClass, Text};

verus! {

/// A line that begins with a numbered mark.
pub const HEADING_PATTERN: &'static str =
    r"^\s*(第[0-9０-９一二三四五六七八九十百千]+(章|節|款|目|条).*)\s*$";

/// A line that holds nothing but a title in brackets.
pub const BRACKET_PATTERN: &'static str = r"^\s*（[^）]{1,60}）\s*$";

/// A numbered mark at the start of a text.
pub const MARK_PATTERN: &'static str =
    r"^第[0-9０-９一二三四五六七八九十百千]+(章|節|款|目|条)";

/// A numbered mark at the start of a text, with the white space after it.
pub const SPACED_MARK_PATTERN: &'static str =
    r"^第[0-9０-９一二三四五六七八九十百千]+(章|節|款|目|条)\s*";

/// The characters of the number in a numbered mark.
pub open spec fn is_count_char(c: char) -> bool {
    ||| '0' <= c <= '9'
    ||| '０' <= c <= '９'
    ||| c == '一'
    ||| c == '二'
    ||| c == '三'
    ||| c == '四'
    ||| c == '五'
    ||| c == '六'
    ||| c == '七'
    ||| c == '八'
    ||| c == '九'
    ||| c == '十'
    ||| c == '百'
    ||| c == '千'
}

/// The characters that end a numbered mark.
pub open spec fn is_unit_char(c: char) -> bool {
    c == '章' || c == '節' || c == '款' || c == '目' || c == '条'
}

/// The number of number characters at the start of a text.
pub open spec fn count_run(s: Text) -> nat
    decreases s.len(),
{
    if s.len() > 0 && is_count_char(s[0]) {
        1 + count_run(s.skip(1))
    } else {
        0
    }
}

/// The length of the numbered mark at the start of a text, if it begins with one.
pub open spec fn mark_len(s: Text) -> Option<nat> {
    if s.len() > 0 && s[0] == '第' {
        let run = count_run(s.skip(1));
        if run > 0 && run + 1 < s.len() && is_unit_char(s[run as int + 1]) {
            Some(run + 2)
        } else {
            None
        }
    } else {
        None
    }
}

/// Whether a text holds nothing but white space.
pub open spec fn is_all_space(s: Text) -> bool {
    forall|i: int| 0 <= i < s.len() ==> text::is_white_space(#[trigger] s[i])
}

/// Whether a text has no line feed but in the white space at its end.
pub open spec fn on_first_line(s: Text) -> bool {
    exists|k: int|
        0 <= k <= s.len() && !s.take(k).contains('\n') && is_all_space(#[trigger] s.skip(k))
}

/// Whether a text begins, after white space, with a numbered mark, and is one line.
pub open spec fn is_numbered_heading(s: Text) -> bool {
    let t = text::trimmed_start(s, CharClass::WhiteSpace);
    match mark_len(t) {
        Some(n) => on_first_line(t.skip(n as int)),
        None => false,
    }
}

/// Whether a text is, apart from white space around it, a title of 1 to 60 characters in brackets.
pub open spec fn is_bracketed_title(s: Text) -> bool {
    let t = text::trimmed_start(s, CharClass::WhiteSpace);
    &&& t.len() > 0
    &&& t[0] == '（'
    &&& exists|k: int|
        2 <= k <= 61 && k < t.len() && #[trigger] t[k] == '）' && !t.subrange(1, k).contains('）')
            && is_all_space(t.skip(k + 1))
}

/// A text without the numbered mark at its start.
pub open spec fn without_mark(s: Text) -> Text {
    match mark_len(s) {
        Some(n) => s.skip(n as int),
        None => s,
    }
}

/// A text without the numbered mark at its start and the white space after that.
pub open spec fn without_spaced_mark(s: Text) -> Text {
    match mark_len(s) {
        Some(n) => text::trimmed_start(s.skip(n as int), CharClass::WhiteSpace),
        None => s,
    }
}

/// A mark lies within its text.
pub proof fn lemma_mark_len(s: Text)
    ensures
        match mark_len(s) {
            Some(n) => n <= s.len(),
            None => true,
        },
{
}

/// What removing a mark leaves is a part of the text.
pub proof fn lemma_without_mark_occurs(s: Text)
    ensures
        text::occurs_in(without_mark(s), s),
{
    lemma_mark_len(s);
    match mark_len(s) {
        Some(n) => {
            text::lemma_skip_occurs(s, n as int);
        },
        None => {
            text::lemma_occurs_self(s);
        },
    }
}

/// What removing a mark and the white space after it leaves is a part of the text.
pub proof fn lemma_without_spaced_mark_occurs(s: Text)
    ensures
        text::occurs_in(without_spaced_mark(s), s),
{
    lemma_mark_len(s);
    match mark_len(s) {
        Some(n) => {
            let rest = s.skip(n as int);
            text::lemma_skip_occurs(s, n as int);
            text::lemma_trimmed_start_occurs(rest, CharClass::WhiteSpace);
            text::lemma_occurs_transitive(without_spaced_mark(s), rest, s);
        },
        None => {
            text::lemma_occurs_self(s);
        },
    }
}

/// `regex::Regex::is_match` tells whether the pattern matches the text. The two patterns are
/// anchored at both ends, `\s` is white space, `.` is any character but a line feed, and a negated
/// class holds line feeds.
#[verifier::external_body]
pub(crate) fn regex_is_match(pattern: &str, text: &str) -> (r: bool)
    requires
        pattern@ == HEADING_PATTERN@ || pattern@ == BRACKET_PATTERN@,
    ensures
        pattern@ == HEADING_PATTERN@ ==> r == is_numbered_heading(text@),
        pattern@ == BRACKET_PATTERN@ ==> r == is_bracketed_title(text@),
{
    regex::Regex::new(pattern).unwrap().is_match(text)
}

/// `regex::Regex::replace` replaces the first match of the pattern, here by nothing. The two
/// patterns match at the start of the text only, and repetitions take as much as they can.
#[verifier::external_body]
pub(crate) fn regex_remove(pattern: &str, text: &str) -> (r: String)
    requires
        pattern@ == MARK_PATTERN@ || pattern@ == SPACED_MARK_PATTERN@,
    ensures
        pattern@ == MARK_PATTERN@ ==> r@ == without_mark(text@),
        pattern@ == SPACED_MARK_PATTERN@ ==> r@ == without_spaced_mark(text@),
{
    regex::Regex::new(pattern).unwrap().replace(text, "").into_owned()
}

/// Whether a line is a heading.
pub open spec fn is_heading_line(line: Text) -> bool {
    let t = text::trimmed(line);
    is_numbered_heading(t) || is_bracketed_title(t)
}

/// Whether a line is a heading: one that begins with a numbered mark, or a title in brackets.
pub fn heading_line(line: &str) -> (r: bool)
    ensures
        r == is_heading_line(line@),
{
    let trimmed = text::trim(line);
    regex_is_match(HEADING_PATTERN, trimmed) || regex_is_match(BRACKET_PATTERN, trimmed)
}

/// The text without the numbered mark at its start.
pub fn remove_mark(s: &str) -> (r: String)
    ensures
        r@ == without_mark(s@),
{
    regex_remove(MARK_PATTERN, s)
}

/// The text without the numbered mark at its start and the white space after that.
pub fn remove_spaced_mark(s: &str) -> (r: String)
    ensures
        r@ == without_spaced_mark(s@),
{
    regex_remove(SPACED_MARK_PATTERN, s)
}

// ---------------------------------------------------------------------------------------------
// Laws

proof fn lemma_count_run(digits: Text, unit: char, rest: Text)
    requires
        forall|i: int| 0 <= i < digits.len() ==> is_count_char(#[trigger] digits[i]),
        !is_count_char(unit),
    ensures
        count_run(digits + seq![unit] + rest) == digits.len(),
    decreases digits.len(),
{
    let all = digits + seq![unit] + rest;
    if digits.len() == 0 {
        assert(all[0] == unit);
    } else {
        assert(all[0] == digits[0]);
        assert(all.skip(1) =~= digits.skip(1) + seq![unit] + rest);
        lemma_count_run(digits.skip(1), unit, rest);
    }
}

proof fn lemma_mark(digits: Text, unit: char, rest: Text)
    requires
        digits.len() > 0,
        forall|i: int|
            0 <= i < digits.len() ==> '0' <= #[trigger] digits[i] <= '9' || '０' <= digits[i] <= '９'
                || "一二三四五六七八九十百千"@.contains(digits[i]),
        "章節款目条"@.contains(unit),
    ensures
        mark_len(seq!['第'] + digits + seq![unit] + rest) == Some((digits.len() + 2) as nat),
        (seq!['第'] + digits + seq![unit] + rest).skip(digits.len() as int + 2) == rest,
{
    reveal_strlit("一二三四五六七八九十百千");
    reveal_strlit("章節款目条");
    let all = seq!['第'] + digits + seq![unit] + rest;
    assert(all.skip(1) =~= digits + seq![unit] + rest);
    assert forall|i: int| 0 <= i < digits.len() implies is_count_char(#[trigger] digits[i]) by {}
    assert(is_unit_char(unit));
    lemma_count_run(digits, unit, rest);
    assert(all[0] == '第');
    assert(all[digits.len() as int + 1] == unit);
    assert(all.skip(digits.len() as int + 2) =~= rest);
}

/// A line that begins with 第, a number in any of the three ways of writing, and one of the units is a
/// heading, whatever follows on it.
pub proof fn law_numbered_headings(digits: Text, unit: char, rest: Text)
    requires
        digits.len() > 0,
        forall|i: int|
            0 <= i < digits.len() ==> '0' <= #[trigger] digits[i] <= '9' || '０' <= digits[i] <= '９'
                || "一二三四五六七八九十百千"@.contains(digits[i]),
        "章節款目条"@.contains(unit),
        !rest.contains('\n'),
        rest.len() > 0 ==> !text::is_white_space(rest.last()),
    ensures
        is_heading_line(seq!['第'] + digits + seq![unit] + rest),
{
    let line = seq!['第'] + digits + seq![unit] + rest;
    lemma_mark(digits, unit, rest);
    reveal_strlit("章節款目条");
    assert(is_unit_char(unit));
    assert(line[0] == '第');
    assert(!text::is_white_space(line[0]));
    assert(line.last() == if rest.len() > 0 {
        rest.last()
    } else {
        unit
    });
    assert(!text::is_white_space(line.last()));
    text::lemma_trimmed_by_ends(line);
    let n = rest.len() as int;
    assert(rest.take(n) =~= rest);
    assert(is_all_space(rest.skip(n)));
    assert(on_first_line(rest));
    assert(text::trimmed_start(line, CharClass::WhiteSpace) == line);
}

/// A line that is nothing but a title of one to sixty characters in wide brackets is a heading.
pub proof fn law_bracketed_headings(title: Text)
    requires
        1 <= title.len() <= 60,
        !title.contains('）'),
    ensures
        is_heading_line(seq!['（'] + title + seq!['）']),
{
    let line = seq!['（'] + title + seq!['）'];
    let k = title.len() as int + 1;
    assert(line[0] == '（');
    assert(line[k] == '）');
    assert(line.last() == '）');
    text::lemma_trimmed_by_ends(line);
    assert(text::trimmed_start(line, CharClass::WhiteSpace) == line);
    assert(line.subrange(1, k) =~= title);
    assert(is_all_space(line.skip(k + 1)));
}

/// A heading begins with 第, a number and one of the units, or is a title in wide brackets. White space
/// around it does not matter.
pub proof fn law_headings_are_marked(line: Text)
    ensures
        is_heading_line(line) <==> is_heading_line(text::trimmed(line)),
        is_heading_line(line) ==> text::trimmed(line).len() >= 3 && ({
            let t = text::trimmed(line);
            ||| t[0] == '第' && exists|k: int|
                2 <= k < t.len() && "章節款目条"@.contains(#[trigger] t[k])
            ||| t[0] == '（' && t.last() == '）' && t.len() <= 62
        }),
{
    reveal_strlit("章節款目条");
    text::lemma_trimmed_twice(line);
    let t = text::trimmed(line);
    if is_heading_line(line) {
        if t.len() > 0 {
            text::lemma_trimmed_ends(t);
            assert(text::trimmed_start(t, CharClass::WhiteSpace) == t);
        }
        if is_numbered_heading(t) {
            lemma_mark_len(t);
            let run = count_run(t.skip(1)) as int;
            let c = t[run + 1];
            let units = "章節款目条"@;
            assert(units[0] == '章' && units[1] == '節' && units[2] == '款' && units[3] == '目'
                && units[4] == '条');
            assert(units.contains(c));
        } else {
            let k = choose|k: int|
                2 <= k <= 61 && k < t.len() && #[trigger] t[k] == '）' && !t.subrange(1, k).contains(
                    '）',
                ) && is_all_space(t.skip(k + 1));
            if k + 1 < t.len() {
                assert(t.skip(k + 1)[t.len() - k - 2] == t.last());
            }
        }
    }
}

/// A numbered mark is taken away in whole, with the white space behind it where that is asked for; what
/// does not begin with 第 is left as it is.
pub proof fn law_marks_are_removed(digits: Text, unit: char, rest: Text)
    requires
        digits.len() > 0,
        forall|i: int|
            0 <= i < digits.len() ==> '0' <= #[trigger] digits[i] <= '9' || '０' <= digits[i] <= '９'
                || "一二三四五六七八九十百千"@.contains(digits[i]),
        "章節款目条"@.contains(unit),
    ensures
        without_mark(seq!['第'] + digits + seq![unit] + rest) == rest,
        without_spaced_mark(seq!['第'] + digits + seq![unit] + rest) == text::trimmed_start(
            rest,
            CharClass::WhiteSpace,
        ),
        rest.len() == 0 || rest[0] != '第' ==> without_mark(rest) == rest && without_spaced_mark(rest)
            == rest,
{
    lemma_mark(digits, unit, rest);
}

} // verus!
