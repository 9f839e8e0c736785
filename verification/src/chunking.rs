//! Cutting a document into chunks: sections at its headings, short sections packed together, long
//! sections split at line ends.

use vstd::prelude::*;
use vstd::string::*;

use crate::pattern;
use crate::text;
use crate::text::Text;

verus! {

/// A packed chunk takes in no further section beyond this many characters.
pub const TARGET_CHARS: usize = 1_400;

/// A section of more characters is split.
pub const MAX_CHARS: usize = 2_400;

/// A chunk as a mathematical value.
pub struct Draft {
    pub content: Text,
    pub heading: Text,
    pub start: int,
    pub end: int,
}

/// A chunk of a document: its text, the headings above it, and where it stands in the document,
/// counted in characters.
pub struct ChunkDraft {
    pub content: String,
    pub heading_path: String,
    pub char_start: i64,
    pub char_end: i64,
}

impl View for ChunkDraft {
    type V = Draft;

    open spec fn view(&self) -> Draft {
        Draft {
            content: self.content@,
            heading: self.heading_path@,
            start: self.char_start as int,
            end: self.char_end as int,
        }
    }
}

/// The contents of a vector of chunks.
pub open spec fn drafts(items: Seq<ChunkDraft>) -> Seq<Draft> {
    Seq::new(items.len(), |i: int| items[i]@)
}

// ---------------------------------------------------------------------------------------------
// Headings

/// The level of a heading, by the unit that it names.
pub open spec fn level_of(heading: Text) -> nat {
    if heading.contains('章') {
        0
    } else if heading.contains('節') {
        1
    } else if heading.contains('款') {
        2
    } else if heading.contains('目') {
        3
    } else if heading.contains('条') {
        4
    } else {
        5
    }
}

/// The headings in force after a further heading: those above its level stay, those at its level or
/// below are replaced by it.
pub open spec fn next_stack(stack: Seq<Text>, heading: Text) -> Seq<Text> {
    let level = level_of(heading);
    Seq::new(
        level + 1,
        |i: int|
            if i == level {
                text::trimmed(heading)
            } else if i < stack.len() {
                stack[i]
            } else {
                Seq::empty()
            },
    )
}

fn has_char(chars: &Vec<char>, c: char) -> (r: bool)
    ensures
        r == chars@.contains(c),
{
    for i in 0..chars.len()
        invariant
            forall|k: int| 0 <= k < i ==> chars@[k] != c,
    {
        if chars[i] == c {
            return true;
        }
    }
    false
}

fn heading_level(heading: &str) -> (r: usize)
    ensures
        r == level_of(heading@),
        r <= 5,
{
    let chars = text::chars_of(heading);
    if has_char(&chars, '章') {
        0
    } else if has_char(&chars, '節') {
        1
    } else if has_char(&chars, '款') {
        2
    } else if has_char(&chars, '目') {
        3
    } else if has_char(&chars, '条') {
        4
    } else {
        5
    }
}

/// Enters a heading into the stack of headings in force.
pub fn update_heading_stack(stack: &mut Vec<String>, heading: &str)
    ensures
        text::texts(final(stack)@) == next_stack(text::texts(old(stack)@), heading@),
{
    let ghost before = text::texts(stack@);
    let level = heading_level(heading);
    stack.truncate(level);
    while stack.len() < level
        invariant
            stack@.len() <= level,
            before.len() <= stack@.len() || stack@.len() == level,
            forall|i: int|
                0 <= i < stack@.len() ==> #[trigger] stack@[i]@ == if i < before.len() {
                    before[i]
                } else {
                    Seq::empty()
                },
        decreases level - stack@.len(),
    {
        stack.push(String::new());
    }
    stack.push(text::copy_text(text::trim(heading)));
    assert(text::texts(stack@) =~= next_stack(before, heading@));
}

/// The headings in force after some lines.
pub open spec fn stack_after(lines: Seq<Text>) -> Seq<Text>
    decreases lines.len(),
{
    if lines.len() == 0 {
        Seq::empty()
    } else {
        let before = stack_after(lines.drop_last());
        if pattern::is_heading_line(lines.last()) {
            next_stack(before, text::trimmed(lines.last()))
        } else {
            before
        }
    }
}

/// The headings in force after some lines, as one text.
pub open spec fn path_after(lines: Seq<Text>) -> Text {
    text::joined(stack_after(lines), " > "@)
}

// ---------------------------------------------------------------------------------------------
// Sections

/// The text of the lines from `b` up to `e`.
pub open spec fn span(lines: Seq<Text>, b: int, e: int) -> Text {
    text::concat(lines.subrange(b, e))
}

/// The number of characters before line `k`.
pub open spec fn offset(lines: Seq<Text>, k: int) -> int {
    span(lines, 0, k).len() as int
}

/// One more line lengthens the span by that line.
pub proof fn lemma_span_push(lines: Seq<Text>, b: int, k: int)
    requires
        0 <= b <= k < lines.len(),
    ensures
        span(lines, b, k + 1) == span(lines, b, k) + lines[k],
{
    let next = lines.subrange(b, k + 1);
    assert(next.drop_last() =~= lines.subrange(b, k));
    assert(next.last() == lines[k]);
}

/// The span up to `k` is as long as the difference of the offsets.
pub proof fn lemma_span_len(lines: Seq<Text>, b: int, k: int)
    requires
        0 <= b <= k <= lines.len(),
    ensures
        span(lines, b, k).len() == offset(lines, k) - offset(lines, b),
        offset(lines, b) <= offset(lines, k),
    decreases k - b,
{
    if b < k {
        lemma_span_len(lines, b, k - 1);
        lemma_span_push(lines, b, k - 1);
        lemma_span_push(lines, 0, k - 1);
    } else {
        assert(lines.subrange(b, k) =~= Seq::<Text>::empty());
    }
}

/// Whether a section that began at line `b` ends before line `k`: at a heading, unless the section
/// is blank so far.
pub open spec fn section_ends(lines: Seq<Text>, b: int, k: int) -> bool {
    pattern::is_heading_line(lines[k]) && !text::is_blank(span(lines, b, k))
}

/// The line before which a section that began at line `b` ends, searched from line `k` on.
pub open spec fn section_end(lines: Seq<Text>, b: int, k: int) -> int
    decreases lines.len() - k,
{
    if k >= lines.len() || section_ends(lines, b, k) {
        k
    } else {
        section_end(lines, b, k + 1)
    }
}

/// The section of the lines from `b` up to `e`, under the headings in force at its end.
pub open spec fn section(lines: Seq<Text>, b: int, e: int) -> Draft {
    Draft {
        content: text::trimmed(span(lines, b, e)),
        heading: path_after(lines.take(e)),
        start: offset(lines, b),
        end: offset(lines, e),
    }
}

/// A section ends within the lines, where the rule says so, and after it began.
pub proof fn lemma_section_end(lines: Seq<Text>, b: int, k: int)
    requires
        0 <= b <= k <= lines.len(),
    ensures
        k <= section_end(lines, b, k) <= lines.len(),
        section_end(lines, b, k) < lines.len() ==> section_ends(
            lines,
            b,
            section_end(lines, b, k),
        ),
        k == b && b < lines.len() ==> section_end(lines, b, b) > b,
    decreases lines.len() - k,
{
    assert(lines.subrange(b, b) =~= Seq::<Text>::empty());
    assert(text::is_blank(span(lines, b, b)));
    if k < lines.len() && !section_ends(lines, b, k) {
        lemma_section_end(lines, b, k + 1);
    }
}

/// The sections from line `b` on. A blank rest is no section.
pub open spec fn sections_from(lines: Seq<Text>, b: int) -> Seq<Draft>
    decreases lines.len() - b,
{
    if b < 0 || b >= lines.len() {
        Seq::empty()
    } else {
        proof {
            lemma_section_end(lines, b, b);
        }
        let e = section_end(lines, b, b);
        if text::is_blank(span(lines, b, e)) {
            Seq::empty()
        } else {
            seq![section(lines, b, e)] + sections_from(lines, e)
        }
    }
}

/// The sections of a text.
pub open spec fn sections_of(s: Text) -> Seq<Draft> {
    sections_from(text::lines(s), 0)
}

/// The lines of a text are the text.
pub proof fn lemma_lines_concat(s: Text)
    ensures
        text::concat(text::lines(s)) == s,
    decreases s.len(),
{
    if s.len() > 0 {
        text::lemma_line_len(s);
        let n = text::line_len(s) as int;
        lemma_lines_concat(s.skip(n));
        lemma_concat_first(s.take(n), text::lines(s.skip(n)));
        assert(s.take(n) + s.skip(n) =~= s);
    }
}

/// No line is empty.
pub proof fn lemma_lines_nonempty(s: Text)
    ensures
        forall|i: int| 0 <= i < text::lines(s).len() ==> #[trigger] text::lines(s)[i].len() > 0,
    decreases s.len(),
{
    if s.len() > 0 {
        text::lemma_line_len(s);
        let n = text::line_len(s) as int;
        lemma_lines_nonempty(s.skip(n));
        let rest = text::lines(s.skip(n));
        assert forall|i: int| 0 <= i < text::lines(s).len() implies #[trigger] text::lines(
            s,
        )[i].len() > 0 by {
            if i > 0 {
                assert(text::lines(s)[i] == rest[i - 1]);
            }
        }
    }
}

/// The first item begins the whole.
pub proof fn lemma_concat_first(first: Text, rest: Seq<Text>)
    ensures
        text::concat(seq![first] + rest) == first + text::concat(rest),
    decreases rest.len(),
{
    let all = seq![first] + rest;
    if rest.len() == 0 {
        assert(all.drop_last() =~= Seq::<Text>::empty());
        assert(all.last() == first);
        assert(text::concat(Seq::<Text>::empty()) =~= Seq::<char>::empty());
        assert(text::concat(all) =~= first);
        assert(first + text::concat(rest) =~= first);
    } else {
        lemma_concat_first(first, rest.drop_last());
        assert(all.drop_last() =~= seq![first] + rest.drop_last());
        assert(text::concat(all) =~= first + (text::concat(rest.drop_last()) + rest.last()));
    }
}

/// The sections of a document, under their headings.
pub fn split_sections(text: &str) -> (r: Vec<ChunkDraft>)
    requires
        text@.len() <= i64::MAX,
    ensures
        drafts(r@) == sections_of(text@),
{
    let lines = text::split_lines(text);
    let ghost all = text::texts(lines@);
    let mut sections: Vec<ChunkDraft> = Vec::new();
    let mut stack: Vec<String> = Vec::new();
    let mut current = String::new();
    let mut heading = String::new();
    let mut start: i64 = 0;
    let mut cursor: i64 = 0;
    let ghost mut b: int = 0;
    proof {
        lemma_lines_concat(text@);
        assert(all.subrange(0, all.len() as int) =~= all);
        assert(all.subrange(0, 0) =~= Seq::<Text>::empty());
        assert(all.take(0) =~= Seq::<Text>::empty());
    }
    for k in 0..lines.len()
        invariant
            all == text::texts(lines@),
            offset(all, all.len() as int) <= i64::MAX,
            0 <= b <= k <= all.len(),
            b == k ==> k == 0,
            current@ == span(all, b, k as int),
            start == offset(all, b),
            cursor == offset(all, k as int),
            text::texts(stack@) == stack_after(all.take(k as int)),
            heading@ == path_after(all.take(k as int)),
            section_end(all, b, b) == section_end(all, b, k as int),
            sections_from(all, 0) == drafts(sections@) + sections_from(all, b),
    {
        let line = &lines[k];
        let is_heading = pattern::heading_line(line.as_str());
        proof {
            lemma_section_end(all, b, b);
            lemma_span_push(all, 0, k as int);
            lemma_span_len(all, 0, k + 1);
            lemma_span_len(all, k + 1, all.len() as int);
            assert(all.take(k + 1).drop_last() =~= all.take(k as int));
            assert(all.take(k + 1).last() == line@);
        }
        if is_heading && !text::blank(current.as_str()) {
            let ghost done = drafts(sections@);
            let content = text::copy_text(text::trim(current.as_str()));
            let draft = ChunkDraft {
                content,
                heading_path: heading.clone(),
                char_start: start,
                char_end: cursor,
            };
            sections.push(draft);
            proof {
                assert(section_end(all, b, k as int) == k);
                assert(draft@ == section(all, b, k as int));
                assert(drafts(sections@) =~= done.push(draft@));
                assert(done + (seq![draft@] + sections_from(all, k as int)) =~= drafts(sections@)
                    + sections_from(all, k as int));
                b = k as int;
                assert(all.subrange(b, b) =~= Seq::<Text>::empty());
            }
            current = String::new();
            start = cursor;
        }
        if is_heading {
            update_heading_stack(&mut stack, text::trim(line.as_str()));
            heading = text::join(&stack, " > ");
        }
        proof {
            lemma_span_push(all, b, k as int);
            assert(all.subrange(b, b) =~= Seq::<Text>::empty());
            assert(!section_ends(all, b, k as int));
        }
        current.append(line.as_str());
        cursor = cursor + text::char_count(line.as_str()) as i64;
    }
    proof {
        let n = all.len() as int;
        assert(section_end(all, b, n) == n);
        assert(all.subrange(b, b) =~= Seq::<Text>::empty());
        if b < n && text::is_blank(current@) {
            assert(sections_from(all, b) =~= Seq::<Draft>::empty());
        }
        assert(drafts(sections@) + Seq::<Draft>::empty() =~= drafts(sections@));
    }
    if !text::blank(current.as_str()) {
        let ghost done = drafts(sections@);
        let content = text::copy_text(text::trim(current.as_str()));
        let draft = ChunkDraft { content, heading_path: heading, char_start: start, char_end: cursor };
        sections.push(draft);
        proof {
            let n = all.len() as int;
            assert(all.subrange(0, 0) =~= Seq::<Text>::empty());
            assert(b < n);
            assert(draft@ == section(all, b, n));
            assert(sections_from(all, n) =~= Seq::<Draft>::empty());
            assert(seq![draft@] + sections_from(all, n) =~= seq![draft@]);
            assert(drafts(sections@) =~= done + seq![draft@]);
        }
    }
    sections
}

// ---------------------------------------------------------------------------------------------
// Splitting long sections

/// The line before which a piece that began at line `b` ends, searched from line `k` on: a piece
/// takes in lines as long as it stays within `max` characters, and one line in any case.
pub open spec fn piece_end(lines: Seq<Text>, max: nat, b: int, k: int) -> int
    decreases lines.len() - k,
{
    if k >= lines.len() || (span(lines, b, k).len() > 0 && span(lines, b, k).len() + lines[k].len()
        > max) {
        k
    } else {
        piece_end(lines, max, b, k + 1)
    }
}

/// The piece of a section that holds its lines from `b` up to `e`.
pub open spec fn piece(section: Draft, b: int, e: int) -> Draft {
    let lines = text::lines(section.content);
    Draft {
        content: text::trimmed(span(lines, b, e)),
        heading: section.heading,
        start: section.start + offset(lines, b),
        end: section.start + offset(lines, e),
    }
}

/// A piece ends within the section.
pub proof fn lemma_piece_end(lines: Seq<Text>, max: nat, b: int, k: int)
    requires
        0 <= b <= k <= lines.len(),
    ensures
        k <= piece_end(lines, max, b, k) <= lines.len(),
    decreases lines.len() - k,
{
    if k < lines.len() && !(span(lines, b, k).len() > 0 && span(lines, b, k).len() + lines[k].len()
        > max) {
        lemma_piece_end(lines, max, b, k + 1);
    }
}

/// The pieces of a section from its line `b` on. A blank last piece is left out.
pub open spec fn pieces_from(section: Draft, max: nat, b: int) -> Seq<Draft>
    decreases text::lines(section.content).len() - b,
{
    let lines = text::lines(section.content);
    if b < 0 || b >= lines.len() {
        Seq::empty()
    } else {
        proof {
            lemma_piece_end(lines, max, b, b + 1);
        }
        let e = piece_end(lines, max, b, b + 1);
        if e == lines.len() && text::is_blank(span(lines, b, e)) {
            Seq::empty()
        } else {
            seq![piece(section, b, e)] + pieces_from(section, max, e)
        }
    }
}

/// Splits a section at its line ends into pieces of at most `max_chars` characters, where its lines
/// allow it.
pub fn split_long_section(section: &ChunkDraft, max_chars: usize) -> (r: Vec<ChunkDraft>)
    requires
        section.content@.len() <= i64::MAX,
        section.char_start + section.content@.len() <= i64::MAX,
    ensures
        drafts(r@) == pieces_from(section@, max_chars as nat, 0),
{
    let lines = text::split_lines(section.content.as_str());
    let ghost all = text::texts(lines@);
    let ghost max = max_chars as nat;
    let mut chunks: Vec<ChunkDraft> = Vec::new();
    let mut buffer = String::new();
    let mut start: i64 = section.char_start;
    let mut cursor: i64 = section.char_start;
    let ghost mut b: int = 0;
    proof {
        lemma_lines_nonempty(section.content@);
        lemma_lines_concat(section.content@);
        assert(all.subrange(0, all.len() as int) =~= all);
        assert(all.subrange(0, 0) =~= Seq::<Text>::empty());
    }
    for k in 0..lines.len()
        invariant
            all == text::texts(lines@),
            all == text::lines(section.content@),
            max == max_chars,
            offset(all, all.len() as int) <= i64::MAX,
            section.char_start + offset(all, all.len() as int) <= i64::MAX,
            0 <= b <= k <= all.len(),
            b == k ==> k == 0,
            forall|i: int| 0 <= i < all.len() ==> #[trigger] all[i].len() > 0,
            buffer@ == span(all, b, k as int),
            start == section.char_start + offset(all, b),
            cursor == section.char_start + offset(all, k as int),
            b < k ==> piece_end(all, max, b, b + 1) == piece_end(all, max, b, k as int),
            pieces_from(section@, max, 0) == drafts(chunks@) + pieces_from(section@, max, b),
    {
        let line = &lines[k];
        let count = text::char_count(line.as_str());
        proof {
            lemma_span_push(all, 0, k as int);
            lemma_span_len(all, b, k as int);
            lemma_span_len(all, 0, k + 1);
            lemma_span_len(all, k + 1, all.len() as int);
            assert(all[k as int] == line@);
        }
        let held = text::char_count(buffer.as_str());
        assert(held + count <= offset(all, k + 1));
        if held > 0 && (count > max_chars || held > max_chars - count) {
            let ghost done = drafts(chunks@);
            let content = text::copy_text(text::trim(buffer.as_str()));
            let draft = ChunkDraft {
                content,
                heading_path: section.heading_path.clone(),
                char_start: start,
                char_end: cursor,
            };
            chunks.push(draft);
            proof {
                assert(piece_end(all, max, b, k as int) == k);
                assert(draft@ == piece(section@, b, k as int));
                assert(drafts(chunks@) =~= done.push(draft@));
                assert(done + (seq![draft@] + pieces_from(section@, max, k as int)) =~= drafts(
                    chunks@,
                ) + pieces_from(section@, max, k as int));
                b = k as int;
                assert(all.subrange(b, b) =~= Seq::<Text>::empty());
            }
            buffer = String::new();
            start = cursor;
        }
        proof {
            lemma_span_push(all, b, k as int);
            assert(all.subrange(b, b) =~= Seq::<Text>::empty());
        }
        buffer.append(line.as_str());
        cursor = cursor + count as i64;
    }
    let ghost done = drafts(chunks@);
    proof {
        assert(b < all.len() ==> piece_end(all, max, b, b + 1) == all.len());
        lemma_last_piece(section@, max, b, done);
        assert(all.subrange(b, b) =~= Seq::<Text>::empty());
    }
    if !text::blank(buffer.as_str()) {
        let content = text::copy_text(text::trim(buffer.as_str()));
        let draft = ChunkDraft {
            content,
            heading_path: section.heading_path.clone(),
            char_start: start,
            char_end: cursor,
        };
        chunks.push(draft);
        proof {
            assert(draft@ == piece(section@, b, all.len() as int));
            assert(drafts(chunks@) =~= done.push(draft@));
        }
    }
    chunks
}

/// The last piece is all that is left, unless that is blank.
proof fn lemma_last_piece(section: Draft, max: nat, b: int, done: Seq<Draft>)
    requires
        0 <= b <= text::lines(section.content).len(),
        b < text::lines(section.content).len() ==> piece_end(
            text::lines(section.content),
            max,
            b,
            b + 1,
        ) == text::lines(section.content).len(),
    ensures
        ({
            let lines = text::lines(section.content);
            let n = lines.len() as int;
            done + pieces_from(section, max, b) == if text::is_blank(span(lines, b, n)) {
                done
            } else {
                done.push(piece(section, b, n))
            }
        }),
{
    let lines = text::lines(section.content);
    let n = lines.len() as int;
    assert(pieces_from(section, max, n) =~= Seq::<Draft>::empty());
    if b == n {
        assert(lines.subrange(b, n) =~= Seq::<Text>::empty());
        assert(text::is_blank(span(lines, b, n)));
        assert(done + pieces_from(section, max, b) =~= done);
    } else if text::is_blank(span(lines, b, n)) {
        assert(done + pieces_from(section, max, b) =~= done);
    } else {
        assert(done + pieces_from(section, max, b) =~= done.push(piece(section, b, n)));
    }
}

// ---------------------------------------------------------------------------------------------
// Packing short sections

/// Whether a section is split rather than packed.
pub open spec fn is_long(section: Draft) -> bool {
    section.content.len() > MAX_CHARS
}

/// The texts of the sections from `i` up to `j` that are not long.
pub open spec fn short_texts(sections: Seq<Draft>, i: int, j: int) -> Seq<Text>
    decreases j - i,
{
    if j <= i {
        Seq::empty()
    } else if is_long(sections[j - 1]) {
        short_texts(sections, i, j - 1)
    } else {
        short_texts(sections, i, j - 1).push(sections[j - 1].content)
    }
}

/// The texts of the sections from `i` up to `j` that are not long, with a blank line between them.
pub open spec fn group_text(sections: Seq<Draft>, i: int, j: int) -> Text {
    text::joined(short_texts(sections, i, j), "\n\n"@)
}

/// Whether a group that began with section `i` ends before section `j`: at a long section, unless the
/// group is blank so far; and at another one with which it would grow beyond the target, or which
/// stands under another heading.
pub open spec fn group_closes(sections: Seq<Draft>, i: int, j: int) -> bool {
    if is_long(sections[j]) {
        !text::is_blank(group_text(sections, i, j))
    } else {
        ||| group_text(sections, i, j).len() + sections[j].content.len() > TARGET_CHARS
        ||| {
            &&& sections[j].heading.len() > 0
            &&& sections[i].heading.len() > 0
            &&& sections[j].heading != sections[i].heading
        }
    }
}

/// The section before which a group that began with section `i` ends, searched from `j` on.
pub open spec fn group_end(sections: Seq<Draft>, i: int, j: int) -> int
    decreases sections.len() - j,
{
    if j >= sections.len() || group_closes(sections, i, j) {
        j
    } else {
        group_end(sections, i, j + 1)
    }
}

/// A group ends within the sections.
pub proof fn lemma_group_end(sections: Seq<Draft>, i: int, j: int)
    requires
        0 <= i <= j <= sections.len(),
    ensures
        j <= group_end(sections, i, j) <= sections.len(),
    decreases sections.len() - j,
{
    if j < sections.len() && !group_closes(sections, i, j) {
        lemma_group_end(sections, i, j + 1);
    }
}

/// Where the last of the sections from `i` up to `j` ends that is not long.
pub open spec fn last_end(sections: Seq<Draft>, i: int, j: int) -> int
    decreases j - i,
{
    if j <= i + 1 || !is_long(sections[j - 1]) {
        sections[j - 1].end
    } else {
        last_end(sections, i, j - 1)
    }
}

/// The chunk of the sections from `i` up to `j` that are not long.
pub open spec fn group(sections: Seq<Draft>, i: int, j: int) -> Draft {
    Draft {
        content: text::trimmed(group_text(sections, i, j)),
        heading: sections[i].heading,
        start: sections[i].start,
        end: last_end(sections, i, j),
    }
}

/// The pieces of the long sections from `i` up to `j`.
pub open spec fn pieces_between(sections: Seq<Draft>, i: int, j: int) -> Seq<Draft>
    decreases j - i,
{
    if j <= i {
        Seq::empty()
    } else if is_long(sections[j - 1]) {
        pieces_between(sections, i, j - 1) + pieces_from(sections[j - 1], MAX_CHARS as nat, 0)
    } else {
        pieces_between(sections, i, j - 1)
    }
}

/// The chunk of a group as a list; none for a blank group at the end of the sections.
pub open spec fn group_chunk(sections: Seq<Draft>, i: int, j: int) -> Seq<Draft> {
    if j == sections.len() && text::is_blank(group_text(sections, i, j)) {
        Seq::empty()
    } else {
        seq![group(sections, i, j)]
    }
}

/// The chunks of the sections from `i` on: long sections split, the others packed in groups. An
/// empty section begins no group. A group stays open over long sections as long as it is blank; their
/// pieces come before its chunk. A group that is blank at the end is left out.
pub open spec fn packed_from(sections: Seq<Draft>, i: int) -> Seq<Draft>
    decreases sections.len() - i,
{
    if i < 0 || i >= sections.len() {
        Seq::empty()
    } else if is_long(sections[i]) {
        pieces_from(sections[i], MAX_CHARS as nat, 0) + packed_from(sections, i + 1)
    } else if sections[i].content.len() == 0 {
        packed_from(sections, i + 1)
    } else {
        proof {
            lemma_group_end(sections, i, i + 1);
        }
        let j = group_end(sections, i, i + 1);
        pieces_between(sections, i, j) + group_chunk(sections, i, j) + packed_from(sections, j)
    }
}

/// The chunks of a sequence of sections.
pub open spec fn packed(sections: Seq<Draft>) -> Seq<Draft> {
    packed_from(sections, 0)
}

proof fn lemma_group_push(sections: Seq<Draft>, i: int, j: int)
    requires
        0 <= i < j < sections.len(),
        !is_long(sections[i]),
    ensures
        !is_long(sections[j]) ==> group_text(sections, i, j + 1) == group_text(sections, i, j)
            + "\n\n"@ + sections[j].content,
        is_long(sections[j]) ==> group_text(sections, i, j + 1) == group_text(sections, i, j),
{
    lemma_short_texts(sections, i, j);
    let before = short_texts(sections, i, j);
    if !is_long(sections[j]) {
        let next = short_texts(sections, i, j + 1);
        assert(next.drop_last() =~= before);
        assert(next.last() == sections[j].content);
    }
}

proof fn lemma_short_texts(sections: Seq<Draft>, i: int, j: int)
    requires
        0 <= i < j <= sections.len(),
        !is_long(sections[i]),
    ensures
        short_texts(sections, i, j).len() > 0,
    decreases j - i,
{
    if j > i + 1 {
        lemma_short_texts(sections, i, j - 1);
    }
}

proof fn lemma_group_one(sections: Seq<Draft>, i: int)
    requires
        0 <= i < sections.len(),
        !is_long(sections[i]),
    ensures
        group_text(sections, i, i + 1) == sections[i].content,
        pieces_between(sections, i, i + 1) == Seq::<Draft>::empty(),
{
    reveal_with_fuel(short_texts, 2);
    reveal_with_fuel(pieces_between, 2);
    assert(short_texts(sections, i, i + 1) =~= seq![sections[i].content]);
}

/// What is known between two sections: either no group is open, or one began with section `g`.
spec fn packing(
    sections: Seq<Draft>,
    g: int,
    i: int,
    buffer: Text,
    heading: Text,
    start: int,
    end: int,
) -> bool {
    if buffer.len() == 0 {
        g == i
    } else {
        &&& 0 <= g < i <= sections.len()
        &&& !is_long(sections[g])
        &&& sections[g].content.len() > 0
        &&& buffer == group_text(sections, g, i)
        &&& buffer.len() <= MAX_CHARS
        &&& heading == sections[g].heading
        &&& start == sections[g].start
        &&& end == last_end(sections, g, i)
        &&& group_end(sections, g, g + 1) == group_end(sections, g, i)
    }
}

/// Splits long sections and packs short ones together.
pub fn pack_sections(sections: &Vec<ChunkDraft>) -> (r: Vec<ChunkDraft>)
    requires
        forall|i: int|
            0 <= i < sections@.len() && (#[trigger] sections@[i]).content@.len() > MAX_CHARS ==> {
                &&& sections@[i].content@.len() <= i64::MAX
                &&& sections@[i].char_start + sections@[i].content@.len() <= i64::MAX
            },
    ensures
        drafts(r@) == packed(drafts(sections@)),
{
    let ghost all = drafts(sections@);
    let mut chunks: Vec<ChunkDraft> = Vec::new();
    let mut buffer = String::new();
    let mut heading = String::new();
    let mut start: i64 = 0;
    let mut end: i64 = 0;
    let ghost mut g: int = 0;
    let ghost mut done = Seq::<Draft>::empty();
    assert(drafts(chunks@) =~= done + pieces_between(all, g, 0));
    assert(packed(all) =~= done + packed_from(all, g));
    for i in 0..sections.len()
        invariant
            all == drafts(sections@),
            forall|k: int|
                0 <= k < sections@.len() && (#[trigger] sections@[k]).content@.len() > MAX_CHARS ==> {
                    &&& sections@[k].content@.len() <= i64::MAX
                    &&& sections@[k].char_start + sections@[k].content@.len() <= i64::MAX
                },
            packing(all, g, i as int, buffer@, heading@, start as int, end as int),
            drafts(chunks@) == done + pieces_between(all, g, i as int),
            packed(all) == done + packed_from(all, g),
    {
        let section = &sections[i];
        let ghost here = all[i as int];
        assert(here == section@);
        let section_chars = text::char_count(section.content.as_str());
        let buffer_chars = text::char_count(buffer.as_str());
        if section_chars > MAX_CHARS {
            if !text::blank(buffer.as_str()) {
                let draft = ChunkDraft {
                    content: text::copy_text(text::trim(buffer.as_str())),
                    heading_path: heading.clone(),
                    char_start: start,
                    char_end: end,
                };
                let ghost before = drafts(chunks@);
                chunks.push(draft);
                buffer = String::new();
                proof {
                    assert(group_end(all, g, i as int) == i);
                    assert(draft@ == group(all, g, i as int));
                    assert(drafts(chunks@) =~= before.push(draft@));
                    lemma_group_closed(all, g, i as int, done);
                    assert(before.push(draft@) =~= before + seq![draft@]);
                    done = drafts(chunks@);
                    g = i as int;
                    assert(done + pieces_between(all, g, i as int) =~= done);
                }
            }
            let mut pieces = split_long_section(section, MAX_CHARS);
            let ghost now = drafts(chunks@);
            let ghost added = drafts(pieces@);
            chunks.append(&mut pieces);
            proof {
                assert(drafts(chunks@) =~= now + added);
                if buffer@.len() == 0 {
                    assert(now =~= done);
                    assert(done + (added + packed_from(all, i + 1)) =~= (done + added) + packed_from(
                        all,
                        i + 1,
                    ));
                    done = drafts(chunks@);
                    g = i + 1;
                    assert(done + pieces_between(all, g, i + 1) =~= done);
                } else {
                    lemma_group_push(all, g, i as int);
                    assert(!group_closes(all, g, i as int));
                    assert(now + added =~= done + (pieces_between(all, g, i as int) + added));
                }
            }
        } else {
            let heading_changed = buffer_chars > 0 && !section.heading_path.as_str().is_empty()
                && !heading.as_str().is_empty() && !text::same_text(
                section.heading_path.as_str(),
                heading.as_str(),
            );
            if buffer_chars > 0 && (buffer_chars + section_chars > TARGET_CHARS || heading_changed) {
                let draft = ChunkDraft {
                    content: text::copy_text(text::trim(buffer.as_str())),
                    heading_path: heading.clone(),
                    char_start: start,
                    char_end: end,
                };
                let ghost before = drafts(chunks@);
                chunks.push(draft);
                buffer = String::new();
                proof {
                    assert(group_end(all, g, i as int) == i);
                    assert(draft@ == group(all, g, i as int));
                    assert(drafts(chunks@) =~= before.push(draft@));
                    lemma_group_closed(all, g, i as int, done);
                    assert(before.push(draft@) =~= before + seq![draft@]);
                    done = drafts(chunks@);
                    g = i as int;
                    assert(done + pieces_between(all, g, i as int) =~= done);
                }
            }
            if buffer.as_str().is_empty() {
                start = section.char_start;
                heading = section.heading_path.clone();
                proof {
                    lemma_group_one(all, i as int);
                }
            } else {
                proof {
                    reveal_strlit("\n\n");
                    lemma_group_push(all, g, i as int);
                }
                buffer.append("\n\n");
            }
            buffer.append(section.content.as_str());
            end = section.char_end;
            proof {
                if buffer@.len() == 0 {
                    g = i + 1;
                    assert(done + pieces_between(all, g, i + 1) =~= done);
                } else if g == i {
                    assert(buffer@ =~= here.content);
                    assert(done + pieces_between(all, g, i + 1) =~= done);
                }
            }
        }
    }
    let ghost before = drafts(chunks@);
    if !text::blank(buffer.as_str()) {
        chunks.push(
            ChunkDraft {
                content: text::copy_text(text::trim(buffer.as_str())),
                heading_path: heading,
                char_start: start,
                char_end: end,
            },
        );
    }
    proof {
        let n = all.len() as int;
        if buffer@.len() == 0 {
            assert(before =~= done);
            assert(packed(all) =~= done);
        } else {
            assert(group_end(all, g, n) == n);
            assert(packed_from(all, g) =~= pieces_between(all, g, n) + group_chunk(all, g, n)
                + packed_from(all, n));
            assert(packed_from(all, n).len() == 0);
            assert(packed(all) =~= done + pieces_between(all, g, n) + group_chunk(all, g, n));
            if !text::is_blank(buffer@) {
                assert(drafts(chunks@) =~= before.push(chunks@.last()@));
                assert(chunks@.last()@ == group(all, g, n));
            }
        }
        assert(packed(all) =~= drafts(chunks@));
    }
    chunks
}

/// Closing a group before section `i` adds its chunk.
proof fn lemma_group_closed(sections: Seq<Draft>, g: int, i: int, done: Seq<Draft>)
    requires
        0 <= g < i < sections.len(),
        !is_long(sections[g]),
        sections[g].content.len() > 0,
        group_end(sections, g, g + 1) == i,
    ensures
        done + packed_from(sections, g) == done + pieces_between(sections, g, i) + seq![
            group(sections, g, i),
        ] + packed_from(sections, i),
{
    assert(done + packed_from(sections, g) =~= done + pieces_between(sections, g, i) + seq![
        group(sections, g, i),
    ] + packed_from(sections, i));
}

/// The chunks of a document.
pub open spec fn chunks_of(s: Text) -> Seq<Draft> {
    packed(sections_of(s))
}

/// Cuts a document into chunks.
pub fn split_text_into_chunks(text: &str) -> (r: Vec<ChunkDraft>)
    requires
        text@.len() <= i64::MAX,
    ensures
        drafts(r@) == chunks_of(text@),
{
    let sections = split_sections(text);
    proof {
        lemma_sections_placed(text@);
        assert forall|i: int| 0 <= i < sections@.len() implies {
            &&& (#[trigger] sections@[i]).content@.len() <= i64::MAX
            &&& sections@[i].char_start + sections@[i].content@.len() <= i64::MAX
        } by {
            assert(drafts(sections@)[i] == sections@[i]@);
        }
    }
    pack_sections(&sections)
}

/// Every section is the trimmed part of the text at its place, and the sections follow one another.
pub open spec fn placed(s: Text, sections: Seq<Draft>) -> bool {
    &&& forall|i: int|
        0 <= i < sections.len() ==> {
            let d = #[trigger] sections[i];
            &&& 0 <= d.start <= d.end <= s.len()
            &&& d.content == text::trimmed(s.subrange(d.start, d.end))
            &&& d.content.len() > 0
            &&& d.start + d.content.len() <= d.end
        }
    &&& forall|i: int, j: int|
        0 <= i < j < sections.len() ==> (#[trigger] sections[i]).end <= (#[trigger] sections[j]).start
}

proof fn lemma_span_is_subrange(lines: Seq<Text>, s: Text, b: int, e: int)
    requires
        text::concat(lines) == s,
        0 <= b <= e <= lines.len(),
    ensures
        0 <= offset(lines, b) <= offset(lines, e) <= s.len(),
        span(lines, b, e) == s.subrange(offset(lines, b), offset(lines, e)),
{
    let n = lines.len() as int;
    assert(lines.subrange(0, n) =~= lines);
    lemma_span_len(lines, b, e);
    lemma_span_len(lines, e, n);
    lemma_span_concat(lines, 0, e, n);
    lemma_span_concat(lines, 0, b, e);
    lemma_span_len(lines, 0, b);
    assert(s.subrange(offset(lines, b), offset(lines, e)) =~= span(lines, b, e));
}

/// Adjacent spans make one span.
pub proof fn lemma_span_concat(lines: Seq<Text>, a: int, b: int, e: int)
    requires
        0 <= a <= b <= e <= lines.len(),
    ensures
        span(lines, a, e) == span(lines, a, b) + span(lines, b, e),
    decreases e - b,
{
    if b < e {
        lemma_span_concat(lines, a, b, e - 1);
        lemma_span_push(lines, a, e - 1);
        lemma_span_push(lines, b, e - 1);
        assert(span(lines, a, e) =~= span(lines, a, b) + span(lines, b, e));
    } else {
        assert(lines.subrange(b, e) =~= Seq::<Text>::empty());
        assert(span(lines, a, e) =~= span(lines, a, b) + span(lines, b, e));
    }
}

proof fn lemma_sections_from_placed(lines: Seq<Text>, s: Text, b: int)
    requires
        text::concat(lines) == s,
        0 <= b <= lines.len(),
    ensures
        placed(s, sections_from(lines, b)),
        forall|i: int|
            0 <= i < sections_from(lines, b).len() ==> offset(lines, b) <= (
            #[trigger] sections_from(lines, b)[i]).start,
    decreases lines.len() - b,
{
    if b < lines.len() {
        lemma_section_end(lines, b, b);
        let e = section_end(lines, b, b);
        if !text::is_blank(span(lines, b, e)) {
            lemma_sections_from_placed(lines, s, e);
            lemma_span_is_subrange(lines, s, b, e);
            text::lemma_trimmed_len(span(lines, b, e));
            let all = sections_from(lines, b);
            let rest = sections_from(lines, e);
            assert forall|i: int| 0 < i < all.len() implies #[trigger] all[i] == rest[i - 1] by {}
            assert(all[0] == section(lines, b, e));
        }
    }
}

/// The sections of a text lie in it, one after another.
pub proof fn lemma_sections_placed(s: Text)
    ensures
        placed(s, sections_of(s)),
{
    lemma_lines_concat(s);
    lemma_sections_from_placed(text::lines(s), s, 0);
}

// ---------------------------------------------------------------------------------------------
// Laws

/// The visible characters of some chunks, in order.
pub open spec fn visible_in(chunks: Seq<Draft>) -> Text
    decreases chunks.len(),
{
    if chunks.len() == 0 {
        Seq::empty()
    } else {
        visible_in(chunks.drop_last()) + text::visible(chunks.last().content)
    }
}

proof fn lemma_visible_in_concat(a: Seq<Draft>, b: Seq<Draft>)
    ensures
        visible_in(a + b) == visible_in(a) + visible_in(b),
    decreases b.len(),
{
    if b.len() == 0 {
        assert(a + b =~= a);
        assert(visible_in(a) + visible_in(b) =~= visible_in(a));
    } else {
        lemma_visible_in_concat(a, b.drop_last());
        assert((a + b).drop_last() =~= a + b.drop_last());
        assert(visible_in(a + b) =~= visible_in(a) + visible_in(b));
    }
}

proof fn lemma_visible_in_one(d: Draft)
    ensures
        visible_in(seq![d]) == text::visible(d.content),
{
    assert(seq![d].drop_last() =~= Seq::<Draft>::empty());
    assert(visible_in(Seq::<Draft>::empty()) =~= Seq::<char>::empty());
    assert(visible_in(seq![d]) =~= text::visible(d.content));
}

proof fn lemma_sections_visible(lines: Seq<Text>, b: int)
    requires
        0 <= b <= lines.len(),
    ensures
        visible_in(sections_from(lines, b)) == text::visible(span(lines, b, lines.len() as int)),
    decreases lines.len() - b,
{
    let n = lines.len() as int;
    if b == n {
        assert(lines.subrange(b, n) =~= Seq::<Text>::empty());
    } else {
        lemma_section_end(lines, b, b);
        let e = section_end(lines, b, b);
        let here = span(lines, b, e);
        if text::is_blank(here) {
            text::lemma_visible_blank(here);
        } else {
            lemma_sections_visible(lines, e);
            lemma_visible_in_concat(seq![section(lines, b, e)], sections_from(lines, e));
            lemma_visible_in_one(section(lines, b, e));
            text::lemma_visible_trimmed(here);
            lemma_span_concat(lines, b, e, n);
            text::lemma_visible_concat(here, span(lines, e, n));
        }
    }
}

proof fn lemma_pieces_visible(section: Draft, max: nat, b: int)
    requires
        0 <= b <= text::lines(section.content).len(),
    ensures
        visible_in(pieces_from(section, max, b)) == text::visible(
            span(text::lines(section.content), b, text::lines(section.content).len() as int),
        ),
    decreases text::lines(section.content).len() - b,
{
    let lines = text::lines(section.content);
    let n = lines.len() as int;
    if b == n {
        assert(lines.subrange(b, n) =~= Seq::<Text>::empty());
    } else {
        lemma_piece_end(lines, max, b, b + 1);
        let e = piece_end(lines, max, b, b + 1);
        let here = span(lines, b, e);
        if e == n && text::is_blank(here) {
            text::lemma_visible_blank(here);
        } else {
            lemma_pieces_visible(section, max, e);
            lemma_visible_in_concat(seq![piece(section, b, e)], pieces_from(section, max, e));
            lemma_visible_in_one(piece(section, b, e));
            text::lemma_visible_trimmed(here);
            lemma_span_concat(lines, b, e, n);
            text::lemma_visible_concat(here, span(lines, e, n));
        }
    }
}

/// The visible characters of a group and of the long sections that it stays open over are those of
/// all its sections, in order.
proof fn lemma_group_visible(sections: Seq<Draft>, i: int, j: int)
    requires
        0 <= i < j <= sections.len(),
        !is_long(sections[i]),
        visible_in(sections.subrange(i, j)) == visible_in(pieces_between(sections, i, j))
            + text::visible(group_text(sections, i, j)),
    ensures
        ({
            let e = group_end(sections, i, j);
            visible_in(sections.subrange(i, e)) == visible_in(pieces_between(sections, i, e))
                + text::visible(group_text(sections, i, e))
        }),
    decreases sections.len() - j,
{
    if j < sections.len() && !group_closes(sections, i, j) {
        let here = sections[j];
        let before = group_text(sections, i, j);
        let passed = pieces_between(sections, i, j);
        assert(sections.subrange(i, j + 1) =~= sections.subrange(i, j) + seq![here]);
        lemma_visible_in_concat(sections.subrange(i, j), seq![here]);
        lemma_visible_in_one(here);
        lemma_group_push(sections, i, j);
        if is_long(here) {
            text::lemma_visible_blank(before);
            let pieces = pieces_from(here, MAX_CHARS as nat, 0);
            lemma_visible_in_concat(passed, pieces);
            lemma_all_pieces_visible(here);
        } else {
            text::lemma_visible_concat(before, "\n\n"@);
            text::lemma_visible_concat(before + "\n\n"@, here.content);
            lemma_blank_line();
            assert(text::visible(before) + Seq::<char>::empty() =~= text::visible(before));
        }
        assert(visible_in(sections.subrange(i, j + 1)) =~= visible_in(
            pieces_between(sections, i, j + 1),
        ) + text::visible(group_text(sections, i, j + 1)));
        lemma_group_visible(sections, i, j + 1);
    }
}

proof fn lemma_all_pieces_visible(section: Draft)
    ensures
        visible_in(pieces_from(section, MAX_CHARS as nat, 0)) == text::visible(section.content),
{
    lemma_pieces_visible(section, MAX_CHARS as nat, 0);
    lemma_lines_concat(section.content);
    let lines = text::lines(section.content);
    assert(lines.subrange(0, lines.len() as int) =~= lines);
}

proof fn lemma_blank_line()
    ensures
        text::visible("\n\n"@) == Seq::<char>::empty(),
{
    reveal_strlit("\n\n");
    let s = "\n\n"@;
    assert(s.last() == '\n');
    assert(s.drop_last().last() == '\n');
    assert(s.drop_last().drop_last() =~= Seq::<char>::empty());
    assert(text::visible(Seq::<char>::empty()) == Seq::<char>::empty());
    assert(text::visible(s.drop_last()) == Seq::<char>::empty());
}

proof fn lemma_packed_visible(sections: Seq<Draft>, i: int)
    requires
        0 <= i <= sections.len(),
    ensures
        visible_in(packed_from(sections, i)) == visible_in(sections.skip(i)),
    decreases sections.len() - i,
{
    let rest = sections.skip(i);
    if i == sections.len() {
        assert(rest =~= Seq::<Draft>::empty());
    } else {
        let here = sections[i];
        assert(rest =~= seq![here] + sections.skip(i + 1));
        lemma_visible_in_concat(seq![here], sections.skip(i + 1));
        lemma_visible_in_one(here);
        if is_long(here) {
            lemma_packed_visible(sections, i + 1);
            lemma_visible_in_concat(
                pieces_from(here, MAX_CHARS as nat, 0),
                packed_from(sections, i + 1),
            );
            lemma_all_pieces_visible(here);
        } else if here.content.len() == 0 {
            lemma_packed_visible(sections, i + 1);
            assert(here.content =~= Seq::<char>::empty());
            assert(visible_in(rest) =~= visible_in(sections.skip(i + 1)));
        } else {
            lemma_group_end(sections, i, i + 1);
            let j = group_end(sections, i, i + 1);
            lemma_packed_visible(sections, j);
            lemma_group_one(sections, i);
            assert(sections.subrange(i, i + 1) =~= seq![here]);
            assert(visible_in(seq![here]) =~= visible_in(pieces_between(sections, i, i + 1))
                + text::visible(group_text(sections, i, i + 1)));
            lemma_group_visible(sections, i, i + 1);
            assert(rest =~= sections.subrange(i, j) + sections.skip(j));
            lemma_visible_in_concat(sections.subrange(i, j), sections.skip(j));
            let passed = pieces_between(sections, i, j);
            let chunk = group_chunk(sections, i, j);
            lemma_visible_in_concat(passed, chunk);
            lemma_visible_in_concat(passed + chunk, packed_from(sections, j));
            let all = group_text(sections, i, j);
            if chunk.len() == 0 {
                text::lemma_visible_blank(all);
            } else {
                text::lemma_visible_trimmed(all);
                lemma_visible_in_one(group(sections, i, j));
            }
            assert(visible_in(packed_from(sections, i)) =~= visible_in(rest));
        }
    }
}

/// Packing loses, repeats and reorders nothing: the chunks hold the visible characters of the
/// sections, each once and in order.
pub proof fn law_packing_keeps_text(sections: Seq<Draft>)
    ensures
        visible_in(packed(sections)) == visible_in(sections),
{
    lemma_packed_visible(sections, 0);
    assert(sections.skip(0) =~= sections);
}

/// Nothing of a document is lost, repeated or reordered: the chunks hold its visible characters,
/// each once and in order.
pub proof fn law_chunks_keep_text(s: Text)
    ensures
        visible_in(chunks_of(s)) == text::visible(s),
{
    let sections = sections_of(s);
    law_packing_keeps_text(sections);
    lemma_sections_visible(text::lines(s), 0);
    lemma_lines_concat(s);
    let lines = text::lines(s);
    assert(lines.subrange(0, lines.len() as int) =~= lines);
}

/// Whether a chunk has at most the largest size of a chunk, or is a single line.
pub open spec fn is_sized(chunk: Draft) -> bool {
    chunk.content.len() <= MAX_CHARS || !chunk.content.contains('\n')
}

proof fn lemma_piece_size(lines: Seq<Text>, max: nat, b: int, k: int)
    requires
        0 <= b < k <= lines.len(),
        span(lines, b, k).len() <= max || k == b + 1,
        span(lines, b, k).len() > 0,
    ensures
        span(lines, b, piece_end(lines, max, b, k)).len() <= max || piece_end(lines, max, b, k) == b
            + 1,
    decreases lines.len() - k,
{
    if k < lines.len() && !(span(lines, b, k).len() > 0 && span(lines, b, k).len() + lines[k].len()
        > max) {
        lemma_span_push(lines, b, k);
        lemma_piece_size(lines, max, b, k + 1);
    }
}

proof fn lemma_line_shape(s: Text, k: int)
    requires
        0 <= k < text::lines(s).len(),
    ensures
        text::is_line(text::lines(s)[k]),
    decreases s.len(),
{
    text::lemma_line_len(s);
    let n = text::line_len(s) as int;
    if k > 0 {
        lemma_line_shape(s.skip(n), k - 1);
        assert(text::lines(s)[k] == text::lines(s.skip(n))[k - 1]);
    }
}

proof fn lemma_pieces_sized(section: Draft, b: int)
    requires
        0 <= b <= text::lines(section.content).len(),
    ensures
        forall|i: int|
            0 <= i < pieces_from(section, MAX_CHARS as nat, b).len() ==> is_sized(
                #[trigger] pieces_from(section, MAX_CHARS as nat, b)[i],
            ),
    decreases text::lines(section.content).len() - b,
{
    let lines = text::lines(section.content);
    let max = MAX_CHARS as nat;
    if b < lines.len() {
        lemma_piece_end(lines, max, b, b + 1);
        let e = piece_end(lines, max, b, b + 1);
        let here = span(lines, b, e);
        if !(e == lines.len() && text::is_blank(here)) {
            lemma_pieces_sized(section, e);
            lemma_lines_nonempty(section.content);
            assert(lines.subrange(b, b) =~= Seq::<Text>::empty());
            lemma_span_push(lines, b, b);
            assert(span(lines, b, b + 1) =~= lines[b]);
            lemma_piece_size(lines, max, b, b + 1);
            text::lemma_trimmed_len(here);
            if e == b + 1 {
                lemma_line_shape(section.content, b);
                text::lemma_trimmed_line(lines[b]);
            }
            let all = pieces_from(section, max, b);
            let rest = pieces_from(section, max, e);
            assert forall|i: int| 0 <= i < all.len() implies is_sized(#[trigger] all[i]) by {
                if i > 0 {
                    assert(all[i] == rest[i - 1]);
                }
            }
        }
    }
}

proof fn lemma_group_size(sections: Seq<Draft>, i: int, j: int)
    requires
        0 <= i < j <= sections.len(),
        !is_long(sections[i]),
        group_text(sections, i, j).len() <= MAX_CHARS,
    ensures
        group_text(sections, i, group_end(sections, i, j)).len() <= MAX_CHARS,
    decreases sections.len() - j,
{
    if j < sections.len() && !group_closes(sections, i, j) {
        reveal_strlit("\n\n");
        lemma_group_push(sections, i, j);
        lemma_group_size(sections, i, j + 1);
    }
}

/// Whether every chunk has at most the largest size of a chunk, or is a single line.
pub open spec fn all_sized(chunks: Seq<Draft>) -> bool {
    forall|k: int| 0 <= k < chunks.len() ==> is_sized(#[trigger] chunks[k])
}

proof fn lemma_sized_concat(a: Seq<Draft>, b: Seq<Draft>)
    requires
        all_sized(a),
        all_sized(b),
    ensures
        all_sized(a + b),
{
    let all = a + b;
    assert forall|k: int| 0 <= k < all.len() implies is_sized(#[trigger] all[k]) by {
        if k < a.len() {
            assert(all[k] == a[k]);
        } else {
            assert(all[k] == b[k - a.len()]);
        }
    }
}

proof fn lemma_between_sized(sections: Seq<Draft>, i: int, j: int)
    requires
        0 <= i <= j <= sections.len(),
    ensures
        all_sized(pieces_between(sections, i, j)),
    decreases j - i,
{
    if i < j {
        lemma_between_sized(sections, i, j - 1);
        if is_long(sections[j - 1]) {
            lemma_pieces_sized(sections[j - 1], 0);
            lemma_sized_concat(
                pieces_between(sections, i, j - 1),
                pieces_from(sections[j - 1], MAX_CHARS as nat, 0),
            );
        }
    }
}

proof fn lemma_packed_sized(sections: Seq<Draft>, i: int)
    requires
        0 <= i <= sections.len(),
    ensures
        all_sized(packed_from(sections, i)),
    decreases sections.len() - i,
{
    if i < sections.len() {
        if is_long(sections[i]) {
            lemma_packed_sized(sections, i + 1);
            lemma_pieces_sized(sections[i], 0);
            lemma_sized_concat(
                pieces_from(sections[i], MAX_CHARS as nat, 0),
                packed_from(sections, i + 1),
            );
        } else if sections[i].content.len() == 0 {
            lemma_packed_sized(sections, i + 1);
        } else {
            lemma_group_end(sections, i, i + 1);
            let j = group_end(sections, i, i + 1);
            lemma_packed_sized(sections, j);
            lemma_group_one(sections, i);
            lemma_group_size(sections, i, i + 1);
            text::lemma_trimmed_len(group_text(sections, i, j));
            lemma_between_sized(sections, i, j);
            let passed = pieces_between(sections, i, j);
            let chunk = group_chunk(sections, i, j);
            assert(all_sized(chunk));
            lemma_sized_concat(passed, chunk);
            lemma_sized_concat(passed + chunk, packed_from(sections, j));
        }
    }
}

/// No chunk of any sections is larger than the largest size, but for one that is a single line.
pub proof fn law_packing_sizes(sections: Seq<Draft>, k: int)
    requires
        0 <= k < packed(sections).len(),
    ensures
        packed(sections)[k].content.len() <= MAX_CHARS || !packed(sections)[k].content.contains('\n'),
{
    lemma_packed_sized(sections, 0);
    assert(is_sized(packed(sections)[k]));
}

/// No chunk is larger than the largest size, but for one that is a single line.
pub proof fn law_chunk_sizes(s: Text, k: int)
    requires
        0 <= k < chunks_of(s).len(),
    ensures
        chunks_of(s)[k].content.len() <= MAX_CHARS || !chunks_of(s)[k].content.contains('\n'),
{
    law_packing_sizes(sections_of(s), k);
}

/// Whether the places of some chunks follow one another between `lo` and `hi`.
pub open spec fn in_order(chunks: Seq<Draft>, lo: int, hi: int) -> bool {
    &&& forall|i: int|
        0 <= i < chunks.len() ==> lo <= (#[trigger] chunks[i]).start <= chunks[i].end <= hi
    &&& forall|i: int, j: int|
        0 <= i < j < chunks.len() ==> (#[trigger] chunks[i]).end <= (#[trigger] chunks[j]).start
}

proof fn lemma_in_order_concat(a: Seq<Draft>, b: Seq<Draft>, lo: int, mid: int, hi: int)
    requires
        in_order(a, lo, mid),
        in_order(b, mid, hi),
        lo <= mid <= hi,
    ensures
        in_order(a + b, lo, hi),
{
    let all = a + b;
    assert forall|i: int| 0 <= i < all.len() implies lo <= (#[trigger] all[i]).start <= all[i].end
        <= hi by {
        if i < a.len() {
            assert(all[i] == a[i]);
        } else {
            assert(all[i] == b[i - a.len()]);
        }
    }
    assert forall|i: int, j: int| 0 <= i < j < all.len() implies (#[trigger] all[i]).end <= (
    #[trigger] all[j]).start by {
        if j < a.len() {
            assert(a[i].end <= a[j].start);
        } else if i >= a.len() {
            assert(b[i - a.len()].end <= b[j - a.len()].start);
        } else {
            assert(a[i].end <= mid);
            assert(mid <= b[j - a.len()].start);
        }
    }
}

proof fn lemma_pieces_in_order(section: Draft, max: nat, b: int)
    requires
        0 <= b <= text::lines(section.content).len(),
    ensures
        ({
            let lines = text::lines(section.content);
            in_order(
                pieces_from(section, max, b),
                section.start + offset(lines, b),
                section.start + offset(lines, lines.len() as int),
            )
        }),
    decreases text::lines(section.content).len() - b,
{
    let lines = text::lines(section.content);
    let n = lines.len() as int;
    lemma_span_len(lines, b, n);
    if b < n {
        lemma_piece_end(lines, max, b, b + 1);
        let e = piece_end(lines, max, b, b + 1);
        lemma_span_len(lines, b, e);
        lemma_span_len(lines, e, n);
        if !(e == n && text::is_blank(span(lines, b, e))) {
            lemma_pieces_in_order(section, max, e);
            lemma_in_order_concat(
                seq![piece(section, b, e)],
                pieces_from(section, max, e),
                section.start + offset(lines, b),
                section.start + offset(lines, e),
                section.start + offset(lines, n),
            );
        }
    }
}

/// Where the sections from `i` on begin, in a text of length `end`.
spec fn begins_at(sections: Seq<Draft>, i: int, end: int) -> int {
    if i < sections.len() {
        sections[i].start
    } else {
        end
    }
}

proof fn lemma_in_order_wider(chunks: Seq<Draft>, lo: int, hi: int, lower: int, higher: int)
    requires
        in_order(chunks, lo, hi),
        lower <= lo,
        hi <= higher,
    ensures
        in_order(chunks, lower, higher),
{
}

/// A group that begins with a section that is not blank passes over no long section.
proof fn lemma_group_unbroken(sections: Seq<Draft>, i: int, j: int)
    requires
        0 <= i < j <= sections.len(),
        !is_long(sections[i]),
        text::visible(group_text(sections, i, j)).len() > 0,
        pieces_between(sections, i, j) == Seq::<Draft>::empty(),
        last_end(sections, i, j) == sections[j - 1].end,
    ensures
        ({
            let e = group_end(sections, i, j);
            &&& pieces_between(sections, i, e) == Seq::<Draft>::empty()
            &&& last_end(sections, i, e) == sections[e - 1].end
            &&& !text::is_blank(group_text(sections, i, e))
        }),
    decreases sections.len() - j,
{
    let before = group_text(sections, i, j);
    if text::is_blank(before) {
        text::lemma_visible_blank(before);
    }
    if j < sections.len() && !group_closes(sections, i, j) {
        lemma_group_push(sections, i, j);
        text::lemma_visible_concat(before, "\n\n"@);
        text::lemma_visible_concat(before + "\n\n"@, sections[j].content);
        lemma_group_unbroken(sections, i, j + 1);
    }
}

/// The group of a section of a text: it passes over no long section, and has a chunk.
proof fn lemma_placed_group(s: Text, sections: Seq<Draft>, i: int)
    requires
        placed(s, sections),
        0 <= i < sections.len(),
        !is_long(sections[i]),
    ensures
        ({
            let e = group_end(sections, i, i + 1);
            &&& packed_from(sections, i) == seq![group(sections, i, e)] + packed_from(sections, e)
            &&& last_end(sections, i, e) == sections[e - 1].end
        }),
{
    let here = sections[i];
    text::lemma_trimmed_twice(s.subrange(here.start, here.end));
    lemma_group_one(sections, i);
    if text::visible(here.content).len() == 0 {
        text::lemma_blank_visible(here.content);
    }
    lemma_group_unbroken(sections, i, i + 1);
    let e = group_end(sections, i, i + 1);
    assert(packed_from(sections, i) =~= seq![group(sections, i, e)] + packed_from(sections, e));
}

proof fn lemma_packed_in_order(s: Text, sections: Seq<Draft>, i: int)
    requires
        placed(s, sections),
        0 <= i <= sections.len(),
    ensures
        in_order(packed_from(sections, i), begins_at(sections, i, s.len() as int), s.len() as int),
    decreases sections.len() - i,
{
    let end = s.len() as int;
    if i < sections.len() {
        let here = sections[i];
        let next = begins_at(sections, i + 1, end);
        assert(here.end <= next);
        if is_long(here) {
            lemma_packed_in_order(s, sections, i + 1);
            let lines = text::lines(here.content);
            let n = lines.len() as int;
            lemma_pieces_in_order(here, MAX_CHARS as nat, 0);
            lemma_lines_concat(here.content);
            assert(lines.subrange(0, n) =~= lines);
            assert(lines.subrange(0, 0) =~= Seq::<Text>::empty());
            let pieces = pieces_from(here, MAX_CHARS as nat, 0);
            lemma_in_order_wider(pieces, here.start, here.start + offset(lines, n), here.start, next);
            lemma_in_order_concat(
                pieces,
                packed_from(sections, i + 1),
                here.start,
                next,
                end,
            );
        } else {
            lemma_group_end(sections, i, i + 1);
            lemma_placed_group(s, sections, i);
            let j = group_end(sections, i, i + 1);
            lemma_packed_in_order(s, sections, j);
            let after = begins_at(sections, j, end);
            let last = sections[j - 1];
            assert(last.end <= after);
            assert(here.start <= last.start);
            let d = group(sections, i, j);
            assert(in_order(seq![d], here.start, after));
            lemma_in_order_concat(seq![d], packed_from(sections, j), here.start, after, end);
        }
    }
}

/// The chunks lie in the document one after another, without overlapping.
pub proof fn law_chunk_places(s: Text)
    ensures
        in_order(chunks_of(s), 0, s.len() as int),
{
    lemma_sections_placed(s);
    let sections = sections_of(s);
    lemma_packed_in_order(s, sections, 0);
    lemma_in_order_wider(
        chunks_of(s),
        begins_at(sections, 0, s.len() as int),
        s.len() as int,
        0,
        s.len() as int,
    );
}

/// Every section is the trimmed part of the document at its place, and none is blank.
pub proof fn law_sections_quote_text(s: Text, k: int)
    requires
        0 <= k < sections_of(s).len(),
    ensures
        ({
            let d = sections_of(s)[k];
            &&& 0 <= d.start <= d.end <= s.len()
            &&& d.content == text::trimmed(s.subrange(d.start, d.end))
            &&& d.content.len() > 0
        }),
{
    lemma_sections_placed(s);
}

/// Whether chunks begin at `lo` and each begins where the one before it ends.
pub open spec fn contiguous(chunks: Seq<Draft>, lo: int) -> bool {
    &&& chunks.len() > 0 ==> chunks[0].start == lo
    &&& forall|k: int|
        0 <= k < chunks.len() - 1 ==> (#[trigger] chunks[k]).end == chunks[k + 1].start
}

/// Where chunks that begin at `lo` end.
pub open spec fn end_of(chunks: Seq<Draft>, lo: int) -> int {
    if chunks.len() == 0 {
        lo
    } else {
        chunks.last().end
    }
}

proof fn lemma_contiguous_first(d: Draft, rest: Seq<Draft>)
    requires
        contiguous(rest, d.end),
    ensures
        contiguous(seq![d] + rest, d.start),
        end_of(seq![d] + rest, d.start) == end_of(rest, d.end),
{
    let all = seq![d] + rest;
    assert forall|k: int| 0 <= k < all.len() - 1 implies (#[trigger] all[k]).end == all[k + 1].start by {
        if k > 0 {
            assert(all[k] == rest[k - 1]);
            assert(all[k + 1] == rest[k]);
        } else {
            assert(all[1] == rest[0]);
        }
    }
    if rest.len() > 0 {
        assert(all.last() == rest.last());
    }
}

/// Whether a piece is the trimmed part of its section at its place.
pub open spec fn quotes(section: Draft, d: Draft) -> bool {
    &&& section.start <= d.start <= d.end <= section.start + section.content.len()
    &&& d.content == text::trimmed(
        section.content.subrange(d.start - section.start, d.end - section.start),
    )
}

#[verifier::rlimit(60)]
proof fn lemma_pieces_tile(section: Draft, max: nat, b: int)
    requires
        0 <= b <= text::lines(section.content).len(),
    ensures
        ({
            let pieces = pieces_from(section, max, b);
            let lo = section.start + offset(text::lines(section.content), b);
            let end = end_of(pieces, lo);
            &&& contiguous(pieces, lo)
            &&& lo <= end <= section.start + section.content.len()
            &&& text::is_blank(section.content.skip(end - section.start))
            &&& forall|k: int| 0 <= k < pieces.len() ==> quotes(section, #[trigger] pieces[k])
        }),
    decreases text::lines(section.content).len() - b,
{
    let lines = text::lines(section.content);
    let n = lines.len() as int;
    let pieces = pieces_from(section, max, b);
    lemma_lines_concat(section.content);
    lemma_span_is_subrange(lines, section.content, b, n);
    assert(lines.subrange(0, n) =~= lines);
    assert(section.content.skip(offset(lines, b)) =~= span(lines, b, n));
    if b == n {
        assert(section.content.skip(offset(lines, n)) =~= Seq::<char>::empty());
        assert(text::is_blank(Seq::<char>::empty()));
    } else {
        lemma_piece_end(lines, max, b, b + 1);
        let e = piece_end(lines, max, b, b + 1);
        if !(e == n && text::is_blank(span(lines, b, e))) {
            lemma_span_is_subrange(lines, section.content, b, e);
            lemma_pieces_tile(section, max, e);
            let d = piece(section, b, e);
            let rest = pieces_from(section, max, e);
            lemma_contiguous_first(d, rest);
            assert forall|k: int| 0 <= k < pieces.len() implies quotes(section, #[trigger] pieces[k]) by {
                if k > 0 {
                    assert(pieces[k] == rest[k - 1]);
                }
            }
        }
    }
}

/// The pieces of a section tile it: each is the trimmed part of the section at its place, the first
/// begins where the section does, each further one where the one before it ends, and what is left
/// after the last is blank.
pub proof fn law_pieces_tile(section: Draft, max: nat)
    ensures
        ({
            let pieces = pieces_from(section, max, 0);
            let end = end_of(pieces, section.start);
            &&& contiguous(pieces, section.start)
            &&& section.start <= end <= section.start + section.content.len()
            &&& text::is_blank(section.content.skip(end - section.start))
            &&& forall|k: int| 0 <= k < pieces.len() ==> quotes(section, #[trigger] pieces[k])
        }),
{
    let lines = text::lines(section.content);
    assert(lines.subrange(0, 0) =~= Seq::<Text>::empty());
    lemma_pieces_tile(section, max, 0);
}

proof fn lemma_heading_visible(line: Text)
    requires
        pattern::is_heading_line(line),
    ensures
        text::visible(line).len() > 0,
{
    if text::visible(line).len() == 0 {
        text::lemma_blank_visible(line);
        assert(text::trimmed(line).len() == 0);
    }
}

proof fn lemma_sections_tile(lines: Seq<Text>, b: int)
    requires
        0 <= b <= lines.len(),
        b < lines.len() ==> !text::is_blank(span(lines, b, section_end(lines, b, b))),
    ensures
        contiguous(sections_from(lines, b), offset(lines, b)),
        end_of(sections_from(lines, b), offset(lines, b)) == offset(lines, lines.len() as int),
    decreases lines.len() - b,
{
    if b < lines.len() {
        lemma_section_end(lines, b, b);
        let e = section_end(lines, b, b);
        if e < lines.len() {
            lemma_section_end(lines, e, e);
            let f = section_end(lines, e, e);
            lemma_heading_visible(lines[e]);
            assert(lines.subrange(e, e) =~= Seq::<Text>::empty());
            lemma_span_push(lines, e, e);
            assert(span(lines, e, e + 1) =~= lines[e]);
            lemma_span_concat(lines, e, e + 1, f);
            text::lemma_visible_concat(lines[e], span(lines, e + 1, f));
            if text::is_blank(span(lines, e, f)) {
                text::lemma_visible_blank(span(lines, e, f));
            }
        }
        lemma_sections_tile(lines, e);
        lemma_contiguous_first(section(lines, b, e), sections_from(lines, e));
    }
}

/// The sections of a text that is not blank tile it: the first begins at its start, each further one
/// where the one before it ends, and the last ends at its end. A blank text has none.
pub proof fn law_sections_tile(s: Text)
    ensures
        text::is_blank(s) ==> sections_of(s).len() == 0,
        !text::is_blank(s) ==> {
            &&& sections_of(s).len() > 0
            &&& contiguous(sections_of(s), 0)
            &&& sections_of(s).last().end == s.len()
        },
{
    let lines = text::lines(s);
    let n = lines.len() as int;
    lemma_lines_concat(s);
    assert(lines.subrange(0, n) =~= lines);
    assert(lines.subrange(0, 0) =~= Seq::<Text>::empty());
    if n > 0 {
        lemma_section_end(lines, 0, 0);
        let e = section_end(lines, 0, 0);
        if text::is_blank(span(lines, 0, e)) {
            assert(e == n);
        } else {
            lemma_sections_tile(lines, 0);
            if text::is_blank(s) {
                text::lemma_visible_blank(s);
                lemma_span_concat(lines, 0, e, n);
                text::lemma_visible_concat(span(lines, 0, e), span(lines, e, n));
                assert(text::visible(span(lines, 0, e)).len() == 0);
                text::lemma_blank_visible(span(lines, 0, e));
            }
        }
    } else {
        assert(text::is_blank(Seq::<char>::empty()));
        assert(s =~= Seq::<char>::empty());
    }
}

/// Whether a chunk that ends at `end` joins what begins at `next`: directly, or as the end of a long
/// section. The pieces of a long section are counted from its start without the white space around
/// it, so that the last of them ends by so much before the section does.
pub open spec fn joins(sections: Seq<Draft>, end: int, next: int) -> bool {
    end == next || exists|m: int|
        0 <= m < sections.len() && is_long(#[trigger] sections[m]) && end == sections[m].start
            + sections[m].content.len() && next == sections[m].end
}

/// Whether chunks fill the text from `lo` to `hi`.
pub open spec fn fill(sections: Seq<Draft>, chunks: Seq<Draft>, lo: int, hi: int) -> bool {
    if chunks.len() == 0 {
        lo == hi
    } else {
        &&& chunks[0].start == lo
        &&& joins(sections, chunks.last().end, hi)
        &&& forall|k: int|
            0 <= k < chunks.len() - 1 ==> joins(
                sections,
                (#[trigger] chunks[k]).end,
                chunks[k + 1].start,
            )
    }
}

proof fn lemma_fill_concat(
    sections: Seq<Draft>,
    a: Seq<Draft>,
    b: Seq<Draft>,
    lo: int,
    mid: int,
    hi: int,
)
    requires
        fill(sections, a, lo, mid),
        fill(sections, b, mid, hi),
    ensures
        fill(sections, a + b, lo, hi),
{
    let all = a + b;
    if a.len() == 0 {
        assert(all =~= b);
    } else if b.len() == 0 {
        assert(all =~= a);
    } else {
        assert(all.last() == b.last());
        assert forall|k: int| 0 <= k < all.len() - 1 implies joins(
            sections,
            (#[trigger] all[k]).end,
            all[k + 1].start,
        ) by {
            if k < a.len() - 1 {
                assert(all[k] == a[k] && all[k + 1] == a[k + 1]);
            } else if k == a.len() - 1 {
                assert(all[k] == a.last() && all[k + 1] == b[0]);
            } else {
                assert(all[k] == b[k - a.len()] && all[k + 1] == b[k - a.len() + 1]);
            }
        }
    }
}

proof fn lemma_packed_fill(s: Text, sections: Seq<Draft>, i: int)
    requires
        placed(s, sections),
        contiguous(sections, 0),
        sections.len() > 0,
        sections.last().end == s.len(),
        0 <= i <= sections.len(),
    ensures
        fill(sections, packed_from(sections, i), begins_at(sections, i, s.len() as int), s.len() as int),
    decreases sections.len() - i,
{
    let end = s.len() as int;
    if i < sections.len() {
        let here = sections[i];
        let next = begins_at(sections, i + 1, end);
        assert(here.end == next);
        if is_long(here) {
            lemma_packed_fill(s, sections, i + 1);
            let pieces = pieces_from(here, MAX_CHARS as nat, 0);
            law_pieces_tile(here, MAX_CHARS as nat);
            let stop = end_of(pieces, here.start);
            let left = here.content.skip(stop - here.start);
            text::lemma_trimmed_twice(s.subrange(here.start, here.end));
            if left.len() > 0 {
                text::lemma_visible_blank(left);
                text::lemma_trimmed_last(here.content);
                assert(left.last() == here.content.last());
            }
            assert(stop == here.start + here.content.len());
            assert(joins(sections, stop, next));
            assert(fill(sections, pieces, here.start, next));
            lemma_fill_concat(
                sections,
                pieces,
                packed_from(sections, i + 1),
                here.start,
                next,
                end,
            );
        } else {
            lemma_group_end(sections, i, i + 1);
            lemma_placed_group(s, sections, i);
            let j = group_end(sections, i, i + 1);
            lemma_packed_fill(s, sections, j);
            let after = begins_at(sections, j, end);
            assert(sections[j - 1].end == after);
            let d = group(sections, i, j);
            assert(fill(sections, seq![d], here.start, after));
            lemma_fill_concat(
                sections,
                seq![d],
                packed_from(sections, j),
                here.start,
                after,
                end,
            );
        }
    }
}

/// The chunks of a text that is not blank fill it from its start to its end, each joining the next. A
/// blank text has none.
pub proof fn law_chunks_fill_text(s: Text)
    ensures
        text::is_blank(s) ==> chunks_of(s).len() == 0,
        !text::is_blank(s) ==> fill(sections_of(s), chunks_of(s), 0, s.len() as int),
{
    law_sections_tile(s);
    if !text::is_blank(s) {
        lemma_sections_placed(s);
        lemma_packed_fill(s, sections_of(s), 0);
    }
}

// ---------------------------------------------------------------------------------------------
// Heading paths

/// Whether the heading of line `k` is in force after some lines: no later heading stands at its level
/// or above.
pub open spec fn in_force(lines: Seq<Text>, k: int) -> bool {
    &&& 0 <= k < lines.len()
    &&& pattern::is_heading_line(lines[k])
    &&& forall|m: int|
        k < m < lines.len() && pattern::is_heading_line(#[trigger] lines[m]) ==> level_of(
            text::trimmed(lines[m]),
        ) > level_of(text::trimmed(lines[k]))
}

/// A chapter stands above a section, a section above a subsection, that above a division, that above
/// an article, and an article above a title in brackets.
pub proof fn law_levels(upper: Text, lower: Text)
    ensures
        upper.contains('章') && !lower.contains('章') ==> level_of(upper) < level_of(lower),
        upper.contains('節') && !lower.contains('章') && !lower.contains('節') ==> level_of(upper)
            < level_of(lower),
        upper.contains('款') && !lower.contains('章') && !lower.contains('節') && !lower.contains(
            '款',
        ) ==> level_of(upper) < level_of(lower),
        upper.contains('目') && !lower.contains('章') && !lower.contains('節') && !lower.contains('款')
            && !lower.contains('目') ==> level_of(upper) < level_of(lower),
        upper.contains('条') && !lower.contains('章') && !lower.contains('節') && !lower.contains('款')
            && !lower.contains('目') && !lower.contains('条') ==> level_of(upper) < level_of(lower),
        upper.contains('章') && lower.contains('章') ==> level_of(upper) == level_of(lower),
        upper.contains('条') && lower.contains('条') && !upper.contains('章') && !upper.contains('節')
            && !upper.contains('款') && !upper.contains('目') && !lower.contains('章')
            && !lower.contains('節') && !lower.contains('款') && !lower.contains('目') ==> level_of(
            upper,
        ) == level_of(lower),
{
}

#[verifier::rlimit(40)]
proof fn lemma_stack(lines: Seq<Text>)
    ensures
        forall|k: int| #[trigger] in_force(lines, k) ==> level_of(text::trimmed(lines[k]))
            < stack_after(lines).len() && stack_after(lines)[level_of(text::trimmed(lines[k])) as int]
            == text::trimmed(lines[k]),
        forall|i: int|
            0 <= i < stack_after(lines).len() && (#[trigger] stack_after(lines)[i]).len() > 0
                ==> exists|k: int|
                #[trigger] in_force(lines, k) && level_of(text::trimmed(lines[k])) == i
                    && text::trimmed(lines[k]) == stack_after(lines)[i],
    decreases lines.len(),
{
    if lines.len() > 0 {
        let front = lines.drop_last();
        let n = lines.len() - 1;
        lemma_stack(front);
        let before = stack_after(front);
        let stack = stack_after(lines);
        let h = text::trimmed(lines[n]);
        text::lemma_trimmed_twice(lines[n]);
        let heading = pattern::is_heading_line(lines[n]);
        assert forall|k: int| 0 <= k < n implies (#[trigger] in_force(lines, k) <==> in_force(front, k)
            && (heading ==> level_of(h) > level_of(text::trimmed(lines[k])))) by {
            if in_force(lines, k) {
                assert forall|m: int|
                    k < m < front.len() && pattern::is_heading_line(#[trigger] front[m]) implies level_of(
                    text::trimmed(front[m]),
                ) > level_of(text::trimmed(front[k])) by {
                    assert(lines[m] == front[m]);
                }
                if heading {
                    assert(pattern::is_heading_line(lines[n]));
                }
            }
            if in_force(front, k) && (heading ==> level_of(h) > level_of(text::trimmed(lines[k]))) {
                assert forall|m: int|
                    k < m < lines.len() && pattern::is_heading_line(#[trigger] lines[m]) implies level_of(
                    text::trimmed(lines[m]),
                ) > level_of(text::trimmed(lines[k])) by {
                    if m < n {
                        assert(front[m] == lines[m]);
                    }
                }
            }
        }
        assert forall|k: int| #[trigger] in_force(lines, k) implies level_of(text::trimmed(lines[k]))
            < stack.len() && stack[level_of(text::trimmed(lines[k])) as int] == text::trimmed(
            lines[k],
        ) by {
            if k < n {
                assert(in_force(front, k));
            }
        }
        assert forall|i: int| 0 <= i < stack.len() && (#[trigger] stack[i]).len() > 0 implies exists|
            k: int,
        |
            #[trigger] in_force(lines, k) && level_of(text::trimmed(lines[k])) == i && text::trimmed(
                lines[k],
            ) == stack[i] by {
            if heading && i == level_of(h) {
                assert(in_force(lines, n));
            } else {
                assert(i < before.len() && before[i] == stack[i]);
                let k = choose|k: int|
                    #[trigger] in_force(front, k) && level_of(text::trimmed(front[k])) == i
                        && text::trimmed(front[k]) == before[i];
                assert(in_force(lines, k));
            }
        }
    }
}

/// The path after some lines names every heading in force, in whole.
pub proof fn law_path_names_headings(lines: Seq<Text>, k: int)
    requires
        in_force(lines, k),
    ensures
        text::occurs_in(text::trimmed(lines[k]), path_after(lines)),
{
    lemma_stack(lines);
    let stack = stack_after(lines);
    let i = level_of(text::trimmed(lines[k])) as int;
    text::lemma_joined_holds(stack, " > "@, i);
    assert(text::occurs_at(
        stack[i],
        path_after(lines),
        text::joined_place(stack, " > "@, i),
    ));
}

proof fn lemma_joined_later(items: Seq<Text>, sep: Text, i: int, j: int)
    requires
        0 <= i < j < items.len(),
    ensures
        text::joined_place(items, sep, i) + items[i].len() + sep.len() <= text::joined_place(
            items,
            sep,
            j,
        ),
    decreases j - i,
{
    text::lemma_joined_holds(items, sep, i);
    if i + 1 < j {
        lemma_joined_later(items, sep, i + 1, j);
    }
}

/// Of two headings in force the upper one comes first in the path, with an arrow directly behind it
/// and one directly before the lower one.
pub proof fn law_path_orders_headings(lines: Seq<Text>, upper: int, lower: int) -> (r: (int, int))
    requires
        in_force(lines, upper),
        in_force(lines, lower),
        upper < lower,
    ensures
        ({
            let path = path_after(lines);
            let first = text::trimmed(lines[upper]);
            let second = text::trimmed(lines[lower]);
            &&& text::occurs_at(first, path, r.0)
            &&& text::occurs_at(" > "@, path, r.0 + first.len())
            &&& text::occurs_at(second, path, r.1)
            &&& text::occurs_at(" > "@, path, r.1 - 3)
            &&& r.0 + first.len() + 3 <= r.1
        }),
{
    lemma_stack(lines);
    reveal_strlit(" > ");
    let stack = stack_after(lines);
    let i = level_of(text::trimmed(lines[upper])) as int;
    let j = level_of(text::trimmed(lines[lower])) as int;
    assert(pattern::is_heading_line(lines[lower]));
    assert(i < j);
    let sep = " > "@;
    text::lemma_joined_holds(stack, sep, i);
    text::lemma_joined_holds(stack, sep, i + 1);
    text::lemma_joined_holds(stack, sep, j);
    lemma_joined_later(stack, sep, i, j);
    (text::joined_place(stack, sep, i), text::joined_place(stack, sep, j))
}

/// The path after some lines is made of headings in force and of empty levels, with arrows between
/// them, and of nothing else.
pub proof fn law_path_names_nothing_else(lines: Seq<Text>) -> (parts: Seq<Text>)
    ensures
        path_after(lines) == text::joined(parts, " > "@),
        parts.len() <= 6,
        forall|i: int|
            0 <= i < parts.len() && (#[trigger] parts[i]).len() > 0 ==> exists|k: int|
                #[trigger] in_force(lines, k) && text::trimmed(lines[k]) == parts[i],
{
    lemma_stack(lines);
    lemma_stack_len(lines);
    stack_after(lines)
}

proof fn lemma_stack_len(lines: Seq<Text>)
    ensures
        stack_after(lines).len() <= 6,
    decreases lines.len(),
{
    if lines.len() > 0 {
        lemma_stack_len(lines.drop_last());
    }
}

proof fn lemma_section_lines(lines: Seq<Text>, b: int, i: int) -> (e: int)
    requires
        0 <= b <= lines.len(),
        0 <= i < sections_from(lines, b).len(),
    ensures
        b < e <= lines.len(),
        sections_from(lines, b)[i].end == offset(lines, e),
        sections_from(lines, b)[i].heading == path_after(lines.take(e)),
    decreases lines.len() - b,
{
    lemma_section_end(lines, b, b);
    let e = section_end(lines, b, b);
    if i == 0 {
        e
    } else {
        assert(sections_from(lines, b)[i] == sections_from(lines, e)[i - 1]);
        lemma_section_lines(lines, e, i - 1)
    }
}

proof fn lemma_offset_grows(lines: Seq<Text>, a: int, b: int)
    requires
        0 <= a <= b <= lines.len(),
        forall|i: int| 0 <= i < lines.len() ==> (#[trigger] lines[i]).len() > 0,
    ensures
        a < b ==> offset(lines, a) < offset(lines, b),
    decreases b - a,
{
    if a < b {
        lemma_offset_grows(lines, a, b - 1);
        lemma_span_push(lines, 0, b - 1);
    }
}

/// A section of a text stands under every heading in force at its end: the heading of a line before
/// its end, which no later heading of the same level or above replaces before its end, stands in its
/// heading path.
pub proof fn law_sections_name_headings(s: Text, i: int, k: int)
    requires
        0 <= i < sections_of(s).len(),
        0 <= k < text::lines(s).len(),
        pattern::is_heading_line(text::lines(s)[k]),
        offset(text::lines(s), k) < sections_of(s)[i].end,
        forall|m: int|
            k < m < text::lines(s).len() && pattern::is_heading_line(#[trigger] text::lines(s)[m])
                && offset(text::lines(s), m) < sections_of(s)[i].end ==> level_of(
                text::trimmed(text::lines(s)[m]),
            ) > level_of(text::trimmed(text::lines(s)[k])),
    ensures
        text::occurs_in(text::trimmed(text::lines(s)[k]), sections_of(s)[i].heading),
{
    let lines = text::lines(s);
    lemma_lines_nonempty(s);
    let e = lemma_section_lines(lines, 0, i);
    if e <= k {
        lemma_offset_grows(lines, e, k);
    }
    let taken = lines.take(e);
    assert forall|m: int| k < m < taken.len() && pattern::is_heading_line(#[trigger] taken[m]) implies level_of(
        text::trimmed(taken[m]),
    ) > level_of(text::trimmed(taken[k])) by {
        lemma_offset_grows(lines, m, e);
        assert(lines[m] == taken[m]);
    }
    assert(in_force(taken, k));
    law_path_names_headings(taken, k);
}

proof fn lemma_packed_heading(sections: Seq<Draft>, i: int, k: int)
    requires
        0 <= i <= sections.len(),
        0 <= k < packed_from(sections, i).len(),
    ensures
        exists|m: int|
            i <= m < sections.len() && (#[trigger] sections[m]).heading == packed_from(
                sections,
                i,
            )[k].heading && sections[m].start <= packed_from(sections, i)[k].start
                < sections[m].start + sections[m].content.len(),
    decreases sections.len() - i,
{
    if i < sections.len() {
        let all = packed_from(sections, i);
        if is_long(sections[i]) {
            let pieces = pieces_from(sections[i], MAX_CHARS as nat, 0);
            if k < pieces.len() {
                assert(all[k] == pieces[k]);
                lemma_piece_heading(sections[i], 0, k);
            } else {
                assert(all[k] == packed_from(sections, i + 1)[k - pieces.len()]);
                lemma_packed_heading(sections, i + 1, k - pieces.len());
            }
        } else if sections[i].content.len() == 0 {
            lemma_packed_heading(sections, i + 1, k);
        } else {
            lemma_group_end(sections, i, i + 1);
            let j = group_end(sections, i, i + 1);
            let passed = pieces_between(sections, i, j);
            let chunk = group_chunk(sections, i, j);
            if k < passed.len() {
                assert(all[k] == passed[k]);
                lemma_between_heading(sections, i, j, k);
            } else if k < passed.len() + chunk.len() {
                assert(all[k] == group(sections, i, j));
                assert(sections[i].heading == all[k].heading);
            } else {
                assert(all[k] == packed_from(sections, j)[k - passed.len() - chunk.len()]);
                lemma_packed_heading(sections, j, k - passed.len() - chunk.len());
            }
        }
    }
}

proof fn lemma_piece_heading(section: Draft, b: int, k: int)
    requires
        0 <= b <= text::lines(section.content).len(),
        0 <= k < pieces_from(section, MAX_CHARS as nat, b).len(),
    ensures
        pieces_from(section, MAX_CHARS as nat, b)[k].heading == section.heading,
        section.start <= pieces_from(section, MAX_CHARS as nat, b)[k].start < section.start
            + section.content.len(),
    decreases text::lines(section.content).len() - b,
{
    let lines = text::lines(section.content);
    let max = MAX_CHARS as nat;
    lemma_piece_end(lines, max, b, b + 1);
    let e = piece_end(lines, max, b, b + 1);
    if k > 0 {
        assert(pieces_from(section, max, b)[k] == pieces_from(section, max, e)[k - 1]);
        lemma_piece_heading(section, e, k - 1);
    } else {
        let n = lines.len() as int;
        lemma_lines_nonempty(section.content);
        lemma_lines_concat(section.content);
        lemma_offset_grows(lines, b, n);
        assert(lines.subrange(0, n) =~= lines);
    }
}

proof fn lemma_between_heading(sections: Seq<Draft>, i: int, j: int, k: int)
    requires
        0 <= i <= j <= sections.len(),
        0 <= k < pieces_between(sections, i, j).len(),
    ensures
        exists|m: int|
            i <= m < sections.len() && (#[trigger] sections[m]).heading == pieces_between(
                sections,
                i,
                j,
            )[k].heading && sections[m].start <= pieces_between(sections, i, j)[k].start
                < sections[m].start + sections[m].content.len(),
    decreases j - i,
{
    let before = pieces_between(sections, i, j - 1);
    if k < before.len() {
        assert(pieces_between(sections, i, j)[k] == before[k]);
        lemma_between_heading(sections, i, j - 1, k);
    } else {
        let pieces = pieces_from(sections[j - 1], MAX_CHARS as nat, 0);
        assert(pieces_between(sections, i, j)[k] == pieces[k - before.len()]);
        lemma_piece_heading(sections[j - 1], 0, k - before.len());
        assert(sections[j - 1].heading == pieces[k - before.len()].heading);
    }
}

/// A chunk stands under the heading path of the section in which it begins.
pub proof fn law_chunks_keep_headings(sections: Seq<Draft>, k: int)
    requires
        0 <= k < packed(sections).len(),
    ensures
        exists|m: int|
            0 <= m < sections.len() && (#[trigger] sections[m]).heading == packed(sections)[k].heading
                && sections[m].start <= packed(sections)[k].start < sections[m].start
                + sections[m].content.len(),
{
    lemma_packed_heading(sections, 0, k);
}

/// Two short sections that follow one another make one chunk, under the heading of the first, where
/// they stand under the same heading and have at most 1400 characters together; otherwise each makes
/// its own.
#[verifier::rlimit(40)]
pub proof fn law_two_sections_join(a: Draft, b: Draft)
    requires
        0 < a.content.len() <= 2400,
        0 < b.content.len() <= 2400,
        text::trimmed(a.content) == a.content,
        text::trimmed(b.content) == b.content,
        a.heading.len() > 0,
        b.heading.len() > 0,
    ensures
        ({
            let chunks = packed(seq![a, b]);
            if a.heading == b.heading && a.content.len() + b.content.len() <= 1400 {
                &&& chunks.len() == 1
                &&& chunks[0].content == a.content + "\n\n"@ + b.content
                &&& chunks[0].heading == a.heading
                &&& chunks[0].start == a.start
                &&& chunks[0].end == b.end
            } else {
                chunks =~= seq![a, b]
            }
        }),
{
    let sections = seq![a, b];
    assert(sections[0] == a && sections[1] == b);
    lemma_group_one(sections, 0);
    lemma_group_one(sections, 1);
    lemma_group_push(sections, 0, 1);
    reveal_with_fuel(group_end, 3);
    reveal_with_fuel(packed_from, 3);
    reveal_with_fuel(pieces_between, 3);
    reveal_with_fuel(last_end, 3);
    let whole = a.content + "\n\n"@ + b.content;
    if a.heading == b.heading && a.content.len() + b.content.len() <= 1400 {
        text::lemma_trimmed_ends(a.content);
        text::lemma_trimmed_ends(b.content);
        assert(whole[0] == a.content[0]);
        assert(whole.last() == b.content.last());
        text::lemma_trimmed_by_ends(whole);
        assert(packed(sections) =~= seq![group(sections, 0, 2)]);
    } else {
        assert(packed(sections) =~= seq![group(sections, 0, 1), group(sections, 1, 2)]);
        assert(group(sections, 0, 1) == a);
        assert(group(sections, 1, 2) == b);
    }
}

/// A section of more than 2400 characters is never packed whole with another one: it is split where
/// its lines allow it.
pub proof fn law_long_sections_split(section: Draft)
    requires
        section.content.len() > 2400,
    ensures
        packed(seq![section]) == pieces_from(section, 2400, 0),
        forall|k: int|
            0 <= k < packed(seq![section]).len() ==> (#[trigger] packed(seq![section])[k]).content.len()
                <= 2400 || !packed(seq![section])[k].content.contains('\n'),
{
    let sections = seq![section];
    assert(sections[0] == section);
    reveal_with_fuel(packed_from, 2);
    assert(packed(sections) =~= pieces_from(section, 2400, 0));
    lemma_pieces_sized(section, 0);
    assert forall|k: int| 0 <= k < packed(sections).len() implies (#[trigger] packed(
        sections,
    )[k]).content.len() <= 2400 || !packed(sections)[k].content.contains('\n') by {
        assert(is_sized(pieces_from(section, 2400, 0)[k]));
    }
}

proof fn lemma_span_not_blank(lines: Seq<Text>, b: int, e: int, k: int)
    requires
        0 <= b <= k < e <= lines.len(),
        !text::is_blank(lines[k]),
    ensures
        !text::is_blank(span(lines, b, e)),
{
    lemma_span_concat(lines, b, k, e);
    lemma_span_concat(lines, k, k + 1, e);
    let own = span(lines, k, k + 1);
    assert(lines.subrange(k, k) =~= Seq::<Text>::empty());
    lemma_span_push(lines, k, k);
    assert(own =~= lines[k]);
    text::lemma_visible_concat(span(lines, b, k), span(lines, k, e));
    text::lemma_visible_concat(own, span(lines, k + 1, e));
    if text::is_blank(span(lines, b, e)) {
        text::lemma_visible_blank(span(lines, b, e));
        assert(text::visible(own).len() == 0);
        text::lemma_blank_visible(own);
    }
}

proof fn lemma_first_ending(lines: Seq<Text>, b: int, j: int, k: int)
    requires
        0 <= b <= j <= k < lines.len(),
        section_ends(lines, b, k),
    ensures
        section_end(lines, b, j) <= k,
    decreases k - j,
{
    if j < k && !section_ends(lines, b, j) {
        lemma_first_ending(lines, b, j + 1, k);
    }
}

proof fn lemma_heading_opens(lines: Seq<Text>, b: int, k: int) -> (i: int)
    requires
        0 <= b <= k < lines.len(),
        pattern::is_heading_line(lines[k]),
        !text::is_blank(span(lines, b, k)),
    ensures
        0 < i < sections_from(lines, b).len(),
        sections_from(lines, b)[i].start == offset(lines, k),
    decreases lines.len() - b,
{
    lemma_section_end(lines, b, b);
    lemma_first_ending(lines, b, b, k);
    let e = section_end(lines, b, b);
    let all = sections_from(lines, b);
    let rest = sections_from(lines, e);
    lemma_heading_visible(lines[k]);
    assert(!text::is_blank(span(lines, b, e)));
    assert(all =~= seq![section(lines, b, e)] + rest);
    if e == k {
        lemma_section_end(lines, k, k);
        let f = section_end(lines, k, k);
        assert(text::is_blank(span(lines, k, k))) by {
            assert(lines.subrange(k, k) =~= Seq::<Text>::empty());
        }
        assert(f > k);
        lemma_span_not_blank(lines, k, f, k);
        assert(rest[0] == section(lines, k, f));
        1
    } else {
        lemma_heading_visible(lines[e]);
        lemma_span_not_blank(lines, e, k, e);
        let i = lemma_heading_opens(lines, e, k);
        assert(all[i + 1] == rest[i]);
        i + 1
    }
}

/// Every heading with text before it begins a section of its own.
pub proof fn law_headings_open_sections(s: Text, k: int) -> (i: int)
    requires
        0 <= k < text::lines(s).len(),
        pattern::is_heading_line(text::lines(s)[k]),
        !text::is_blank(span(text::lines(s), 0, k)),
    ensures
        0 < i < sections_of(s).len(),
        sections_of(s)[i].start == offset(text::lines(s), k),
{
    lemma_heading_opens(text::lines(s), 0, k)
}

proof fn lemma_section_begins(lines: Seq<Text>, b: int, i: int) -> (k: int)
    requires
        0 <= b <= lines.len(),
        0 <= i < sections_from(lines, b).len(),
    ensures
        b <= k < lines.len(),
        sections_from(lines, b)[i].start == offset(lines, k),
        i > 0 ==> pattern::is_heading_line(lines[k]),
        i == 0 ==> k == b,
    decreases lines.len() - b,
{
    lemma_section_end(lines, b, b);
    let e = section_end(lines, b, b);
    if i == 0 {
        b
    } else {
        assert(sections_from(lines, b)[i] == sections_from(lines, e)[i - 1]);
        lemma_section_begins(lines, e, i - 1)
    }
}

/// Every section but the first begins with a heading.
pub proof fn law_sections_begin_with_headings(s: Text, i: int) -> (k: int)
    requires
        0 < i < sections_of(s).len(),
    ensures
        0 <= k < text::lines(s).len(),
        pattern::is_heading_line(text::lines(s)[k]),
        sections_of(s)[i].start == offset(text::lines(s), k),
{
    lemma_section_begins(text::lines(s), 0, i)
}

/// A section stands under nothing but headings in force: its heading path is made of headings of lines
/// before its end which no later heading of their level or above replaces, and of empty levels.
pub proof fn law_sections_name_nothing_else(s: Text, i: int) -> (r: (int, Seq<Text>))
    requires
        0 <= i < sections_of(s).len(),
    ensures
        0 <= r.0 <= text::lines(s).len(),
        sections_of(s)[i].end == offset(text::lines(s), r.0),
        sections_of(s)[i].heading == text::joined(r.1, " > "@),
        forall|p: int|
            0 <= p < r.1.len() && (#[trigger] r.1[p]).len() > 0 ==> exists|k: int|
                #[trigger] in_force(text::lines(s).take(r.0), k) && text::trimmed(text::lines(s)[k])
                    == r.1[p],
{
    let lines = text::lines(s);
    let e = lemma_section_lines(lines, 0, i);
    let taken = lines.take(e);
    let parts = law_path_names_nothing_else(taken);
    assert forall|p: int| 0 <= p < parts.len() && (#[trigger] parts[p]).len() > 0 implies exists|k: int|
        #[trigger] in_force(taken, k) && text::trimmed(lines[k]) == parts[p] by {
        let k = choose|k: int| #[trigger] in_force(taken, k) && text::trimmed(taken[k]) == parts[p];
        assert(taken[k] == lines[k]);
    }
    (e, parts)
}

proof fn lemma_piece_full(lines: Seq<Text>, max: nat, b: int, k: int)
    requires
        0 <= b < k <= lines.len(),
    ensures
        piece_end(lines, max, b, k) < lines.len() ==> span(
            lines,
            b,
            piece_end(lines, max, b, k),
        ).len() + lines[piece_end(lines, max, b, k)].len() > max,
    decreases lines.len() - k,
{
    if k < lines.len() && !(span(lines, b, k).len() > 0 && span(lines, b, k).len() + lines[k].len()
        > max) {
        lemma_piece_full(lines, max, b, k + 1);
    }
}

proof fn lemma_pieces_full(section: Draft, max: nat, b: int, k: int) -> (n: int)
    requires
        0 <= b <= text::lines(section.content).len(),
        0 <= k < pieces_from(section, max, b).len() - 1,
    ensures
        b < n < text::lines(section.content).len(),
        pieces_from(section, max, b)[k].end == section.start + offset(text::lines(section.content), n),
        pieces_from(section, max, b)[k].end - pieces_from(section, max, b)[k].start + text::lines(
            section.content,
        )[n].len() > max,
    decreases text::lines(section.content).len() - b,
{
    let lines = text::lines(section.content);
    lemma_piece_end(lines, max, b, b + 1);
    let e = piece_end(lines, max, b, b + 1);
    if k == 0 {
        assert(pieces_from(section, max, e).len() > 0);
        lemma_piece_full(lines, max, b, b + 1);
        lemma_span_len(lines, b, e);
        e
    } else {
        assert(pieces_from(section, max, b)[k] == pieces_from(section, max, e)[k - 1]);
        lemma_pieces_full(section, max, e, k - 1)
    }
}

/// A piece takes in as many lines as fit: with the line behind it, every piece but the last would have
/// more characters than a piece may have.
pub proof fn law_pieces_are_full(section: Draft, max: nat, k: int) -> (n: int)
    requires
        0 <= k < pieces_from(section, max, 0).len() - 1,
    ensures
        0 < n < text::lines(section.content).len(),
        pieces_from(section, max, 0)[k].end == section.start + offset(text::lines(section.content), n),
        pieces_from(section, max, 0)[k].end - pieces_from(section, max, 0)[k].start + text::lines(
            section.content,
        )[n].len() > max,
{
    lemma_pieces_full(section, max, 0, k)
}

proof fn lemma_group_heading(sections: Seq<Draft>, i: int, j: int, m: int)
    requires
        0 <= i < j <= sections.len(),
        j <= m < group_end(sections, i, j),
        !is_long(sections[m]),
    ensures
        sections[m].heading.len() == 0 || sections[i].heading.len() == 0 || sections[m].heading
            == sections[i].heading,
        group_text(sections, i, m).len() + sections[m].content.len() <= 1400,
    decreases sections.len() - j,
{
    if j < m {
        lemma_group_heading(sections, i, j + 1, m);
    }
}

/// Sections are put together only under one heading path, and only up to 1400 characters: where a chunk
/// holds two sections, their heading paths are the same or one of them is empty.
pub proof fn law_groups_share_headings(sections: Seq<Draft>, i: int, m: int)
    requires
        0 <= i < m < group_end(sections, i, i + 1),
        m < sections.len(),
        !is_long(sections[m]),
    ensures
        sections[m].heading.len() == 0 || sections[i].heading.len() == 0 || sections[m].heading
            == sections[i].heading,
        group_text(sections, i, m).len() + sections[m].content.len() <= 1400,
{
    lemma_group_heading(sections, i, i + 1, m);
}

/// A chunk of a text stands under every heading in force where it begins: at the end of the section in
/// which the chunk begins, the heading of an earlier line that no later heading of the same level or
/// above replaces stands in the heading path of the chunk. So a chunk of an article has both the
/// article's heading and that of the chapter above it in its heading path.
pub proof fn law_chunks_name_headings(s: Text, c: int, k: int) -> (m: int)
    requires
        0 <= c < chunks_of(s).len(),
    ensures
        0 <= m < sections_of(s).len(),
        chunks_of(s)[c].heading == sections_of(s)[m].heading,
        sections_of(s)[m].start <= chunks_of(s)[c].start < sections_of(s)[m].start + sections_of(
            s,
        )[m].content.len(),
        0 <= k < text::lines(s).len() && pattern::is_heading_line(text::lines(s)[k]) && offset(
            text::lines(s),
            k,
        ) < sections_of(s)[m].end && (forall|n: int|
            k < n < text::lines(s).len() && pattern::is_heading_line(#[trigger] text::lines(s)[n])
                && offset(text::lines(s), n) < sections_of(s)[m].end ==> level_of(
                text::trimmed(text::lines(s)[n]),
            ) > level_of(text::trimmed(text::lines(s)[k]))) ==> text::occurs_in(
            text::trimmed(text::lines(s)[k]),
            chunks_of(s)[c].heading,
        ),
{
    let sections = sections_of(s);
    law_chunks_keep_headings(sections, c);
    let m = choose|m: int|
        0 <= m < sections.len() && (#[trigger] sections[m]).heading == packed(sections)[c].heading
            && sections[m].start <= packed(sections)[c].start < sections[m].start
            + sections[m].content.len();
    if 0 <= k < text::lines(s).len() && pattern::is_heading_line(text::lines(s)[k]) && offset(
        text::lines(s),
        k,
    ) < sections_of(s)[m].end && (forall|n: int|
        k < n < text::lines(s).len() && pattern::is_heading_line(#[trigger] text::lines(s)[n])
            && offset(text::lines(s), n) < sections_of(s)[m].end ==> level_of(
            text::trimmed(text::lines(s)[n]),
        ) > level_of(text::trimmed(text::lines(s)[k]))) {
        law_sections_name_headings(s, m, k);
    }
    m
}

} // verus!
