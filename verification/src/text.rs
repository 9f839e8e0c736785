//! Text as sequences of characters: the operations that the rest of the library builds on, each
//! as a specification function and an executable function that computes it.

use vstd::prelude::*;
use vstd::string::*;

verus! {

/// Text as a mathematical value: its characters in order.
pub type Text = Seq<char>;

/// The contents of a vector of strings.
pub open spec fn texts(items: Seq<String>) -> Seq<Text> {
    Seq::new(items.len(), |i: int| items[i]@)
}

/// [`String::push`] appends one character to the end of the string.
pub assume_specification[ String::push ](s: &mut String, c: char)
    ensures
        final(s)@ == old(s)@.push(c),
;

// ---------------------------------------------------------------------------------------------
// Characters

/// The characters with the Unicode property `White_Space`.
pub open spec fn is_white_space(c: char) -> bool {
    ||| '\u{9}' <= c <= '\u{d}'
    ||| c == ' '
    ||| c == '\u{85}'
    ||| c == '\u{a0}'
    ||| c == '\u{1680}'
    ||| '\u{2000}' <= c <= '\u{200a}'
    ||| c == '\u{2028}'
    ||| c == '\u{2029}'
    ||| c == '\u{202f}'
    ||| c == '\u{205f}'
    ||| c == '\u{3000}'
}

/// Whether `c` is white space.
pub fn white_space(c: char) -> (r: bool)
    ensures
        r == is_white_space(c),
{
    ('\u{9}' <= c && c <= '\u{d}') || c == ' ' || c == '\u{85}' || c == '\u{a0}' || c
        == '\u{1680}' || ('\u{2000}' <= c && c <= '\u{200a}') || c == '\u{2028}' || c
        == '\u{2029}' || c == '\u{202f}' || c == '\u{205f}' || c == '\u{3000}'
}

/// A set of characters that can be trimmed from the ends of a text.
#[derive(Clone, Copy, PartialEq, Eq, Structural)]
pub enum CharClass {
    /// White space.
    WhiteSpace,
    /// Exactly one character.
    Only(char),
    /// Quotation marks, spaces and tabs.
    Quotes,
}

impl CharClass {
    /// Whether the class holds `c`.
    pub open spec fn holds(self, c: char) -> bool {
        match self {
            CharClass::WhiteSpace => is_white_space(c),
            CharClass::Only(x) => c == x,
            CharClass::Quotes => {
                ||| c == '「'
                ||| c == '」'
                ||| c == '"'
                ||| c == '\''
                ||| c == ' '
                ||| c == '\t'
            },
        }
    }

    /// Whether the class holds `c`.
    pub fn contains(self, c: char) -> (r: bool)
        ensures
            r == self.holds(c),
    {
        match self {
            CharClass::WhiteSpace => white_space(c),
            CharClass::Only(x) => c == x,
            CharClass::Quotes => c == '「' || c == '」' || c == '"' || c == '\'' || c == ' ' || c
                == '\t',
        }
    }
}

/// The ASCII capital letters in lower case, every other character unchanged.
pub open spec fn lower_ascii_char(c: char) -> char {
    if 'A' <= c <= 'Z' {
        (c as u32 + 32) as char
    } else {
        c
    }
}

/// A text with its ASCII capital letters in lower case.
pub open spec fn lower_ascii(s: Text) -> Text {
    s.map_values(|c: char| lower_ascii_char(c))
}

// ---------------------------------------------------------------------------------------------
// Conversions

/// The characters of a string.
pub fn chars_of(s: &str) -> (r: Vec<char>)
    ensures
        r@ == s@,
{
    let mut out: Vec<char> = Vec::new();
    for c in it: s.chars()
        invariant
            it.seq() == s@,
            out@ == s@.take(it.index() as int),
    {
        out.push(c);
    }
    out
}

/// The string made of the given characters.
pub fn text_from(chars: &[char]) -> (r: String)
    ensures
        r@ == chars@,
{
    let mut out = String::new();
    for i in 0..chars.len()
        invariant
            out@ == chars@.take(i as int),
    {
        out.push(chars[i]);
    }
    out
}

/// The string made of the characters from `from` up to, but not including, `to`.
pub fn text_between(chars: &[char], from: usize, to: usize) -> (r: String)
    requires
        from <= to <= chars@.len(),
    ensures
        r@ == chars@.subrange(from as int, to as int),
{
    let mut out = String::new();
    for i in from..to
        invariant
            from <= to <= chars@.len(),
            out@ == chars@.subrange(from as int, i as int),
    {
        out.push(chars[i]);
        assert(chars@.subrange(from as int, i + 1) =~= chars@.subrange(from as int, i as int).push(
            chars@[i as int],
        ));
    }
    out
}

/// A copy of a string.
pub fn copy_text(s: &str) -> (r: String)
    ensures
        r@ == s@,
{
    String::from_str(s)
}

/// The number of characters of a string.
pub fn char_count(s: &str) -> (r: usize)
    ensures
        r == s@.len(),
{
    s.unicode_len()
}

/// Whether two strings are equal.
pub fn same_text(a: &str, b: &str) -> (r: bool)
    ensures
        r == (a@ == b@),
{
    let mut rest = b.chars();
    for c in it: a.chars()
        invariant
            it.seq() == a@,
            it.index() <= b@.len(),
            a@.take(it.index() as int) == b@.take(it.index() as int),
            vstd::std_specs::iter::IteratorSpec::remaining(&rest) == b@.skip(it.index() as int),
    {
        let ghost i = it.index() as int;
        match rest.next() {
            Some(d) if d == c => {
                assert(a@.take(i + 1) =~= a@.take(i).push(c));
                assert(b@.take(i + 1) =~= b@.take(i).push(c));
                assert(b@.skip(i).drop_first() =~= b@.skip(i + 1));
            },
            _ => {
                return false;
            },
        }
    }
    assert(a@.take(a@.len() as int) =~= a@);
    let ended = rest.next().is_none();
    assert(ended ==> b@.take(a@.len() as int) =~= b@);
    ended
}

// ---------------------------------------------------------------------------------------------
// Trimming

/// `s` without the longest prefix of characters in `class`.
pub open spec fn trimmed_start(s: Text, class: CharClass) -> Text
    decreases s.len(),
{
    if s.len() > 0 && class.holds(s[0]) {
        trimmed_start(s.skip(1), class)
    } else {
        s
    }
}

/// `s` without the longest suffix of characters in `class`.
pub open spec fn trimmed_end(s: Text, class: CharClass) -> Text
    decreases s.len(),
{
    if s.len() > 0 && class.holds(s.last()) {
        trimmed_end(s.drop_last(), class)
    } else {
        s
    }
}

/// `s` without the characters in `class` at its start and at its end.
pub open spec fn trimmed_both(s: Text, class: CharClass) -> Text {
    trimmed_end(trimmed_start(s, class), class)
}

/// `s` without white space at its start and at its end.
pub open spec fn trimmed(s: Text) -> Text {
    trimmed_both(s, CharClass::WhiteSpace)
}

/// Whether `s` holds nothing but white space.
pub open spec fn is_blank(s: Text) -> bool {
    trimmed(s).len() == 0
}

/// Trimming does not lengthen a text.
pub proof fn lemma_trimmed_len(s: Text)
    ensures
        trimmed(s).len() <= s.len(),
{
    lemma_trimmed_start_len(s, CharClass::WhiteSpace);
    lemma_trimmed_end_len(trimmed_start(s, CharClass::WhiteSpace), CharClass::WhiteSpace);
}

proof fn lemma_trimmed_start_len(s: Text, class: CharClass)
    ensures
        trimmed_start(s, class).len() <= s.len(),
    decreases s.len(),
{
    if s.len() > 0 && class.holds(s[0]) {
        lemma_trimmed_start_len(s.skip(1), class);
    }
}

proof fn lemma_trimmed_end_len(s: Text, class: CharClass)
    ensures
        trimmed_end(s, class).len() <= s.len(),
    decreases s.len(),
{
    if s.len() > 0 && class.holds(s.last()) {
        lemma_trimmed_end_len(s.drop_last(), class);
    }
}

fn start_index(chars: &Vec<char>, class: CharClass) -> (r: usize)
    ensures
        r <= chars@.len(),
        trimmed_start(chars@, class) == chars@.skip(r as int),
{
    let mut i: usize = 0;
    assert(chars@.skip(0) =~= chars@);
    while i < chars.len() && class.contains(chars[i])
        invariant
            i <= chars@.len(),
            trimmed_start(chars@, class) == trimmed_start(chars@.skip(i as int), class),
        decreases chars@.len() - i,
    {
        assert(chars@.skip(i as int).skip(1) =~= chars@.skip(i + 1));
        i += 1;
    }
    i
}

fn end_index(chars: &Vec<char>, from: usize, class: CharClass) -> (r: usize)
    requires
        from <= chars@.len(),
    ensures
        from <= r <= chars@.len(),
        trimmed_end(chars@.skip(from as int), class) == chars@.subrange(from as int, r as int),
{
    let mut i: usize = chars.len();
    assert(chars@.skip(from as int) =~= chars@.subrange(from as int, i as int));
    while i > from && class.contains(chars[i - 1])
        invariant
            from <= i <= chars@.len(),
            trimmed_end(chars@.skip(from as int), class) == trimmed_end(
                chars@.subrange(from as int, i as int),
                class,
            ),
        decreases i,
    {
        assert(chars@.subrange(from as int, i as int).drop_last() =~= chars@.subrange(
            from as int,
            i - 1,
        ));
        i -= 1;
    }
    i
}

/// The text without the characters in `class` at its start.
pub fn trim_start<'a>(s: &'a str, class: CharClass) -> (r: &'a str)
    ensures
        r@ == trimmed_start(s@, class),
{
    let chars = chars_of(s);
    let from = start_index(&chars, class);
    assert(s@.skip(from as int) =~= s@.subrange(from as int, s@.len() as int));
    s.substring_char(from, chars.len())
}

/// The text without the characters in `class` at its end.
pub fn trim_end<'a>(s: &'a str, class: CharClass) -> (r: &'a str)
    ensures
        r@ == trimmed_end(s@, class),
{
    let chars = chars_of(s);
    assert(s@.skip(0) =~= s@);
    let to = end_index(&chars, 0, class);
    s.substring_char(0, to)
}

/// The text without the characters in `class` at its start and at its end.
pub fn trim_both<'a>(s: &'a str, class: CharClass) -> (r: &'a str)
    ensures
        r@ == trimmed_both(s@, class),
{
    let chars = chars_of(s);
    let from = start_index(&chars, class);
    let to = end_index(&chars, from, class);
    s.substring_char(from, to)
}

/// The text without white space at its start and at its end.
pub fn trim<'a>(s: &'a str) -> (r: &'a str)
    ensures
        r@ == trimmed(s@),
{
    trim_both(s, CharClass::WhiteSpace)
}

/// Whether the text holds nothing but white space.
pub fn blank(s: &str) -> (r: bool)
    ensures
        r == is_blank(s@),
{
    trim(s).is_empty()
}

/// Trimming twice trims no more.
pub proof fn lemma_trimmed_twice(s: Text)
    ensures
        trimmed(trimmed(s)) == trimmed(s),
{
    let class = CharClass::WhiteSpace;
    let a = trimmed_start(s, class);
    lemma_trimmed_start_ends(s, class);
    lemma_trimmed_end_ends(a, class);
}

proof fn lemma_trimmed_start_ends(s: Text, class: CharClass)
    ensures
        trimmed_start(s, class).len() > 0 ==> !class.holds(trimmed_start(s, class)[0]),
    decreases s.len(),
{
    if s.len() > 0 && class.holds(s[0]) {
        lemma_trimmed_start_ends(s.skip(1), class);
    }
}

proof fn lemma_trimmed_end_ends(s: Text, class: CharClass)
    ensures
        ({
            let t = trimmed_end(s, class);
            t.len() > 0 ==> !class.holds(t.last()) && t[0] == s[0]
        }),
    decreases s.len(),
{
    if s.len() > 0 && class.holds(s.last()) {
        lemma_trimmed_end_ends(s.drop_last(), class);
    }
}

/// Whether a text has no line feed but as its last character.
pub open spec fn is_line(s: Text) -> bool {
    forall|i: int| 0 <= i < s.len() - 1 ==> #[trigger] s[i] != '\n'
}

/// The line feed at the end of a line is trimmed away.
pub proof fn lemma_trimmed_line(s: Text)
    requires
        is_line(s),
    ensures
        !trimmed(s).contains('\n'),
{
    lemma_trimmed_start_line(s);
    lemma_trimmed_end_line(trimmed_start(s, CharClass::WhiteSpace));
}

proof fn lemma_trimmed_start_line(s: Text)
    requires
        is_line(s),
    ensures
        is_line(trimmed_start(s, CharClass::WhiteSpace)),
    decreases s.len(),
{
    if s.len() > 0 && is_white_space(s[0]) {
        assert forall|i: int| 0 <= i < s.skip(1).len() - 1 implies #[trigger] s.skip(1)[i] != '\n' by {
            assert(s.skip(1)[i] == s[i + 1]);
        }
        lemma_trimmed_start_line(s.skip(1));
    }
}

proof fn lemma_trimmed_end_line(s: Text)
    requires
        is_line(s),
    ensures
        !trimmed_end(s, CharClass::WhiteSpace).contains('\n'),
    decreases s.len(),
{
    if s.len() > 0 && is_white_space(s.last()) {
        lemma_trimmed_end_line(s.drop_last());
    }
}

/// The characters of a text that are not white space.
pub open spec fn visible(s: Text) -> Text
    decreases s.len(),
{
    if s.len() == 0 {
        Seq::empty()
    } else if is_white_space(s.last()) {
        visible(s.drop_last())
    } else {
        visible(s.drop_last()).push(s.last())
    }
}

/// The visible characters of two texts one after the other.
pub proof fn lemma_visible_concat(a: Text, b: Text)
    ensures
        visible(a + b) == visible(a) + visible(b),
    decreases b.len(),
{
    if b.len() == 0 {
        assert(a + b =~= a);
        assert(visible(a) + visible(b) =~= visible(a));
    } else {
        lemma_visible_concat(a, b.drop_last());
        assert((a + b).drop_last() =~= a + b.drop_last());
        assert((a + b).last() == b.last());
        assert(visible(a + b) =~= visible(a) + visible(b));
    }
}

/// Trimming takes away no visible character.
pub proof fn lemma_visible_trimmed(s: Text)
    ensures
        visible(trimmed(s)) == visible(s),
{
    lemma_visible_trimmed_start(s);
    lemma_visible_trimmed_end(trimmed_start(s, CharClass::WhiteSpace));
}

proof fn lemma_visible_trimmed_start(s: Text)
    ensures
        visible(trimmed_start(s, CharClass::WhiteSpace)) == visible(s),
    decreases s.len(),
{
    if s.len() > 0 && is_white_space(s[0]) {
        lemma_visible_trimmed_start(s.skip(1));
        let first = s.take(1);
        lemma_visible_concat(first, s.skip(1));
        assert(first + s.skip(1) =~= s);
        assert(first.drop_last() =~= Seq::<char>::empty());
        assert(visible(Seq::<char>::empty()) =~= Seq::<char>::empty());
        assert(visible(first) =~= Seq::<char>::empty());
        assert(visible(first) + visible(s.skip(1)) =~= visible(s.skip(1)));
    }
}

proof fn lemma_visible_trimmed_end(s: Text)
    ensures
        visible(trimmed_end(s, CharClass::WhiteSpace)) == visible(s),
    decreases s.len(),
{
    if s.len() > 0 && is_white_space(s.last()) {
        lemma_visible_trimmed_end(s.drop_last());
    }
}

/// A blank text has no visible character.
pub proof fn lemma_visible_blank(s: Text)
    requires
        is_blank(s),
    ensures
        visible(s) == Seq::<char>::empty(),
{
    lemma_visible_trimmed(s);
    assert(trimmed(s) =~= Seq::<char>::empty());
}

/// A trimmed text does not end in white space.
pub proof fn lemma_trimmed_last(s: Text)
    requires
        trimmed(s) == s,
        s.len() > 0,
    ensures
        !is_white_space(s.last()),
{
    lemma_trimmed_end_ends(trimmed_start(s, CharClass::WhiteSpace), CharClass::WhiteSpace);
}

/// A trimmed text neither begins nor ends with white space.
pub proof fn lemma_trimmed_ends(s: Text)
    requires
        trimmed(s) == s,
        s.len() > 0,
    ensures
        !is_white_space(s[0]),
        !is_white_space(s.last()),
{
    lemma_trimmed_last(s);
    lemma_trimmed_start_ends(s, CharClass::WhiteSpace);
    lemma_trimmed_end_ends(trimmed_start(s, CharClass::WhiteSpace), CharClass::WhiteSpace);
}

/// A text that neither begins nor ends with white space is trimmed.
pub proof fn lemma_trimmed_by_ends(s: Text)
    requires
        s.len() > 0,
        !is_white_space(s[0]),
        !is_white_space(s.last()),
    ensures
        trimmed(s) == s,
{
}

/// A text without a visible character is blank.
pub proof fn lemma_blank_visible(s: Text)
    requires
        visible(s).len() == 0,
    ensures
        is_blank(s),
{
    lemma_visible_trimmed(s);
    lemma_trimmed_end_ends(trimmed_start(s, CharClass::WhiteSpace), CharClass::WhiteSpace);
}

// ---------------------------------------------------------------------------------------------
// Searching

/// Whether `needle` stands in `hay` from position `i` on.
pub open spec fn occurs_at(needle: Text, hay: Text, i: int) -> bool {
    &&& 0 <= i
    &&& i + needle.len() <= hay.len()
    &&& hay.subrange(i, i + needle.len()) == needle
}

/// Whether `needle` is a contiguous part of `hay`.
pub open spec fn occurs_in(needle: Text, hay: Text) -> bool {
    exists|i: int| occurs_at(needle, hay, i)
}

/// The first position from `i` on at which `needle` stands in `hay`.
pub open spec fn first_from(needle: Text, hay: Text, i: nat) -> Option<nat>
    decreases hay.len() + 1 - i,
{
    if i + needle.len() > hay.len() {
        None
    } else if occurs_at(needle, hay, i as int) {
        Some(i)
    } else {
        first_from(needle, hay, i + 1)
    }
}

/// The first position is the least one.
pub proof fn lemma_first_from(needle: Text, hay: Text, i: nat)
    ensures
        match first_from(needle, hay, i) {
            Some(k) => {
                &&& i <= k
                &&& occurs_at(needle, hay, k as int)
                &&& forall|j: int| i <= j < k ==> !occurs_at(needle, hay, j)
            },
            None => forall|j: int| i <= j ==> !occurs_at(needle, hay, j),
        },
    decreases hay.len() + 1 - i,
{
    if i + needle.len() <= hay.len() && !occurs_at(needle, hay, i as int) {
        lemma_first_from(needle, hay, i + 1);
    }
}

/// Whether `needle` stands in `hay` from position `i` on.
pub fn stands_at(needle: &Vec<char>, hay: &Vec<char>, i: usize) -> (r: bool)
    requires
        i + needle@.len() <= hay@.len(),
    ensures
        r == occurs_at(needle@, hay@, i as int),
{
    let len = hay.len();
    for k in 0..needle.len()
        invariant
            len == hay@.len(),
            i + needle@.len() <= hay@.len(),
            forall|j: int| 0 <= j < k ==> hay@[i + j] == needle@[j],
    {
        if hay[i + k] != needle[k] {
            assert(hay@.subrange(i as int, i + needle@.len())[k as int] != needle@[k as int]);
            return false;
        }
    }
    assert(hay@.subrange(i as int, i + needle@.len()) =~= needle@);
    true
}

/// The first position from `from` on at which `needle` stands in `hay`.
pub fn find_in_chars(needle: &Vec<char>, hay: &Vec<char>, from: usize) -> (r: Option<usize>)
    requires
        from <= hay@.len(),
    ensures
        match r {
            Some(k) => first_from(needle@, hay@, from as nat) == Some(k as nat) && k
                + needle@.len() <= hay@.len(),
            None => first_from(needle@, hay@, from as nat) is None,
        },
{
    let mut i: usize = from;
    while i <= hay.len() && needle.len() <= hay.len() - i
        invariant
            from <= i <= hay@.len() + 1,
            first_from(needle@, hay@, from as nat) == first_from(needle@, hay@, i as nat),
        decreases hay@.len() + 1 - i,
    {
        if stands_at(needle, hay, i) {
            return Some(i);
        }
        if i == hay.len() {
            assert(first_from(needle@, hay@, (i + 1) as nat) is None);
            return None;
        }
        i += 1;
    }
    None
}

/// The first position at which `needle` stands in `hay`, counted in characters.
pub fn find(hay: &str, needle: &str) -> (r: Option<usize>)
    ensures
        match r {
            Some(k) => first_from(needle@, hay@, 0) == Some(k as nat) && k + needle@.len()
                <= hay@.len(),
            None => first_from(needle@, hay@, 0) is None,
        },
{
    find_in_chars(&chars_of(needle), &chars_of(hay), 0)
}

/// Whether `needle` is a contiguous part of `hay`.
pub fn contains(hay: &str, needle: &str) -> (r: bool)
    ensures
        r == occurs_in(needle@, hay@),
{
    proof {
        lemma_first_from(needle@, hay@, 0);
    }
    find(hay, needle).is_some()
}

/// A contiguous part of a part of a text is a part of the text.
pub proof fn lemma_occurs_transitive(a: Text, b: Text, c: Text)
    requires
        occurs_in(a, b),
        occurs_in(b, c),
    ensures
        occurs_in(a, c),
{
    let i = choose|i: int| occurs_at(a, b, i);
    let j = choose|j: int| occurs_at(b, c, j);
    assert(c.subrange(i + j, i + j + a.len()) =~= b.subrange(i, i + a.len()));
    assert(occurs_at(a, c, i + j));
}

/// A range of a text is a part of it.
pub proof fn lemma_range_occurs(s: Text, from: int, to: int)
    requires
        0 <= from <= to <= s.len(),
    ensures
        occurs_in(s.subrange(from, to), s),
{
    assert(occurs_at(s.subrange(from, to), s, from));
}

/// What remains after the first characters of a text is a part of it.
pub proof fn lemma_skip_occurs(s: Text, n: int)
    requires
        0 <= n <= s.len(),
    ensures
        occurs_in(s.skip(n), s),
{
    assert(s.skip(n) =~= s.subrange(n, s.len() as int));
    lemma_range_occurs(s, n, s.len() as int);
}

/// A text is a part of itself.
pub proof fn lemma_occurs_self(s: Text)
    ensures
        occurs_in(s, s),
{
    assert(s.skip(0) =~= s);
    lemma_skip_occurs(s, 0);
}

/// What trimming leaves is a part of the text.
pub proof fn lemma_trimmed_start_occurs(s: Text, class: CharClass)
    ensures
        occurs_in(trimmed_start(s, class), s),
    decreases s.len(),
{
    if s.len() > 0 && class.holds(s[0]) {
        lemma_trimmed_start_occurs(s.skip(1), class);
        lemma_skip_occurs(s, 1);
        lemma_occurs_transitive(trimmed_start(s, class), s.skip(1), s);
    } else {
        lemma_occurs_self(s);
    }
}

/// What trimming leaves is a part of the text.
pub proof fn lemma_trimmed_end_occurs(s: Text, class: CharClass)
    ensures
        occurs_in(trimmed_end(s, class), s),
    decreases s.len(),
{
    if s.len() > 0 && class.holds(s.last()) {
        lemma_trimmed_end_occurs(s.drop_last(), class);
        lemma_range_occurs(s, 0, s.len() - 1);
        lemma_occurs_transitive(trimmed_end(s, class), s.drop_last(), s);
    } else {
        lemma_occurs_self(s);
    }
}

/// What trimming leaves is a part of the text.
pub proof fn lemma_trimmed_both_occurs(s: Text, class: CharClass)
    ensures
        occurs_in(trimmed_both(s, class), s),
{
    lemma_trimmed_start_occurs(s, class);
    lemma_trimmed_end_occurs(trimmed_start(s, class), class);
    lemma_occurs_transitive(trimmed_both(s, class), trimmed_start(s, class), s);
}

/// What removing a prefix leaves is a part of the text.
pub proof fn lemma_without_prefix_occurs(s: Text, prefix: Text)
    ensures
        occurs_in(without_prefix(s, prefix), s),
    decreases s.len(),
{
    if prefix.len() > 0 && begins_with(s, prefix) {
        let rest = s.skip(prefix.len() as int);
        lemma_without_prefix_occurs(rest, prefix);
        lemma_skip_occurs(s, prefix.len() as int);
        lemma_occurs_transitive(without_prefix(s, prefix), rest, s);
    } else {
        lemma_occurs_self(s);
    }
}

/// The pieces of a text are parts of it.
pub proof fn lemma_pieces_occur(s: Text, sep: Text, i: int)
    requires
        0 <= i < pieces(s, sep).len(),
    ensures
        occurs_in(pieces(s, sep)[i], s),
    decreases s.len(),
{
    lemma_first_from(sep, s, 0);
    match first_from(sep, s, 0) {
        Some(k) if sep.len() > 0 => {
            if i == 0 {
                lemma_range_occurs(s, 0, k as int);
                assert(s.take(k as int) =~= s.subrange(0, k as int));
            } else {
                let rest = s.skip((k + sep.len()) as int);
                lemma_pieces_occur(rest, sep, i - 1);
                lemma_skip_occurs(s, (k + sep.len()) as int);
                lemma_occurs_transitive(pieces(s, sep)[i], rest, s);
            }
        },
        _ => {
            lemma_occurs_self(s);
        },
    }
}

/// Whether `s` begins with `prefix`.
pub open spec fn begins_with(s: Text, prefix: Text) -> bool {
    occurs_at(prefix, s, 0)
}

/// Whether `s` begins with `prefix`.
pub fn starts_with(s: &str, prefix: &str) -> (r: bool)
    ensures
        r == begins_with(s@, prefix@),
{
    let chars = chars_of(s);
    let head = chars_of(prefix);
    head.len() <= chars.len() && stands_at(&head, &chars, 0)
}

/// `s` with every repetition of `prefix` at its start removed.
pub open spec fn without_prefix(s: Text, prefix: Text) -> Text
    decreases s.len(),
{
    if prefix.len() > 0 && begins_with(s, prefix) {
        without_prefix(s.skip(prefix.len() as int), prefix)
    } else {
        s
    }
}

/// The text with every repetition of `prefix` at its start removed.
pub fn strip_prefix_repeats<'a>(s: &'a str, prefix: &str) -> (r: &'a str)
    ensures
        r@ == without_prefix(s@, prefix@),
{
    let chars = chars_of(s);
    let head = chars_of(prefix);
    let mut i: usize = 0;
    assert(s@.skip(0) =~= s@);
    while head.len() > 0 && head.len() <= chars.len() - i && stands_at(&head, &chars, i)
        invariant
            chars@ == s@,
            head@ == prefix@,
            i <= chars@.len(),
            without_prefix(s@, prefix@) == without_prefix(s@.skip(i as int), prefix@),
        decreases chars@.len() - i,
    {
        assert(s@.skip(i as int).subrange(0, prefix@.len() as int) =~= s@.subrange(
            i as int,
            i + prefix@.len(),
        ));
        assert(s@.skip(i as int).skip(prefix@.len() as int) =~= s@.skip(i + prefix@.len()));
        i += head.len();
    }
    assert(i + prefix@.len() <= s@.len() ==> s@.skip(i as int).subrange(0, prefix@.len() as int)
        =~= s@.subrange(i as int, i + prefix@.len()));
    assert(s@.skip(i as int) =~= s@.subrange(i as int, s@.len() as int));
    s.substring_char(i, chars.len())
}

// ---------------------------------------------------------------------------------------------
// Splitting

/// The parts of `s` between the occurrences of `sep`, found from left to right.
pub open spec fn pieces(s: Text, sep: Text) -> Seq<Text>
    decreases s.len(),
{
    if sep.len() == 0 {
        seq![s]
    } else {
        proof {
            lemma_first_from(sep, s, 0);
        }
        match first_from(sep, s, 0) {
            Some(k) => seq![s.take(k as int)] + pieces(s.skip((k + sep.len()) as int), sep),
            None => seq![s],
        }
    }
}

/// The parts of a text between the occurrences of `sep`.
pub fn split_on(s: &str, sep: &str) -> (r: Vec<String>)
    requires
        sep@.len() > 0,
    ensures
        texts(r@) == pieces(s@, sep@),
{
    let mut rest = chars_of(s);
    let mark = chars_of(sep);
    let mut out: Vec<String> = Vec::new();
    let mut hit = find_in_chars(&mark, &rest, 0);
    while hit.is_some()
        invariant
            mark@ == sep@,
            sep@.len() > 0,
            pieces(s@, sep@) == texts(out@) + pieces(rest@, sep@),
            match hit {
                Some(k) => first_from(sep@, rest@, 0) == Some(k as nat) && k + sep@.len()
                    <= rest@.len(),
                None => first_from(sep@, rest@, 0) is None,
            },
        decreases rest@.len(),
    {
        let k = hit.unwrap();
        let ghost before = rest@;
        let ghost done = texts(out@);
        let piece = text_between(&rest, 0, k);
        out.push(piece);
        let total = rest.len();
        assert(k + mark@.len() <= total);
        rest = rest.split_off(k + mark.len());
        proof {
            lemma_first_from(sep@, before, 0);
            assert(before.take(k as int) =~= before.subrange(0, k as int));
            assert(before.skip(k + sep@.len()) =~= rest@);
            assert(texts(out@) =~= done.push(before.take(k as int)));
            assert(done + (seq![before.take(k as int)] + pieces(rest@, sep@)) =~= texts(out@)
                + pieces(rest@, sep@));
        }
        hit = find_in_chars(&mark, &rest, 0);
    }
    let ghost done = texts(out@);
    let last = text_from(&rest);
    out.push(last);
    assert(texts(out@) =~= done + seq![rest@]);
    out
}

/// The length of the first line of `s`, its line feed included.
pub open spec fn line_len(s: Text) -> nat
    decreases s.len(),
{
    if s.len() == 0 {
        0
    } else if s[0] == '\n' {
        1
    } else {
        1 + line_len(s.skip(1))
    }
}

/// The first line of a non-empty text is a non-empty part of it.
pub proof fn lemma_line_len(s: Text)
    ensures
        line_len(s) <= s.len(),
        s.len() > 0 ==> line_len(s) > 0,
        forall|i: int| 0 <= i < line_len(s) - 1 ==> s[i] != '\n',
    decreases s.len(),
{
    if s.len() > 0 && s[0] != '\n' {
        lemma_line_len(s.skip(1));
        assert forall|i: int| 0 <= i < line_len(s) - 1 implies s[i] != '\n' by {
            if i > 0 {
                assert(s[i] == s.skip(1)[i - 1]);
            }
        }
    }
}

/// The lines of `s`, each with its line feed.
pub open spec fn lines(s: Text) -> Seq<Text>
    decreases s.len(),
{
    if s.len() == 0 {
        Seq::empty()
    } else {
        proof {
            lemma_line_len(s);
        }
        seq![s.take(line_len(s) as int)] + lines(s.skip(line_len(s) as int))
    }
}

fn first_line_end(chars: &Vec<char>, from: usize) -> (r: usize)
    requires
        from <= chars@.len(),
    ensures
        r == from + line_len(chars@.skip(from as int)),
        r <= chars@.len(),
{
    let mut i: usize = from;
    while i < chars.len()
        invariant
            from <= i <= chars@.len(),
            line_len(chars@.skip(from as int)) == i - from + line_len(chars@.skip(i as int)),
        decreases chars@.len() - i,
    {
        assert(chars@.skip(i as int).skip(1) =~= chars@.skip(i + 1));
        if chars[i] == '\n' {
            return i + 1;
        }
        i += 1;
    }
    i
}

/// The lines of a text, each with its line feed.
pub fn split_lines(s: &str) -> (r: Vec<String>)
    ensures
        texts(r@) == lines(s@),
{
    let chars = chars_of(s);
    let mut out: Vec<String> = Vec::new();
    let mut i: usize = 0;
    assert(s@.skip(0) =~= s@);
    while i < chars.len()
        invariant
            chars@ == s@,
            i <= chars@.len(),
            lines(s@) == texts(out@) + lines(s@.skip(i as int)),
        decreases chars@.len() - i,
    {
        let ghost rest = s@.skip(i as int);
        let ghost done = texts(out@);
        let end = first_line_end(&chars, i);
        proof {
            lemma_line_len(rest);
        }
        let line = text_between(&chars, i, end);
        out.push(line);
        proof {
            assert(rest.take(line_len(rest) as int) =~= s@.subrange(i as int, end as int));
            assert(rest.skip(line_len(rest) as int) =~= s@.skip(end as int));
            assert(texts(out@) =~= done.push(s@.subrange(i as int, end as int)));
            assert(done + (seq![s@.subrange(i as int, end as int)] + lines(s@.skip(end as int)))
                =~= texts(out@) + lines(s@.skip(end as int)));
        }
        i = end;
    }
    assert(texts(out@) + lines(s@.skip(i as int)) =~= texts(out@));
    out
}

// ---------------------------------------------------------------------------------------------
// Joining

/// The first `n` items, or all of them if there are fewer.
pub open spec fn first_items<T>(items: Seq<T>, n: nat) -> Seq<T> {
    if n <= items.len() {
        items.take(n as int)
    } else {
        items
    }
}

/// The items one after another with `sep` between them.
pub open spec fn joined(items: Seq<Text>, sep: Text) -> Text
    decreases items.len(),
{
    if items.len() == 0 {
        Seq::empty()
    } else if items.len() == 1 {
        items[0]
    } else {
        joined(items.drop_last(), sep) + sep + items.last()
    }
}

/// The first `n` items joined by `sep`.
pub fn join_first(items: &Vec<String>, n: usize, sep: &str) -> (r: String)
    ensures
        r@ == joined(first_items(texts(items@), n as nat), sep@),
{
    let count = if n < items.len() {
        n
    } else {
        items.len()
    };
    let mut out = String::new();
    for i in 0..count
        invariant
            count <= items@.len(),
            out@ == joined(texts(items@).take(i as int), sep@),
    {
        if i > 0 {
            out.append(sep);
        }
        out.append(items[i].as_str());
        proof {
            let next = texts(items@).take(i + 1);
            assert(next.drop_last() =~= texts(items@).take(i as int));
            assert(next.last() == items@[i as int]@);
        }
    }
    assert(count == items@.len() ==> texts(items@).take(count as int) =~= texts(items@));
    out
}

/// The items joined by `sep`.
pub fn join(items: &Vec<String>, sep: &str) -> (r: String)
    ensures
        r@ == joined(texts(items@), sep@),
{
    assert(texts(items@).take(items@.len() as int) =~= texts(items@));
    join_first(items, items.len(), sep)
}

/// The items one after another.
pub open spec fn concat(items: Seq<Text>) -> Text
    decreases items.len(),
{
    if items.len() == 0 {
        Seq::empty()
    } else {
        concat(items.drop_last()) + items.last()
    }
}

/// The contents of some texts.
pub open spec fn views(parts: Seq<&str>) -> Seq<Text> {
    Seq::new(parts.len(), |i: int| parts[i]@)
}

/// The texts one after another.
pub fn concat_all(parts: &Vec<&str>) -> (r: String)
    ensures
        r@ == concat(views(parts@)),
{
    let mut out = String::new();
    for i in 0..parts.len()
        invariant
            out@ == concat(views(parts@).take(i as int)),
    {
        out.append(parts[i]);
        assert(views(parts@).take(i + 1).drop_last() =~= views(parts@).take(i as int));
    }
    assert(views(parts@).take(parts@.len() as int) =~= views(parts@));
    out
}

/// The texts one after another.
pub fn concat_texts(items: &Vec<String>) -> (r: String)
    ensures
        r@ == concat(texts(items@)),
{
    let mut out = String::new();
    for i in 0..items.len()
        invariant
            out@ == concat(texts(items@).take(i as int)),
    {
        out.append(items[i].as_str());
        assert(texts(items@).take(i + 1).drop_last() =~= texts(items@).take(i as int));
    }
    assert(texts(items@).take(items@.len() as int) =~= texts(items@));
    out
}

/// The beginning of a text, on one line, with an ellipsis where more follows.
pub open spec fn excerpt(s: Text, max: nat) -> Text {
    on_one_line(
        if s.len() > max {
            s.take(max as int) + "..."@
        } else {
            s
        },
    )
}

/// The first characters of a text, on one line, with an ellipsis where more follows.
pub fn first_chars(text: &str, max_chars: usize) -> (r: String)
    ensures
        r@ == excerpt(text@, max_chars as nat),
{
    let chars = chars_of(text);
    if chars.len() > max_chars {
        let mut out = text_between(&chars, 0, max_chars);
        assert(text@.subrange(0, max_chars as int) =~= text@.take(max_chars as int));
        out.append("...");
        flatten_lines(out.as_str())
    } else {
        flatten_lines(text)
    }
}

/// Parameter marks of an SQL statement, as many as asked for, with commas between them.
pub open spec fn marks(count: nat) -> Text {
    joined(Seq::new(count, |i: int| "?"@), ","@)
}

/// Parameter marks of an SQL statement, as many as asked for.
pub fn placeholders(count: usize) -> (r: String)
    ensures
        r@ == marks(count as nat),
{
    let mut out = String::new();
    for i in 0..count
        invariant
            out@ == marks(i as nat),
    {
        let ghost next = Seq::new((i + 1) as nat, |k: int| "?"@);
        if i > 0 {
            out.append(",");
        }
        out.append("?");
        assert(next.drop_last() =~= Seq::new(i as nat, |k: int| "?"@));
        assert(next.last() == "?"@);
    }
    out
}

// ---------------------------------------------------------------------------------------------
// Rewriting

/// The text with its ASCII capital letters in lower case.
pub fn to_lower_ascii(s: &str) -> (r: String)
    ensures
        r@ == lower_ascii(s@),
{
    let mut out = String::new();
    for c in it: s.chars()
        invariant
            it.seq() == s@,
            out@ == lower_ascii(s@.take(it.index() as int)),
    {
        let ghost i = it.index() as int;
        let low: char = if 'A' <= c && c <= 'Z' {
            (c as u8 + 32) as char
        } else {
            c
        };
        out.push(low);
        assert(lower_ascii(s@.take(i + 1)) =~= lower_ascii(s@.take(i)).push(low));
    }
    assert(s@.take(s@.len() as int) =~= s@);
    out
}

/// `s` with every line feed replaced by a space.
pub open spec fn on_one_line(s: Text) -> Text {
    s.map_values(|c: char| if c == '\n' { ' ' } else { c })
}

/// The text with every line feed replaced by a space.
pub fn flatten_lines(s: &str) -> (r: String)
    ensures
        r@ == on_one_line(s@),
{
    let mut out = String::new();
    for c in it: s.chars()
        invariant
            it.seq() == s@,
            out@ == on_one_line(s@.take(it.index() as int)),
    {
        let ghost i = it.index() as int;
        let shown: char = if c == '\n' {
            ' '
        } else {
            c
        };
        out.push(shown);
        assert(on_one_line(s@.take(i + 1)) =~= on_one_line(s@.take(i)).push(shown));
    }
    assert(s@.take(s@.len() as int) =~= s@);
    out
}

// ---------------------------------------------------------------------------------------------
// Numbers

/// The character of one decimal digit.
pub open spec fn digit(d: nat) -> char {
    (48 + d) as char
}

/// The decimal notation of a natural number.
pub open spec fn decimal(n: nat) -> Text
    decreases n,
{
    if n < 10 {
        seq![digit(n)]
    } else {
        decimal(n / 10).push(digit(n % 10))
    }
}

/// The decimal notation of an integer.
pub open spec fn signed_decimal(n: int) -> Text {
    if n < 0 {
        seq!['-'] + decimal((-n) as nat)
    } else {
        decimal(n as nat)
    }
}

/// The decimal notation of a natural number.
pub fn decimal_text(n: u128) -> (r: String)
    ensures
        r@ == decimal(n as nat),
    decreases n,
{
    let mut out = if n < 10 {
        String::new()
    } else {
        decimal_text(n / 10)
    };
    out.push((48u8 + (n % 10) as u8) as char);
    assert(n < 10 ==> out@ =~= seq![digit(n as nat)]);
    out
}

/// The decimal notation of an integer.
pub fn signed_text(n: i64) -> (r: String)
    ensures
        r@ == signed_decimal(n as int),
{
    if n < 0 {
        let mut out = String::new();
        out.push('-');
        out.append(decimal_text((-(n as i128)) as u128).as_str());
        assert(out@ =~= seq!['-'] + decimal((-n) as nat));
        out
    } else {
        decimal_text(n as u128)
    }
}

// ---------------------------------------------------------------------------------------------
// Bytes

/// The text that bytes hold in UTF-8, with a replacement character for what is none.
pub uninterp spec fn lossy_text(bytes: Seq<u8>) -> Seq<char>;

/// `String::from_utf8_lossy` reads bytes as UTF-8 and puts a replacement character for what is none.
/// The result depends on the bytes alone and is given a name; bytes that are the UTF-8 of a text give
/// that text.
#[verifier::external_body]
pub(crate) fn decode_lossy(bytes: &[u8]) -> (r: String)
    ensures
        r@ == lossy_text(bytes@),
        forall|s: Text| bytes@ == #[trigger] vstd::utf8::encode_utf8(s) ==> r@ == s,
{
    String::from_utf8_lossy(bytes).into_owned()
}

// ---------------------------------------------------------------------------------------------
// What joined texts hold

/// A part between two others stands in the whole, directly behind the first.
pub proof fn lemma_middle_occurs(a: Text, b: Text, c: Text)
    ensures
        occurs_at(b, a + b + c, a.len() as int),
        occurs_in(b, a + b + c),
{
    assert((a + b + c).subrange(a.len() as int, (a.len() + b.len()) as int) =~= b);
}

/// Joined items are what comes before an item, the item, and what comes after it.
pub proof fn lemma_concat_around(items: Seq<Text>, i: int)
    requires
        0 <= i < items.len(),
    ensures
        concat(items) == concat(items.take(i)) + items[i] + concat(items.skip(i + 1)),
    decreases items.len(),
{
    let last = items.len() - 1;
    if i == last {
        assert(items.drop_last() =~= items.take(i));
        assert(items.skip(i + 1) =~= Seq::<Text>::empty());
        assert(concat(items) =~= concat(items.take(i)) + items[i] + concat(items.skip(i + 1)));
    } else {
        lemma_concat_around(items.drop_last(), i);
        assert(items.drop_last().take(i) =~= items.take(i));
        assert(items.skip(i + 1).drop_last() =~= items.drop_last().skip(i + 1));
        assert(items.skip(i + 1).last() == items.last());
        assert(concat(items) =~= concat(items.take(i)) + items[i] + concat(items.skip(i + 1)));
    }
}

/// Every item stands in the items joined.
pub proof fn lemma_concat_holds(items: Seq<Text>, i: int)
    requires
        0 <= i < items.len(),
    ensures
        occurs_in(items[i], concat(items)),
{
    lemma_concat_around(items, i);
    lemma_middle_occurs(concat(items.take(i)), items[i], concat(items.skip(i + 1)));
}

/// Two items that follow one another stand in the items joined, one directly behind the other.
pub proof fn lemma_concat_holds_pair(items: Seq<Text>, i: int)
    requires
        0 <= i < items.len() - 1,
    ensures
        occurs_in(items[i] + items[i + 1], concat(items)),
{
    lemma_concat_around(items, i);
    let rest = items.skip(i + 1);
    lemma_concat_around(rest, 0);
    assert(rest.take(0) =~= Seq::<Text>::empty());
    let before = concat(items.take(i));
    let after = concat(rest.skip(1));
    assert(concat(items) =~= before + (items[i] + items[i + 1]) + after);
    lemma_middle_occurs(before, items[i] + items[i + 1], after);
}

/// Where an item of a joined list begins.
pub open spec fn joined_place(items: Seq<Text>, sep: Text, i: int) -> int {
    if i <= 0 {
        0
    } else {
        (joined(items.take(i), sep).len() + sep.len()) as int
    }
}

/// Every item of a joined list stands at its place, with the separator before it, and the places
/// follow one another.
pub proof fn lemma_joined_holds(items: Seq<Text>, sep: Text, i: int)
    requires
        0 <= i < items.len(),
    ensures
        occurs_at(items[i], joined(items, sep), joined_place(items, sep, i)),
        i > 0 ==> occurs_at(sep, joined(items, sep), joined_place(items, sep, i) - sep.len()),
        i + 1 < items.len() ==> joined_place(items, sep, i) + items[i].len() + sep.len()
            == joined_place(items, sep, i + 1),
        i + 1 == items.len() ==> joined_place(items, sep, i) + items[i].len() == joined(
            items,
            sep,
        ).len(),
    decreases items.len(),
{
    let all = joined(items, sep);
    let last = items.len() - 1;
    if i < last {
        let front = items.drop_last();
        lemma_joined_holds(front, sep, i);
        assert(front.take(i) =~= items.take(i));
        let before = joined(front, sep);
        assert(all == before + sep + items.last());
        let p = joined_place(items, sep, i);
        assert(all.subrange(p, p + items[i].len()) =~= before.subrange(p, p + items[i].len()));
        if i > 0 {
            assert(all.subrange(p - sep.len(), p) =~= before.subrange(p - sep.len(), p));
        }
        if i + 1 == last {
            assert(front =~= items.take(i + 1));
        } else {
            assert(front.take(i + 1) =~= items.take(i + 1));
        }
    } else if last > 0 {
        let front = items.drop_last();
        assert(front =~= items.take(i));
        let p = joined_place(items, sep, i);
        assert(all == joined(front, sep) + sep + items.last());
        assert(all.subrange(p, p + items[i].len()) =~= items[i]);
        assert(all.subrange(p - sep.len(), p) =~= sep);
    } else {
        assert(all.subrange(0, items[0].len() as int) =~= items[0]);
    }
}

/// Three items that follow one another stand in the items joined, one directly behind the other.
pub proof fn lemma_concat_holds_three(items: Seq<Text>, i: int)
    requires
        0 <= i < items.len() - 2,
    ensures
        occurs_in(items[i] + items[i + 1] + items[i + 2], concat(items)),
{
    lemma_concat_around(items, i);
    let rest = items.skip(i + 1);
    lemma_concat_around(rest, 0);
    let last = rest.skip(1);
    lemma_concat_around(last, 0);
    assert(rest.take(0) =~= Seq::<Text>::empty());
    assert(last.take(0) =~= Seq::<Text>::empty());
    let before = concat(items.take(i));
    let after = concat(last.skip(1));
    let three = items[i] + items[i + 1] + items[i + 2];
    assert(concat(items) =~= before + three + after);
    lemma_middle_occurs(before, three, after);
}

/// Every item of a list stands in the joined list.
pub proof fn lemma_joined_contains(items: Seq<Text>, sep: Text, x: Text)
    requires
        items.contains(x),
    ensures
        occurs_in(x, joined(items, sep)),
        x.len() <= joined(items, sep).len(),
{
    let i = choose|i: int| 0 <= i < items.len() && items[i] == x;
    lemma_joined_holds(items, sep, i);
    assert(occurs_at(x, joined(items, sep), joined_place(items, sep, i)));
}

/// Joined items begin with the first three.
pub proof fn lemma_concat_begins(items: Seq<Text>)
    requires
        items.len() >= 3,
    ensures
        occurs_at(items[0] + items[1] + items[2], concat(items), 0),
{
    lemma_concat_around(items, 2);
    let front = items.take(2);
    assert(front.drop_last() =~= seq![items[0]]);
    assert(seq![items[0]].drop_last() =~= Seq::<Text>::empty());
    reveal_with_fuel(concat, 3);
    assert(concat(front) =~= items[0] + items[1]);
    let three = items[0] + items[1] + items[2];
    assert(concat(items).subrange(0, three.len() as int) =~= three);
}

// ---------------------------------------------------------------------------------------------
// Laws

/// Trimming takes characters of the class away at both ends, as many as there are, and nothing else.
pub proof fn law_trimmed(s: Text, class: CharClass) -> (r: (int, int))
    ensures
        0 <= r.0 <= r.1 <= s.len(),
        trimmed_both(s, class) == s.subrange(r.0, r.1),
        forall|i: int| 0 <= i < r.0 ==> class.holds(#[trigger] s[i]),
        forall|i: int| r.1 <= i < s.len() ==> class.holds(#[trigger] s[i]),
        r.0 < r.1 ==> !class.holds(s[r.0]) && !class.holds(s[r.1 - 1]),
{
    let b = lemma_trimmed_start_place(s, class);
    let t = s.skip(b);
    let n = lemma_trimmed_end_place(t, class);
    assert(t.take(n) =~= s.subrange(b, b + n));
    assert forall|i: int| b + n <= i < s.len() implies class.holds(#[trigger] s[i]) by {
        assert(s[i] == t[i - b]);
    }
    if n > 0 {
        assert(s[b + n - 1] == t[n - 1]);
        assert(s[b] == t[0]);
    }
    (b, b + n)
}

proof fn lemma_trimmed_start_place(s: Text, class: CharClass) -> (b: int)
    ensures
        0 <= b <= s.len(),
        trimmed_start(s, class) == s.skip(b),
        forall|i: int| 0 <= i < b ==> class.holds(#[trigger] s[i]),
        b < s.len() ==> !class.holds(s[b]),
    decreases s.len(),
{
    if s.len() > 0 && class.holds(s[0]) {
        let b = lemma_trimmed_start_place(s.skip(1), class);
        assert(s.skip(1).skip(b) =~= s.skip(b + 1));
        assert forall|i: int| 0 <= i < b + 1 implies class.holds(#[trigger] s[i]) by {
            if i > 0 {
                assert(s[i] == s.skip(1)[i - 1]);
            }
        }
        b + 1
    } else {
        assert(s.skip(0) =~= s);
        0
    }
}

proof fn lemma_trimmed_end_place(s: Text, class: CharClass) -> (n: int)
    ensures
        0 <= n <= s.len(),
        trimmed_end(s, class) == s.take(n),
        forall|i: int| n <= i < s.len() ==> class.holds(#[trigger] s[i]),
        n > 0 ==> !class.holds(s[n - 1]),
    decreases s.len(),
{
    if s.len() > 0 && class.holds(s.last()) {
        let front = s.drop_last();
        let n = lemma_trimmed_end_place(front, class);
        assert(front.take(n) =~= s.take(n));
        assert forall|i: int| n <= i < s.len() implies class.holds(#[trigger] s[i]) by {
            if i < s.len() - 1 {
                assert(s[i] == front[i]);
            }
        }
        if n > 0 {
            assert(s[n - 1] == front[n - 1]);
        }
        n
    } else {
        assert(s.take(s.len() as int) =~= s);
        s.len() as int
    }
}

/// Spaces, tabs, line ends and the wide space are white space; letters, digits, punctuation and the
/// characters of Japanese words are not.
pub proof fn law_white_space(c: char)
    ensures
        c as u32 <= 0x7f ==> (is_white_space(c) <==> c == ' ' || c == '\t' || c == '\n' || c == '\r' || c
            as u32 == 11 || c as u32 == 12),
        c as u32 == 0x3000 ==> is_white_space(c),
        0x3001 <= c as u32 ==> !is_white_space(c),
{
}

/// Quotation marks, spaces and tabs are taken away around a heading, and nothing else.
pub proof fn law_quotes(c: char)
    ensures
        CharClass::Quotes.holds(c) <==> "「」\"' \t"@.contains(c),
{
    reveal_strlit("「」\"' \t");
    let all = "「」\"' \t"@;
    assert(all[0] == '「' && all[1] == '」' && all[2] == '"' && all[3] == '\'' && all[4] == ' ' && all[5]
        == '\t');
}

/// The pieces of a text are the text again when they are joined by the separator, and no piece holds
/// the separator.
pub proof fn law_pieces(s: Text, sep: Text)
    requires
        sep.len() > 0,
    ensures
        joined(pieces(s, sep), sep) == s,
        pieces(s, sep).len() > 0,
        forall|i: int| 0 <= i < pieces(s, sep).len() ==> !occurs_in(sep, #[trigger] pieces(s, sep)[i]),
    decreases s.len(),
{
    lemma_first_from(sep, s, 0);
    match first_from(sep, s, 0) {
        Some(k) => {
            let rest = s.skip((k + sep.len()) as int);
            let head = s.take(k as int);
            law_pieces(rest, sep);
            let others = pieces(rest, sep);
            lemma_joined_first(head, others, sep);
            assert(head + sep + rest =~= s);
            assert forall|i: int| 0 <= i < pieces(s, sep).len() implies !occurs_in(
                sep,
                #[trigger] pieces(s, sep)[i],
            ) by {
                if i == 0 {
                    if occurs_in(sep, head) {
                        let p = choose|p: int| occurs_at(sep, head, p);
                        assert(head.subrange(p, p + sep.len()) =~= s.subrange(p, p + sep.len()));
                        assert(occurs_at(sep, s, p));
                    }
                } else {
                    assert(pieces(s, sep)[i] == others[i - 1]);
                }
            }
        },
        None => {
            if occurs_in(sep, s) {
                let p = choose|p: int| occurs_at(sep, s, p);
                assert(false);
            }
        },
    }
}

proof fn lemma_joined_first(first: Text, rest: Seq<Text>, sep: Text)
    requires
        rest.len() > 0,
    ensures
        joined(seq![first] + rest, sep) == first + sep + joined(rest, sep),
    decreases rest.len(),
{
    let all = seq![first] + rest;
    assert(all.drop_last() =~= seq![first] + rest.drop_last());
    assert(all.last() == rest.last());
    reveal_with_fuel(joined, 3);
    if rest.len() == 1 {
        assert(rest.drop_last() =~= Seq::<Text>::empty());
        assert(all.drop_last() =~= seq![first]);
        assert(joined(all, sep) =~= first + sep + joined(rest, sep));
    } else {
        lemma_joined_first(first, rest.drop_last(), sep);
        assert(joined(all, sep) =~= first + sep + joined(rest, sep));
    }
}

/// Every line of a text but the last ends with a line end, and no line holds another one.
pub proof fn law_lines(s: Text, i: int)
    requires
        0 <= i < lines(s).len(),
    ensures
        lines(s)[i].len() > 0,
        i + 1 < lines(s).len() ==> lines(s)[i].last() == '\n',
        forall|k: int| 0 <= k < lines(s)[i].len() - 1 ==> #[trigger] lines(s)[i][k] != '\n',
    decreases s.len(),
{
    lemma_line_len(s);
    let n = line_len(s) as int;
    let rest = s.skip(n);
    if i == 0 {
        if lines(s).len() > 1 {
            assert(rest.len() > 0);
            lemma_line_ends(s);
        }
    } else {
        law_lines(rest, i - 1);
        assert(lines(s)[i] == lines(rest)[i - 1]);
    }
}

proof fn lemma_line_ends(s: Text)
    requires
        line_len(s) < s.len(),
    ensures
        line_len(s) > 0,
        s[line_len(s) - 1] == '\n',
    decreases s.len(),
{
    if s[0] != '\n' {
        lemma_line_ends(s.skip(1));
        assert(s.skip(1)[line_len(s.skip(1)) - 1] == s[line_len(s) - 1]);
    }
}

/// Lower case changes the letters from A to Z into those from a to z, and no other character.
pub proof fn law_lower_case(s: Text, i: int)
    requires
        0 <= i < s.len(),
    ensures
        lower_ascii(s).len() == s.len(),
        'A' <= s[i] <= 'Z' ==> lower_ascii(s)[i] as int == s[i] as int + 32,
        !('A' <= s[i] <= 'Z') ==> lower_ascii(s)[i] == s[i],
{
}

/// An excerpt stands on one line. It is the text itself where that is short enough, and otherwise its
/// first characters and an ellipsis; only line ends become spaces.
pub proof fn law_excerpt(s: Text, max: nat)
    ensures
        !excerpt(s, max).contains('\n'),
        s.len() <= max ==> excerpt(s, max).len() == s.len(),
        s.len() > max ==> excerpt(s, max).len() == max + 3 && excerpt(s, max).skip(max as int) == "..."@,
        forall|i: int|
            0 <= i < s.len() && i < max ==> #[trigger] excerpt(s, max)[i] == if s[i] == '\n' {
                ' '
            } else {
                s[i]
            },
{
    reveal_strlit("...");
    let e = excerpt(s, max);
    assert forall|i: int| 0 <= i < e.len() implies e[i] != '\n' by {}
    if s.len() > max {
        assert(e.skip(max as int) =~= "..."@);
    }
}

/// A list of placeholders has one question mark for each value and a comma between every two.
pub proof fn law_placeholders(count: nat)
    ensures
        count > 0 ==> marks(count).len() == 2 * count - 1,
        count == 0 ==> marks(count).len() == 0,
        forall|i: int|
            0 <= i < marks(count).len() ==> #[trigger] marks(count)[i] == if i % 2 == 0 {
                '?'
            } else {
                ','
            },
    decreases count,
{
    reveal_strlit("?");
    reveal_strlit(",");
    if count > 1 {
        let before = (count - 1) as nat;
        law_placeholders(before);
        let all = Seq::new(count, |i: int| "?"@);
        assert(all.drop_last() =~= Seq::new(before, |i: int| "?"@));
        assert(marks(count) == marks(before) + ","@ + "?"@);
    }
}

/// The number that a row of digits denotes.
pub open spec fn number_of(digits: Text) -> int
    decreases digits.len(),
{
    if digits.len() == 0 {
        0
    } else {
        10 * number_of(digits.drop_last()) + (digits.last() as int - '0' as int)
    }
}

/// A number is written in digits that denote it, without zeros before it.
pub proof fn law_decimal(n: nat)
    ensures
        number_of(decimal(n)) == n,
        decimal(n).len() > 0,
        forall|i: int| 0 <= i < decimal(n).len() ==> '0' <= #[trigger] decimal(n)[i] <= '9',
        decimal(n)[0] == '0' ==> n == 0,
    decreases n,
{
    reveal_with_fuel(number_of, 2);
    if n >= 10 {
        law_decimal(n / 10);
        assert(decimal(n).drop_last() =~= decimal(n / 10));
        assert(decimal(n)[0] == decimal(n / 10)[0]);
    } else {
        assert(decimal(n).drop_last() =~= Seq::<char>::empty());
    }
}

/// A negative number is written as the number itself behind a minus sign.
pub proof fn law_signed_decimal(n: int)
    ensures
        n >= 0 ==> number_of(signed_decimal(n)) == n,
        n < 0 ==> signed_decimal(n)[0] == '-' && number_of(signed_decimal(n).skip(1)) == -n,
{
    if n >= 0 {
        law_decimal(n as nat);
    } else {
        law_decimal((-n) as nat);
        assert(signed_decimal(n).skip(1) =~= decimal((-n) as nat));
    }
}

/// What a prefix was taken from no longer begins with it, however often it stood there.
pub proof fn law_without_prefix(s: Text, prefix: Text)
    requires
        prefix.len() > 0,
    ensures
        !begins_with(without_prefix(s, prefix), prefix),
        without_prefix(prefix + s, prefix) == without_prefix(s, prefix),
        !begins_with(s, prefix) ==> without_prefix(s, prefix) == s,
    decreases s.len(),
{
    let whole = prefix + s;
    assert(whole.subrange(0, prefix.len() as int) =~= prefix);
    assert(whole.skip(prefix.len() as int) =~= s);
    if begins_with(s, prefix) {
        law_without_prefix(s.skip(prefix.len() as int), prefix);
    }
}

/// A text with a character that is no white space is not blank.
pub proof fn lemma_not_blank(s: Text, k: int)
    requires
        0 <= k < s.len(),
        !is_white_space(s[k]),
    ensures
        !is_blank(s),
{
    let (b, e) = law_trimmed(s, CharClass::WhiteSpace);
    if is_blank(s) {
        assert(CharClass::WhiteSpace.holds(s[k]));
    }
}

} // verus!
