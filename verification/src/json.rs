//! JSON as the library reads and writes it.

use vstd::prelude::*;
use vstd::string::*;

use crate::text;
use crate::text::Text;

verus! {

// ---------------------------------------------------------------------------------------------
// Values

/// A JSON value. Of a number that is no integer of 64 bits nothing is kept.
pub enum Json {
    Null,
    Bool(bool),
    Int(i64),
    /// An integer above the range of `Int`.
    Large(u64),
    Real,
    Text(String),
    List(Vec<Json>),
    Object(Vec<(String, Json)>),
}

/// The value of the first field of that name.
pub open spec fn lookup(fields: Seq<(String, Json)>, key: Text) -> Option<Json>
    decreases fields.len(),
{
    if fields.len() == 0 {
        None
    } else if fields[0].0@ == key {
        Some(fields[0].1)
    } else {
        lookup(fields.skip(1), key)
    }
}

impl Json {
    /// The value of a field, if this is an object that has it.
    pub open spec fn field(self, key: Text) -> Option<Json> {
        match self {
            Json::Object(fields) => lookup(fields@, key),
            _ => None,
        }
    }

    /// The text, if this is one.
    pub open spec fn text(self) -> Option<Text> {
        match self {
            Json::Text(s) => Some(s@),
            _ => None,
        }
    }

    /// The items, if this is a list.
    pub open spec fn items(self) -> Option<Seq<Json>> {
        match self {
            Json::List(items) => Some(items@),
            _ => None,
        }
    }

    /// The truth value, if this is one.
    pub open spec fn truth(self) -> Option<bool> {
        match self {
            Json::Bool(b) => Some(b),
            _ => None,
        }
    }

    /// The number, if this is an integer of 64 bits with a sign.
    pub open spec fn integer(self) -> Option<i64> {
        match self {
            Json::Int(n) => Some(n),
            _ => None,
        }
    }

    /// The number, if this is an integer of 64 bits without a sign.
    pub open spec fn natural(self) -> Option<u64> {
        match self {
            Json::Int(n) => if n >= 0 {
                Some(n as u64)
            } else {
                None
            },
            Json::Large(n) => Some(n),
            _ => None,
        }
    }

    /// The value of a field, if this is an object that has it.
    pub fn get<'a>(&'a self, key: &str) -> (r: Option<&'a Json>)
        ensures
            match r {
                Some(value) => self.field(key@) == Some(*value),
                None => self.field(key@) is None,
            },
    {
        match self {
            Json::Object(fields) => {
                assert(fields@.skip(0) =~= fields@);
                for i in 0..fields.len()
                    invariant
                        self.field(key@) == lookup(fields@.skip(i as int), key@),
                {
                    assert(fields@.skip(i as int).skip(1) =~= fields@.skip(i + 1));
                    if text::same_text(fields[i].0.as_str(), key) {
                        return Some(&fields[i].1);
                    }
                }
                None
            },
            _ => None,
        }
    }

    /// The text, if this is one.
    pub fn as_str(&self) -> (r: Option<&str>)
        ensures
            match r {
                Some(s) => self.text() == Some(s@),
                None => self.text() is None,
            },
    {
        match self {
            Json::Text(s) => Some(s.as_str()),
            _ => None,
        }
    }

    /// The items, if this is a list.
    pub fn as_array(&self) -> (r: Option<&Vec<Json>>)
        ensures
            match r {
                Some(items) => self.items() == Some(items@),
                None => self.items() is None,
            },
    {
        match self {
            Json::List(items) => Some(items),
            _ => None,
        }
    }

    /// The truth value, if this is one.
    pub fn as_bool(&self) -> (r: Option<bool>)
        ensures
            r == self.truth(),
    {
        match self {
            Json::Bool(b) => Some(*b),
            _ => None,
        }
    }

    /// The number, if this is an integer of 64 bits with a sign.
    pub fn as_i64(&self) -> (r: Option<i64>)
        ensures
            r == self.integer(),
    {
        match self {
            Json::Int(n) => Some(*n),
            _ => None,
        }
    }

    /// The number, if this is an integer of 64 bits without a sign.
    pub fn as_u64(&self) -> (r: Option<u64>)
        ensures
            r == self.natural(),
    {
        match self {
            Json::Int(n) => if *n >= 0 {
                Some(*n as u64)
            } else {
                None
            },
            Json::Large(n) => Some(*n),
            _ => None,
        }
    }
}

/// The items of a field that is a list; none where there is no such field.
pub open spec fn listed(reply: Option<Json>, key: Text) -> Seq<Json> {
    match reply {
        Some(value) => match value.field(key) {
            Some(list) => match list.items() {
                Some(items) => items,
                None => Seq::empty(),
            },
            None => Seq::empty(),
        },
        None => Seq::empty(),
    }
}

/// The text of a field of an object, trimmed, and empty where there is none.
pub open spec fn field_text(item: Json, key: Text) -> Text {
    match item.field(key) {
        Some(value) => match value.text() {
            Some(s) => text::trimmed(s),
            None => Seq::empty(),
        },
        None => Seq::empty(),
    }
}

/// The text of a field of an object, trimmed, and empty where there is none.
pub fn fact_field(item: &Json, key: &str) -> (r: String)
    ensures
        r@ == field_text(*item, key@),
{
    match item.get(key) {
        Some(value) => match value.as_str() {
            Some(s) => text::copy_text(text::trim(s)),
            None => String::new(),
        },
        None => String::new(),
    }
}

// ---------------------------------------------------------------------------------------------
// Reading

/// What a text holds as JSON, if it is JSON at all.
pub uninterp spec fn parsed_json(s: Seq<char>) -> Option<Json>;

/// A value of `serde_json`.
#[verifier::external_type_specification]
#[verifier::external_body]
pub struct ExValue(serde_json::Value);

/// Converts a `serde_json::Value`, variant by variant. Nothing is claimed of it; `parse_json`, whose
/// body calls it, speaks of the result.
#[verifier::external_body]
fn json_from(value: &serde_json::Value) -> (r: Json) {
    match value {
        serde_json::Value::Null => Json::Null,
        serde_json::Value::Bool(b) => Json::Bool(*b),
        serde_json::Value::Number(n) => match (n.as_i64(), n.as_u64()) {
            (Some(i), _) => Json::Int(i),
            (None, Some(u)) => Json::Large(u),
            (None, None) => Json::Real,
        },
        serde_json::Value::String(s) => Json::Text(s.clone()),
        serde_json::Value::Array(items) => Json::List(items.iter().map(json_from).collect()),
        serde_json::Value::Object(map) => Json::Object(
            map.iter().map(|(k, v)| (k.clone(), json_from(v))).collect(),
        ),
    }
}

/// `serde_json::from_str` reads a text as a `serde_json::Value`, or fails where the text is no JSON.
/// The result depends on the text alone; it is given a name.
#[verifier::external_body]
pub(crate) fn parse_json(s: &str) -> (r: Option<Json>)
    ensures
        r == parsed_json(s@),
{
    serde_json::from_str::<serde_json::Value>(s).ok().map(|value| json_from(&value))
}

// ---------------------------------------------------------------------------------------------
// Writing

/// The hexadecimal digit of a number below 16, in lower case.
pub open spec fn hex_char(d: nat) -> char {
    if d < 10 {
        (('0' as nat) + d) as char
    } else {
        (('a' as nat) + (d - 10)) as char
    }
}

/// A character as it stands inside a JSON string.
pub open spec fn escaped_char(c: char) -> Text {
    if c == '"' || c == '\\' {
        seq!['\\', c]
    } else if c == '\n' {
        seq!['\\', 'n']
    } else if c == '\r' {
        seq!['\\', 'r']
    } else if c == '\t' {
        seq!['\\', 't']
    } else if c as u32 == 8 {
        seq!['\\', 'b']
    } else if c as u32 == 12 {
        seq!['\\', 'f']
    } else if (c as u32) < 32 {
        seq!['\\', 'u', '0', '0', hex_char(c as nat / 16), hex_char(c as nat % 16)]
    } else {
        seq![c]
    }
}

/// The characters of a text as they stand inside a JSON string.
pub open spec fn escaped(s: Text) -> Text
    decreases s.len(),
{
    if s.len() == 0 {
        Seq::empty()
    } else {
        escaped(s.drop_last()) + escaped_char(s.last())
    }
}

/// A text as a JSON string.
pub open spec fn quoted(s: Text) -> Text {
    seq!['"'] + escaped(s) + seq!['"']
}

/// A JSON list of the given items.
pub open spec fn json_list(items: Seq<Text>) -> Text {
    seq!['['] + text::joined(items, seq![',']) + seq![']']
}

/// Texts as a JSON list of strings.
pub open spec fn json_strings(items: Seq<Text>) -> Text {
    json_list(Seq::new(items.len(), |i: int| quoted(items[i])))
}

/// Numbers as a JSON list.
pub open spec fn json_numbers(items: Seq<i64>) -> Text {
    json_list(Seq::new(items.len(), |i: int| text::signed_decimal(items[i] as int)))
}

/// `serde_json::to_string` writes a text as a JSON string: between quotation marks, with the
/// quotation mark, the backslash and the control characters escaped.
#[verifier::external_body]
pub(crate) fn quote_text(s: &str) -> (r: String)
    ensures
        r@ == quoted(s@),
{
    serde_json::to_string(s).unwrap()
}

/// `serde_json::to_string` writes texts as a list of JSON strings, without any white space.
#[verifier::external_body]
pub(crate) fn write_strings(items: &Vec<String>) -> (r: String)
    ensures
        r@ == json_strings(text::texts(items@)),
{
    serde_json::to_string(items).unwrap()
}

/// `serde_json::to_string` writes numbers as a list, without any white space.
#[verifier::external_body]
pub(crate) fn write_numbers(items: &Vec<i64>) -> (r: String)
    ensures
        r@ == json_numbers(items@),
{
    serde_json::to_string(items).unwrap()
}

/// The strings that a text lists, if it is a JSON list of strings alone.
pub uninterp spec fn listed_strings(s: Seq<char>) -> Option<Seq<Seq<char>>>;

/// The numbers that a text lists, if it is a JSON list of integers of 64 bits alone.
pub uninterp spec fn listed_numbers(s: Seq<char>) -> Option<Seq<i64>>;

/// `serde_json::from_str` reads a list of strings, or fails where the text is no such list. What it
/// gives is named; what `serde_json::to_string` wrote, it gives back.
#[verifier::external_body]
pub(crate) fn read_strings(s: &str) -> (r: Option<Vec<String>>)
    ensures
        match r {
            Some(items) => listed_strings(s@) == Some(text::texts(items@)),
            None => listed_strings(s@) is None,
        },
        forall|items: Seq<Text>|
            s@ == #[trigger] json_strings(items) ==> r is Some && text::texts(r.unwrap()@) == items,
{
    serde_json::from_str::<Vec<String>>(s).ok()
}

/// `serde_json::from_str` reads a list of numbers, or fails where the text is no such list. What it
/// gives is named; what `serde_json::to_string` wrote, it gives back.
#[verifier::external_body]
pub(crate) fn read_numbers(s: &str) -> (r: Option<Vec<i64>>)
    ensures
        match r {
            Some(items) => listed_numbers(s@) == Some(items@),
            None => listed_numbers(s@) is None,
        },
        forall|items: Seq<i64>|
            s@ == #[trigger] json_numbers(items) ==> r is Some && r.unwrap()@ == items,
{
    serde_json::from_str::<Vec<i64>>(s).ok()
}

/// The strings of a stored list; none where the text is no such list.
pub fn parse_json_string_vec(raw: &str) -> (r: Vec<String>)
    ensures
        text::texts(r@) == match listed_strings(raw@) {
            Some(items) => items,
            None => Seq::empty(),
        },
        forall|items: Seq<Text>| raw@ == #[trigger] json_strings(items) ==> text::texts(r@) == items,
{
    match read_strings(raw) {
        Some(items) => items,
        None => {
            let none: Vec<String> = Vec::new();
            assert(text::texts(none@) =~= Seq::empty());
            none
        },
    }
}

/// The numbers of a stored list; none where the text is no such list.
pub fn parse_json_i64_vec(raw: &str) -> (r: Vec<i64>)
    ensures
        r@ == match listed_numbers(raw@) {
            Some(items) => items,
            None => Seq::empty(),
        },
        forall|items: Seq<i64>| raw@ == #[trigger] json_numbers(items) ==> r@ == items,
{
    match read_numbers(raw) {
        Some(items) => items,
        None => Vec::new(),
    }
}

/// A list of strings as it is stored.
pub fn store_strings(items: &Vec<String>) -> (r: String)
    ensures
        r@ == json_strings(text::texts(items@)),
{
    write_strings(items)
}

/// A list of numbers as it is stored.
pub fn store_numbers(items: &Vec<i64>) -> (r: String)
    ensures
        r@ == json_numbers(items@),
{
    write_numbers(items)
}

/// A JSON text in the form in which `serde_json` writes the value that it holds.
pub uninterp spec fn canonical_json(s: Seq<char>) -> Option<Seq<char>>;

/// `serde_json::from_str` reads a text as a `serde_json::Value`, or fails where the text is no JSON;
/// the text form of that value is given back. It depends on the text alone and is given a name.
#[verifier::external_body]
pub(crate) fn rewrite_json(s: &str) -> (r: Option<String>)
    ensures
        match r {
            Some(written) => canonical_json(s@) == Some(written@),
            None => canonical_json(s@) is None,
        },
{
    serde_json::from_str::<serde_json::Value>(s).ok().map(|value| value.to_string())
}

// ---------------------------------------------------------------------------------------------
// Laws

proof fn lemma_in_list(items: Seq<Text>, x: Text)
    requires
        items.contains(x),
    ensures
        text::occurs_in(x, json_list(items)),
{
    text::lemma_joined_contains(items, seq![','], x);
    text::lemma_middle_occurs(seq!['['], text::joined(items, seq![',']), seq![']']);
    text::lemma_occurs_transitive(x, text::joined(items, seq![',']), json_list(items));
}

/// A list of texts holds every one of them in quotation marks, between square brackets and with a comma
/// between every two.
pub proof fn law_list_holds_texts(items: Seq<Text>, x: Text)
    requires
        items.contains(x),
    ensures
        text::occurs_in(quoted(x), json_strings(items)),
        json_strings(items)[0] == '[',
        json_strings(items).last() == ']',
        items.len() == 1 ==> json_strings(items) == seq!['['] + quoted(x) + seq![']'],
{
    let written = Seq::new(items.len(), |i: int| quoted(items[i]));
    let i = choose|i: int| 0 <= i < items.len() && items[i] == x;
    assert(written[i] == quoted(x));
    lemma_in_list(written, quoted(x));
}

/// A list of numbers holds every one of them.
pub proof fn law_list_holds_numbers(items: Seq<i64>, n: i64)
    requires
        items.contains(n),
    ensures
        text::occurs_in(text::signed_decimal(n as int), json_numbers(items)),
        json_numbers(items)[0] == '[',
        json_numbers(items).last() == ']',
        items.len() == 1 ==> json_numbers(items) == seq!['['] + text::signed_decimal(n as int) + seq![
            ']',
        ],
{
    let written = Seq::new(items.len(), |i: int| text::signed_decimal(items[i] as int));
    let i = choose|i: int| 0 <= i < items.len() && items[i] == n;
    assert(written[i] == text::signed_decimal(n as int));
    lemma_in_list(written, text::signed_decimal(n as int));
}

/// A text is quoted character by character.
pub proof fn law_escaped_in_order(a: Text, b: Text)
    ensures
        escaped(a + b) == escaped(a) + escaped(b),
    decreases b.len(),
{
    if b.len() == 0 {
        assert(a + b =~= a);
        assert(escaped(a) + escaped(b) =~= escaped(a));
    } else {
        assert((a + b).drop_last() =~= a + b.drop_last());
        assert((a + b).last() == b.last());
        law_escaped_in_order(a, b.drop_last());
        assert(escaped(a + b) =~= escaped(a) + escaped(b));
    }
}

/// A quotation mark and a backslash stand behind a backslash, a line end, a carriage return and a tab
/// are written with a letter, and every character from the space on that is none of these stands for
/// itself.
pub proof fn law_escaped_characters(c: char)
    ensures
        c == '"' || c == '\\' ==> escaped(seq![c]) == seq!['\\', c],
        escaped(seq!['\n']) == seq!['\\', 'n'],
        escaped(seq!['\r']) == seq!['\\', 'r'],
        escaped(seq!['\t']) == seq!['\\', 't'],
        c as u32 >= 32 && c != '"' && c != '\\' ==> escaped(seq![c]) == seq![c],
        forall|k: int|
            0 <= k < escaped(seq![c]).len() ==> #[trigger] escaped(seq![c])[k] as u32 >= 32,
{
    reveal_with_fuel(escaped, 2);
    assert(seq![c].drop_last() =~= Seq::<char>::empty());
    assert(seq!['\n'].drop_last() =~= Seq::<char>::empty());
    assert(seq!['\r'].drop_last() =~= Seq::<char>::empty());
    assert(seq!['\t'].drop_last() =~= Seq::<char>::empty());
    assert(escaped(seq![c]) =~= escaped_char(c));
    assert(escaped(seq!['\n']) =~= escaped_char('\n'));
    assert(escaped(seq!['\r']) =~= escaped_char('\r'));
    assert(escaped(seq!['\t']) =~= escaped_char('\t'));
}

/// A quoted text stands between quotation marks, and a text without quotation marks, backslashes and
/// control characters is not changed in between.
pub proof fn law_quoted(s: Text)
    ensures
        quoted(s)[0] == '"',
        quoted(s).last() == '"',
        (forall|i: int|
            0 <= i < s.len() ==> #[trigger] s[i] as u32 >= 32 && s[i] != '"' && s[i] != '\\')
            ==> quoted(s) == seq!['"'] + s + seq!['"'],
    decreases s.len(),
{
    if forall|i: int|
        0 <= i < s.len() ==> #[trigger] s[i] as u32 >= 32 && s[i] != '"' && s[i] != '\\' {
        lemma_plain_escaped(s);
    }
}

proof fn lemma_plain_escaped(s: Text)
    requires
        forall|i: int|
            0 <= i < s.len() ==> #[trigger] s[i] as u32 >= 32 && s[i] != '"' && s[i] != '\\',
    ensures
        escaped(s) == s,
    decreases s.len(),
{
    if s.len() > 0 {
        lemma_plain_escaped(s.drop_last());
        assert(escaped(s) =~= s);
    }
}

/// The first field of a name is the one that is read; what is no object has no field.
pub proof fn law_lookup(fields: Seq<(String, Json)>, i: int, key: Text)
    requires
        0 <= i < fields.len(),
        fields[i].0@ == key,
        forall|k: int| 0 <= k < i ==> (#[trigger] fields[k]).0@ != key,
    ensures
        lookup(fields, key) == Some(fields[i].1),
    decreases fields.len(),
{
    if i > 0 {
        let rest = fields.skip(1);
        assert(fields[0].0@ != key);
        assert forall|k: int| 0 <= k < i - 1 implies (#[trigger] rest[k]).0@ != key by {
            assert(rest[k] == fields[k + 1]);
        }
        law_lookup(rest, i - 1, key);
    }
}

/// A field that is not there is not found.
pub proof fn law_lookup_nothing(fields: Seq<(String, Json)>, key: Text)
    requires
        forall|k: int| 0 <= k < fields.len() ==> (#[trigger] fields[k]).0@ != key,
    ensures
        lookup(fields, key) is None,
    decreases fields.len(),
{
    if fields.len() > 0 {
        let rest = fields.skip(1);
        assert forall|k: int| 0 <= k < rest.len() implies (#[trigger] rest[k]).0@ != key by {
            assert(rest[k] == fields[k + 1]);
        }
        law_lookup_nothing(rest, key);
    }
}

/// What a value is read as: a text only as a text, a number only as a number, and a negative number as
/// no count.
pub proof fn law_kinds(n: i64, large: u64, s: String, items: Vec<Json>, b: bool)
    ensures
        Json::Text(s).text() == Some(s@),
        Json::Text(s).integer() is None && Json::Text(s).natural() is None,
        Json::Int(n).integer() == Some(n),
        Json::Int(n).text() is None,
        n >= 0 ==> Json::Int(n).natural() == Some(n as u64),
        n < 0 ==> Json::Int(n).natural() is None,
        Json::Large(large).natural() == Some(large),
        Json::Large(large).integer() is None,
        Json::Real.integer() is None && Json::Real.natural() is None,
        Json::List(items).items() == Some(items@),
        Json::Text(s).items() is None && Json::Null.items() is None,
        Json::Bool(b).truth() == Some(b),
        Json::Text(s).truth() is None && Json::Int(n).truth() is None,
        Json::Null.text() is None,
{
}

} // verus!
