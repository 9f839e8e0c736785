//! Facts that the language model extracts from the chunks, and how they are checked, kept and shown.

use vstd::prelude::*;
use vstd::string::*;

use crate::json;
use crate::json::Json;
use crate::records::ChunkRecord;
use crate::text;
use crate::text::Text;

verus! {

// ---------------------------------------------------------------------------------------------
// Facts

/// A fact as a mathematical value.
pub struct Fact {
    pub chunk_id: i64,
    pub file_name: Text,
    pub path: Text,
    pub heading: Text,
    pub start: i64,
    pub end: i64,
    pub statement: Text,
    pub scope: Text,
    pub subject: Text,
    pub object: Text,
    pub condition: Text,
    pub effect: Text,
    pub exception: Text,
    pub polarity: Text,
    pub quote: Text,
    pub confidence: Text,
}

/// A fact that a chunk states.
pub struct ExtractedFact {
    pub chunk_id: i64,
    pub file_name: String,
    pub path: String,
    pub heading_path: String,
    pub char_start: i64,
    pub char_end: i64,
    pub statement: String,
    pub scope: String,
    pub subject: String,
    pub object: String,
    pub condition: String,
    pub effect: String,
    pub exception: String,
    pub polarity: String,
    pub quote: String,
    pub confidence: String,
}

impl View for ExtractedFact {
    type V = Fact;

    open spec fn view(&self) -> Fact {
        Fact {
            chunk_id: self.chunk_id,
            file_name: self.file_name@,
            path: self.path@,
            heading: self.heading_path@,
            start: self.char_start,
            end: self.char_end,
            statement: self.statement@,
            scope: self.scope@,
            subject: self.subject@,
            object: self.object@,
            condition: self.condition@,
            effect: self.effect@,
            exception: self.exception@,
            polarity: self.polarity@,
            quote: self.quote@,
            confidence: self.confidence@,
        }
    }
}

impl Clone for ExtractedFact {
    fn clone(&self) -> (r: Self)
        ensures
            r == *self,
    {
        ExtractedFact {
            chunk_id: self.chunk_id,
            file_name: self.file_name.clone(),
            path: self.path.clone(),
            heading_path: self.heading_path.clone(),
            char_start: self.char_start,
            char_end: self.char_end,
            statement: self.statement.clone(),
            scope: self.scope.clone(),
            subject: self.subject.clone(),
            object: self.object.clone(),
            condition: self.condition.clone(),
            effect: self.effect.clone(),
            exception: self.exception.clone(),
            polarity: self.polarity.clone(),
            quote: self.quote.clone(),
            confidence: self.confidence.clone(),
        }
    }
}

/// The contents of some facts.
pub open spec fn facts_in(items: Seq<ExtractedFact>) -> Seq<Fact> {
    Seq::new(items.len(), |i: int| items[i]@)
}

// ---------------------------------------------------------------------------------------------
// Fields

/// Whether a text is one of the polarities of a fact.
pub open spec fn is_polarity(s: Text) -> bool {
    s == "positive"@ || s == "negative"@ || s == "conditional"@
}

/// Whether an effect denies something.
pub open spec fn denies(effect: Text) -> bool {
    ||| text::occurs_in("ない"@, effect)
    ||| text::occurs_in("対象外"@, effect)
    ||| text::occurs_in("除く"@, effect)
    ||| text::occurs_in("禁止"@, effect)
}

/// The polarity of a fact: the one that is given, if it is one; otherwise conditional where there is
/// a condition, negative where the effect denies something, and positive for the rest.
pub open spec fn polarity_of(raw: Text, condition: Text, effect: Text) -> Text {
    let value = text::lower_ascii(text::trimmed(raw));
    if is_polarity(value) {
        value
    } else if !text::is_blank(condition) {
        "conditional"@
    } else if denies(effect) {
        "negative"@
    } else {
        "positive"@
    }
}

/// The polarity of a fact.
pub fn normalize_polarity(raw: &str, condition: &str, effect: &str) -> (r: String)
    ensures
        r@ == polarity_of(raw@, condition@, effect@),
        is_polarity(r@),
{
    let value = text::to_lower_ascii(text::trim(raw));
    let s = value.as_str();
    if text::same_text(s, "positive") || text::same_text(s, "negative") || text::same_text(
        s,
        "conditional",
    ) {
        return value;
    }
    if !text::blank(condition) {
        return text::copy_text("conditional");
    }
    if text::contains(effect, "ない") || text::contains(effect, "対象外") || text::contains(
        effect,
        "除く",
    ) || text::contains(effect, "禁止") {
        return text::copy_text("negative");
    }
    text::copy_text("positive")
}

/// Whether a text is one of the degrees of confidence in a fact.
pub open spec fn is_confidence(s: Text) -> bool {
    s == "high"@ || s == "medium"@ || s == "low"@
}

/// The confidence in a fact: the one that is given, if it is one, otherwise medium.
pub open spec fn confidence_of(raw: Text) -> Text {
    let value = text::lower_ascii(text::trimmed(raw));
    if is_confidence(value) {
        value
    } else {
        "medium"@
    }
}

/// The confidence in a fact.
pub fn normalize_confidence(raw: &str) -> (r: String)
    ensures
        r@ == confidence_of(raw@),
        is_confidence(r@),
{
    let value = text::to_lower_ascii(text::trim(raw));
    let s = value.as_str();
    if text::same_text(s, "high") || text::same_text(s, "medium") || text::same_text(s, "low") {
        value
    } else {
        text::copy_text("medium")
    }
}

/// A part of a statement: nothing where the value is blank.
pub open spec fn statement_part(label: Text, value: Text) -> Seq<Text> {
    if text::is_blank(value) {
        Seq::empty()
    } else {
        seq![label + text::trimmed(value)]
    }
}

/// A statement made of the fields of a fact that are not blank.
pub open spec fn composed_statement(
    subject: Text,
    object: Text,
    condition: Text,
    effect: Text,
    exception: Text,
) -> Text {
    text::joined(
        statement_part("subject="@, subject) + statement_part("object="@, object) + statement_part(
            "condition="@,
            condition,
        ) + statement_part("effect="@, effect) + statement_part("exception="@, exception),
        " / "@,
    )
}

fn push_part(parts: &mut Vec<String>, label: &str, value: &str)
    ensures
        text::texts(final(parts)@) == text::texts(old(parts)@) + statement_part(label@, value@),
{
    let ghost before = text::texts(parts@);
    if !text::blank(value) {
        let mut part = text::copy_text(label);
        part.append(text::trim(value));
        parts.push(part);
        assert(text::texts(parts@) =~= before + seq![label@ + text::trimmed(value@)]);
    } else {
        assert(text::texts(parts@) =~= before + Seq::<Text>::empty());
    }
}

/// A statement made of the fields of a fact that are not blank.
pub fn compose_fact_statement(
    subject: &str,
    object: &str,
    condition: &str,
    effect: &str,
    exception: &str,
) -> (r: String)
    ensures
        r@ == composed_statement(subject@, object@, condition@, effect@, exception@),
{
    let mut parts: Vec<String> = Vec::new();
    push_part(&mut parts, "subject=", subject);
    push_part(&mut parts, "object=", object);
    push_part(&mut parts, "condition=", condition);
    push_part(&mut parts, "effect=", effect);
    push_part(&mut parts, "exception=", exception);
    proof {
        let wanted = statement_part("subject="@, subject@) + statement_part("object="@, object@)
            + statement_part("condition="@, condition@) + statement_part("effect="@, effect@)
            + statement_part("exception="@, exception@);
        assert(text::texts(parts@) =~= wanted);
    }
    text::join(&parts, " / ")
}

/// The scope of a fact that states none: the file of its chunk, and its heading where it has one.
pub open spec fn scope_of(chunk: ChunkRecord) -> Text {
    if text::is_blank(chunk.heading_path@) {
        chunk.file_name@
    } else {
        chunk.file_name@ + " / "@ + chunk.heading_path@
    }
}

/// The scope of a fact that states none.
pub fn fallback_scope(chunk: &ChunkRecord) -> (r: String)
    ensures
        r@ == scope_of(*chunk),
{
    if text::blank(chunk.heading_path.as_str()) {
        chunk.file_name.clone()
    } else {
        let mut out = chunk.file_name.clone();
        out.append(" / ");
        out.append(chunk.heading_path.as_str());
        out
    }
}

/// A fact as the language model reads it.
pub open spec fn fact_block(index: nat, fact: Fact) -> Text {
    text::concat(
        seq![
            "[F"@,
            text::decimal(index),
            "] file="@,
            fact.file_name,
            " chunk="@,
            text::signed_decimal(fact.chunk_id as int),
            " chars="@,
            text::signed_decimal(fact.start as int),
            "-"@,
            text::signed_decimal(fact.end as int),
            " heading="@,
            fact.heading,
            "\nscope: "@,
            fact.scope,
            "\nsubject: "@,
            fact.subject,
            "\nobject: "@,
            fact.object,
            "\ncondition: "@,
            fact.condition,
            "\neffect: "@,
            fact.effect,
            "\nexception: "@,
            fact.exception,
            "\npolarity: "@,
            fact.polarity,
            "\nconfidence: "@,
            fact.confidence,
            "\nstatement: "@,
            fact.statement,
            "\nquote: "@,
            fact.quote,
            "\n\n"@,
        ],
    )
}

/// A fact as the language model reads it, under its number.
pub fn format_fact_for_prompt(index: usize, fact: &ExtractedFact) -> (r: String)
    ensures
        r@ == fact_block(index as nat, fact@),
{
    let number = text::decimal_text(index as u128);
    let chunk = text::signed_text(fact.chunk_id);
    let start = text::signed_text(fact.char_start);
    let end = text::signed_text(fact.char_end);
    let parts: Vec<&str> = vec![
        "[F",
        number.as_str(),
        "] file=",
        fact.file_name.as_str(),
        " chunk=",
        chunk.as_str(),
        " chars=",
        start.as_str(),
        "-",
        end.as_str(),
        " heading=",
        fact.heading_path.as_str(),
        "\nscope: ",
        fact.scope.as_str(),
        "\nsubject: ",
        fact.subject.as_str(),
        "\nobject: ",
        fact.object.as_str(),
        "\ncondition: ",
        fact.condition.as_str(),
        "\neffect: ",
        fact.effect.as_str(),
        "\nexception: ",
        fact.exception.as_str(),
        "\npolarity: ",
        fact.polarity.as_str(),
        "\nconfidence: ",
        fact.confidence.as_str(),
        "\nstatement: ",
        fact.statement.as_str(),
        "\nquote: ",
        fact.quote.as_str(),
        "\n\n",
    ];
    let ghost f = fact@;
    assert(text::views(parts@) =~= seq![
        "[F"@,
        text::decimal(index as nat),
        "] file="@,
        f.file_name,
        " chunk="@,
        text::signed_decimal(f.chunk_id as int),
        " chars="@,
        text::signed_decimal(f.start as int),
        "-"@,
        text::signed_decimal(f.end as int),
        " heading="@,
        f.heading,
        "\nscope: "@,
        f.scope,
        "\nsubject: "@,
        f.subject,
        "\nobject: "@,
        f.object,
        "\ncondition: "@,
        f.condition,
        "\neffect: "@,
        f.effect,
        "\nexception: "@,
        f.exception,
        "\npolarity: "@,
        f.polarity,
        "\nconfidence: "@,
        f.confidence,
        "\nstatement: "@,
        f.statement,
        "\nquote: "@,
        f.quote,
        "\n\n"@,
    ]);
    text::concat_all(&parts)
}

/// Facts as the language model reads them, numbered from one.
pub open spec fn fact_blocks(facts: Seq<Fact>) -> Text {
    text::concat(Seq::new(facts.len(), |i: int| fact_block((i + 1) as nat, facts[i])))
}

/// Facts as the language model reads them, numbered from one.
pub fn format_facts(facts: &[ExtractedFact]) -> (r: String)
    ensures
        r@ == fact_blocks(facts_in(facts@)),
{
    let ghost all = facts_in(facts@);
    let ghost blocks = Seq::new(all.len(), |i: int| fact_block((i + 1) as nat, all[i]));
    let mut out = String::new();
    let total = facts.len();
    for i in 0..total
        invariant
            total == facts@.len(),
            all == facts_in(facts@),
            blocks == Seq::new(all.len(), |i: int| fact_block((i + 1) as nat, all[i])),
            out@ == text::concat(blocks.take(i as int)),
    {
        let block = format_fact_for_prompt(i + 1, &facts[i]);
        out.append(block.as_str());
        assert(blocks.take(i + 1).drop_last() =~= blocks.take(i as int));
        assert(blocks.take(i + 1).last() == block@);
    }
    assert(blocks.take(blocks.len() as int) =~= blocks);
    out
}

// ---------------------------------------------------------------------------------------------
// Extraction

/// The first chunk of a batch with an identifier.
pub open spec fn chunk_with(batch: Seq<ChunkRecord>, id: i64) -> Option<ChunkRecord>
    decreases batch.len(),
{
    if batch.len() == 0 {
        None
    } else if batch[0].id == id {
        Some(batch[0])
    } else {
        chunk_with(batch.skip(1), id)
    }
}

/// The first chunk of a batch with an identifier.
pub fn find_chunk(batch: &[ChunkRecord], id: i64) -> (r: Option<&ChunkRecord>)
    ensures
        match r {
            Some(chunk) => chunk_with(batch@, id) == Some(*chunk),
            None => chunk_with(batch@, id) is None,
        },
{
    assert(batch@.skip(0) =~= batch@);
    for i in 0..batch.len()
        invariant
            chunk_with(batch@, id) == chunk_with(batch@.skip(i as int), id),
    {
        assert(batch@.skip(i as int).skip(1) =~= batch@.skip(i + 1));
        if batch[i].id == id {
            return Some(&batch[i]);
        }
    }
    None
}

/// The number of a field of an object, zero where there is none.
pub open spec fn field_number(item: Json, key: Text) -> i64 {
    match item.field(key) {
        Some(value) => match value.integer() {
            Some(n) => n,
            None => 0,
        },
        None => 0,
    }
}

fn number_field(item: &Json, key: &str) -> (r: i64)
    ensures
        r == field_number(*item, key@),
{
    match item.get(key) {
        Some(value) => match value.as_i64() {
            Some(n) => n,
            None => 0,
        },
        None => 0,
    }
}

/// The statement of an extracted item: the one that it gives, otherwise one made of its fields.
pub open spec fn statement_of(item: Json) -> Text {
    let given = json::field_text(item, "statement"@);
    if given.len() > 0 {
        given
    } else {
        composed_statement(
            json::field_text(item, "subject"@),
            json::field_text(item, "object"@),
            json::field_text(item, "condition"@),
            json::field_text(item, "effect"@),
            json::field_text(item, "exception"@),
        )
    }
}

/// The fact of an extracted item and the chunk that it cites.
pub open spec fn fact_citing(item: Json, chunk: ChunkRecord) -> Fact {
    let condition = json::field_text(item, "condition"@);
    let effect = json::field_text(item, "effect"@);
    let scope = json::field_text(item, "scope"@);
    Fact {
        chunk_id: field_number(item, "chunk_id"@),
        file_name: chunk.file_name@,
        path: chunk.path@,
        heading: chunk.heading_path@,
        start: chunk.char_start,
        end: chunk.char_end,
        statement: statement_of(item),
        scope: if scope.len() == 0 {
            scope_of(chunk)
        } else {
            scope
        },
        subject: json::field_text(item, "subject"@),
        object: json::field_text(item, "object"@),
        condition,
        effect,
        exception: json::field_text(item, "exception"@),
        polarity: polarity_of(json::field_text(item, "polarity"@), condition, effect),
        quote: json::field_text(item, "quote"@),
        confidence: confidence_of(json::field_text(item, "confidence"@)),
    }
}

/// The fact of an extracted item, if it states something and cites a chunk of the batch.
pub open spec fn fact_of(item: Json, batch: Seq<ChunkRecord>) -> Option<Fact> {
    if statement_of(item).len() == 0 {
        None
    } else {
        match chunk_with(batch, field_number(item, "chunk_id"@)) {
            Some(chunk) => Some(fact_citing(item, chunk)),
            None => None,
        }
    }
}

/// The facts of some extracted items, in order.
pub open spec fn facts_of(items: Seq<Json>, batch: Seq<ChunkRecord>) -> Seq<Fact>
    decreases items.len(),
{
    if items.len() == 0 {
        Seq::empty()
    } else {
        let before = facts_of(items.drop_last(), batch);
        match fact_of(items.last(), batch) {
            Some(fact) => before.push(fact),
            None => before,
        }
    }
}

fn read_fact(item: &Json, batch: &[ChunkRecord]) -> (r: Option<ExtractedFact>)
    ensures
        match r {
            Some(fact) => fact_of(*item, batch@) == Some(fact@),
            None => fact_of(*item, batch@) is None,
        },
{
    let chunk_id = number_field(item, "chunk_id");
    let given = json::fact_field(item, "statement");
    let quote = json::fact_field(item, "quote");
    let scope = json::fact_field(item, "scope");
    let subject = json::fact_field(item, "subject");
    let object = json::fact_field(item, "object");
    let condition = json::fact_field(item, "condition");
    let effect = json::fact_field(item, "effect");
    let exception = json::fact_field(item, "exception");
    let raw_polarity = json::fact_field(item, "polarity");
    let polarity = normalize_polarity(raw_polarity.as_str(), condition.as_str(), effect.as_str());
    let raw_confidence = json::fact_field(item, "confidence");
    let confidence = normalize_confidence(raw_confidence.as_str());
    let statement = if text::char_count(given.as_str()) == 0 {
        compose_fact_statement(
            subject.as_str(),
            object.as_str(),
            condition.as_str(),
            effect.as_str(),
            exception.as_str(),
        )
    } else {
        given
    };
    if text::char_count(statement.as_str()) == 0 {
        return None;
    }
    match find_chunk(batch, chunk_id) {
        Some(chunk) => {
            let scope = if text::char_count(scope.as_str()) == 0 {
                fallback_scope(chunk)
            } else {
                scope
            };
            Some(
                ExtractedFact {
                    chunk_id,
                    file_name: chunk.file_name.clone(),
                    path: chunk.path.clone(),
                    heading_path: chunk.heading_path.clone(),
                    char_start: chunk.char_start,
                    char_end: chunk.char_end,
                    statement,
                    scope,
                    subject,
                    object,
                    condition,
                    effect,
                    exception,
                    polarity,
                    quote,
                    confidence,
                },
            )
        },
        None => None,
    }
}

/// The facts of a reply, in order: those that state something and cite a chunk of the batch.
pub fn facts_from_json(reply: &Option<Json>, batch: &[ChunkRecord]) -> (r: Vec<ExtractedFact>)
    ensures
        facts_in(r@) == facts_of(json::listed(*reply, "facts"@), batch@),
{
    let mut out: Vec<ExtractedFact> = Vec::new();
    let ghost items_of = json::listed(*reply, "facts"@);
    assert(facts_in(out@) =~= Seq::<Fact>::empty());
    if let Some(value) = reply {
        if let Some(list) = value.get("facts") {
            if let Some(items) = list.as_array() {
                for i in 0..items.len()
                    invariant
                        facts_in(out@) == facts_of(items@.take(i as int), batch@),
                {
                    let ghost before = facts_in(out@);
                    assert(items@.take(i + 1).drop_last() =~= items@.take(i as int));
                    if let Some(fact) = read_fact(&items[i], batch) {
                        out.push(fact);
                        assert(facts_in(out@) =~= before.push(fact@));
                    }
                }
                assert(items@.take(items@.len() as int) =~= items@);
            }
        }
    }
    out
}

/// The facts of the reply to an extraction.
pub fn facts_from_reply(content: &str, batch: &[ChunkRecord]) -> (r: Vec<ExtractedFact>)
    ensures
        facts_in(r@) == facts_of(json::listed(json::parsed_json(content@), "facts"@), batch@),
{
    let reply = json::parse_json(content);
    facts_from_json(&reply, batch)
}

proof fn lemma_chunk_with(batch: Seq<ChunkRecord>, id: i64)
    ensures
        match chunk_with(batch, id) {
            Some(chunk) => batch.contains(chunk) && chunk.id == id,
            None => true,
        },
    decreases batch.len(),
{
    if batch.len() > 0 && batch[0].id != id {
        lemma_chunk_with(batch.skip(1), id);
        match chunk_with(batch, id) {
            Some(chunk) => {
                let k = choose|k: int| 0 <= k < batch.skip(1).len() && batch.skip(1)[k] == chunk;
                assert(batch[k + 1] == chunk);
            },
            None => {},
        }
    }
}

/// Whether a fact is sound: it states something, has a polarity and a confidence, and cites a chunk
/// of the batch by its true place.
pub open spec fn is_sound(fact: Fact, batch: Seq<ChunkRecord>) -> bool {
    &&& fact.statement.len() > 0
    &&& is_polarity(fact.polarity)
    &&& is_confidence(fact.confidence)
    &&& exists|i: int|
        0 <= i < batch.len() && (#[trigger] batch[i]).id == fact.chunk_id && batch[i].file_name@
            == fact.file_name && batch[i].path@ == fact.path && batch[i].heading_path@
            == fact.heading && batch[i].char_start == fact.start && batch[i].char_end == fact.end
}

/// Every fact that is taken from a reply is sound, whatever the reply says.
pub proof fn law_facts_are_sound(items: Seq<Json>, batch: Seq<ChunkRecord>, k: int)
    requires
        0 <= k < facts_of(items, batch).len(),
    ensures
        is_sound(facts_of(items, batch)[k], batch),
    decreases items.len(),
{
    let before = facts_of(items.drop_last(), batch);
    if k < before.len() {
        law_facts_are_sound(items.drop_last(), batch, k);
    } else {
        let item = items.last();
        let id = field_number(item, "chunk_id"@);
        lemma_chunk_with(batch, id);
        let chunk = chunk_with(batch, id).unwrap();
        let i = choose|i: int| 0 <= i < batch.len() && batch[i] == chunk;
        assert(batch[i].id == id);
    }
}

// ---------------------------------------------------------------------------------------------
// Reduction

/// The most facts that an answer is made of.
pub const MAX_REDUCED_FACTS: usize = 120;

/// The facts that a list of numbers picks, numbered from one. Zero picks the first fact too; what is no
/// number, or a number beyond the last fact, picks none.
pub open spec fn picked<T>(indexes: Seq<Json>, facts: Seq<T>) -> Seq<T>
    decreases indexes.len(),
{
    if indexes.len() == 0 {
        Seq::empty()
    } else {
        let before = picked(indexes.drop_last(), facts);
        match indexes.last().natural() {
            Some(n) => {
                let place = if n == 0 {
                    0
                } else {
                    n - 1
                };
                if place < facts.len() {
                    before.push(facts[place as int])
                } else {
                    before
                }
            },
            None => before,
        }
    }
}

/// The facts that are kept: all of them if they are few; otherwise those that the reply picks or, if
/// it picks none, the first ones, up to the limit.
pub open spec fn reduced<T>(facts: Seq<T>, reply: Option<Json>) -> Seq<T> {
    if facts.len() <= MAX_REDUCED_FACTS {
        facts
    } else {
        let chosen = picked(json::listed(reply, "keep_indexes"@), facts);
        text::first_items(
            if chosen.len() == 0 {
                facts
            } else {
                chosen
            },
            MAX_REDUCED_FACTS as nat,
        )
    }
}

fn pick(indexes: &Vec<Json>, facts: &Vec<ExtractedFact>) -> (r: Vec<ExtractedFact>)
    ensures
        r@ == picked(indexes@, facts@),
{
    let mut out: Vec<ExtractedFact> = Vec::new();
    for i in 0..indexes.len()
        invariant
            out@ == picked(indexes@.take(i as int), facts@),
    {
        assert(indexes@.take(i + 1).drop_last() =~= indexes@.take(i as int));
        if let Some(n) = indexes[i].as_u64() {
            let place = if n == 0 {
                0
            } else {
                n - 1
            };
            if place < facts.len() as u64 {
                out.push(facts[place as usize].clone());
            }
        }
    }
    assert(indexes@.take(indexes@.len() as int) =~= indexes@);
    out
}

fn copy_first(facts: &Vec<ExtractedFact>, n: usize) -> (r: Vec<ExtractedFact>)
    ensures
        r@ == text::first_items(facts@, n as nat),
{
    let count = if n < facts.len() {
        n
    } else {
        facts.len()
    };
    let mut out: Vec<ExtractedFact> = Vec::new();
    for i in 0..count
        invariant
            count <= facts@.len(),
            out@ == facts@.take(i as int),
    {
        out.push(facts[i].clone());
        assert(facts@.take(i + 1) =~= facts@.take(i as int).push(facts@[i as int]));
    }
    assert(count == facts@.len() ==> facts@.take(count as int) =~= facts@);
    out
}

/// Whether there are more facts than an answer is made of.
pub fn needs_reduction(facts: &Vec<ExtractedFact>) -> (r: bool)
    ensures
        r == (facts@.len() > MAX_REDUCED_FACTS),
{
    facts.len() > MAX_REDUCED_FACTS
}

/// The facts that are kept after a reduction.
pub fn reduce_with_json(facts: &Vec<ExtractedFact>, reply: &Option<Json>) -> (r: Vec<ExtractedFact>)
    ensures
        r@ == reduced(facts@, *reply),
{
    if !needs_reduction(facts) {
        return copy_first(facts, facts.len());
    }
    let mut chosen: Vec<ExtractedFact> = Vec::new();
    if let Some(value) = reply {
        if let Some(list) = value.get("keep_indexes") {
            if let Some(indexes) = list.as_array() {
                chosen = pick(indexes, facts);
            }
        }
    }
    assert(chosen@ =~= picked(json::listed(*reply, "keep_indexes"@), facts@));
    if chosen.len() == 0 {
        copy_first(facts, MAX_REDUCED_FACTS)
    } else {
        copy_first(&chosen, MAX_REDUCED_FACTS)
    }
}

/// The facts that are kept after the reply to a reduction.
pub fn reduce_facts(facts: &Vec<ExtractedFact>, content: &str) -> (r: Vec<ExtractedFact>)
    ensures
        r@ == reduced(facts@, json::parsed_json(content@)),
{
    let reply = json::parse_json(content);
    reduce_with_json(facts, &reply)
}

proof fn lemma_picked<T>(indexes: Seq<Json>, facts: Seq<T>, k: int)
    requires
        0 <= k < picked(indexes, facts).len(),
    ensures
        facts.contains(picked(indexes, facts)[k]),
    decreases indexes.len(),
{
    let before = picked(indexes.drop_last(), facts);
    if k < before.len() {
        lemma_picked(indexes.drop_last(), facts, k);
    }
}

/// A reduction keeps at most as many facts as an answer is made of, invents none, and keeps some
/// where there are some.
pub proof fn law_reduction<T>(facts: Seq<T>, reply: Option<Json>)
    ensures
        reduced(facts, reply).len() <= MAX_REDUCED_FACTS,
        forall|k: int|
            0 <= k < reduced(facts, reply).len() ==> facts.contains(
                #[trigger] reduced(facts, reply)[k],
            ),
        facts.len() > 0 ==> reduced(facts, reply).len() > 0,
{
    let kept = reduced(facts, reply);
    let chosen = picked(json::listed(reply, "keep_indexes"@), facts);
    assert forall|k: int| 0 <= k < kept.len() implies facts.contains(#[trigger] kept[k]) by {
        if facts.len() <= MAX_REDUCED_FACTS || chosen.len() == 0 {
            assert(facts[k] == kept[k]);
        } else {
            lemma_picked(json::listed(reply, "keep_indexes"@), facts, k);
        }
    }
}

proof fn lemma_picked_contents(indexes: Seq<Json>, facts: Seq<ExtractedFact>)
    ensures
        facts_in(picked(indexes, facts)) == picked(indexes, facts_in(facts)),
    decreases indexes.len(),
{
    if indexes.len() > 0 {
        lemma_picked_contents(indexes.drop_last(), facts);
    }
    assert(facts_in(picked(indexes, facts)) =~= picked(indexes, facts_in(facts)));
}

/// A reduction goes by the places of the facts alone.
pub proof fn lemma_reduced_contents(facts: Seq<ExtractedFact>, reply: Option<Json>)
    ensures
        facts_in(reduced(facts, reply)) == reduced(facts_in(facts), reply),
{
    let indexes = json::listed(reply, "keep_indexes"@);
    lemma_picked_contents(indexes, facts);
    assert(picked(indexes, facts).len() == picked(indexes, facts_in(facts)).len());
    assert(facts_in(reduced(facts, reply)) =~= reduced(facts_in(facts), reply));
}

// ---------------------------------------------------------------------------------------------
// What facts say

/// Whether a value is the text of a field of an item without the white space around it, and empty
/// where the item has no such text.
pub open spec fn says(item: Json, key: Text, value: Text) -> bool {
    match item.field(key) {
        Some(found) => match found.text() {
            Some(s) => value == text::trimmed(s),
            None => value.len() == 0,
        },
        None => value.len() == 0,
    }
}

/// Whether a fact says what an item of a reply says, field by field.
pub open spec fn repeats(item: Json, fact: Fact) -> bool {
    &&& says(item, "subject"@, fact.subject)
    &&& says(item, "object"@, fact.object)
    &&& says(item, "condition"@, fact.condition)
    &&& says(item, "effect"@, fact.effect)
    &&& says(item, "exception"@, fact.exception)
    &&& says(item, "quote"@, fact.quote)
    &&& match item.field("chunk_id"@) {
        Some(found) => match found.integer() {
            Some(n) => fact.chunk_id == n,
            None => fact.chunk_id == 0,
        },
        None => fact.chunk_id == 0,
    }
    &&& says(item, "statement"@, fact.statement) || {
        &&& says(item, "statement"@, Seq::empty())
        &&& fact.subject.len() > 0 ==> text::occurs_in("subject="@ + fact.subject, fact.statement)
        &&& fact.object.len() > 0 ==> text::occurs_in("object="@ + fact.object, fact.statement)
        &&& fact.condition.len() > 0 ==> text::occurs_in(
            "condition="@ + fact.condition,
            fact.statement,
        )
        &&& fact.effect.len() > 0 ==> text::occurs_in("effect="@ + fact.effect, fact.statement)
        &&& fact.exception.len() > 0 ==> text::occurs_in(
            "exception="@ + fact.exception,
            fact.statement,
        )
    }
    &&& says(item, "scope"@, fact.scope) || {
        &&& says(item, "scope"@, Seq::empty())
        &&& text::is_blank(fact.heading) ==> fact.scope == fact.file_name
        &&& !text::is_blank(fact.heading) ==> fact.scope == fact.file_name + " / "@ + fact.heading
    }
    &&& says(item, "polarity"@, "positive"@) ==> fact.polarity == "positive"@
    &&& says(item, "polarity"@, "negative"@) ==> fact.polarity == "negative"@
    &&& says(item, "polarity"@, "conditional"@) ==> fact.polarity == "conditional"@
    &&& says(item, "polarity"@, Seq::empty()) ==> {
        &&& fact.polarity == "conditional"@ <==> fact.condition.len() > 0
        &&& fact.polarity == "negative"@ <==> fact.condition.len() == 0 && (text::occurs_in(
            "ない"@,
            fact.effect,
        ) || text::occurs_in("対象外"@, fact.effect) || text::occurs_in("除く"@, fact.effect)
            || text::occurs_in("禁止"@, fact.effect))
    }
    &&& says(item, "confidence"@, "high"@) ==> fact.confidence == "high"@
    &&& says(item, "confidence"@, "medium"@) ==> fact.confidence == "medium"@
    &&& says(item, "confidence"@, "low"@) ==> fact.confidence == "low"@
    &&& says(item, "confidence"@, Seq::empty()) ==> fact.confidence == "medium"@
}

/// Whether an item of a reply states nothing at all.
pub open spec fn is_silent(item: Json) -> bool {
    &&& says(item, "statement"@, Seq::empty())
    &&& says(item, "subject"@, Seq::empty())
    &&& says(item, "object"@, Seq::empty())
    &&& says(item, "condition"@, Seq::empty())
    &&& says(item, "effect"@, Seq::empty())
    &&& says(item, "exception"@, Seq::empty())
}

/// Whether an item of a reply cites a chunk that was not read.
pub open spec fn cites_nothing(item: Json, batch: Seq<ChunkRecord>) -> bool {
    forall|i: int|
        0 <= i < batch.len() ==> match item.field("chunk_id"@) {
            Some(found) => match found.integer() {
                Some(n) => (#[trigger] batch[i]).id != n,
                None => batch[i].id != 0,
            },
            None => batch[i].id != 0,
        }
}

proof fn lemma_no_chunk_with(batch: Seq<ChunkRecord>, id: i64)
    requires
        chunk_with(batch, id) is None,
    ensures
        forall|i: int| 0 <= i < batch.len() ==> (#[trigger] batch[i]).id != id,
    decreases batch.len(),
{
    if batch.len() > 0 {
        lemma_no_chunk_with(batch.skip(1), id);
        assert forall|i: int| 0 <= i < batch.len() implies (#[trigger] batch[i]).id != id by {
            if i > 0 {
                assert(batch[i] == batch.skip(1)[i - 1]);
            }
        }
    }
}

proof fn lemma_part(label: Text, value: Text)
    requires
        text::trimmed(value) == value,
    ensures
        statement_part(label, value) == if value.len() == 0 {
            Seq::empty()
        } else {
            seq![label + value]
        },
{
    if value.len() > 0 {
        text::lemma_trimmed_ends(value);
        assert(!text::is_blank(value));
    }
}

/// A statement made of fields holds each field that says something, behind its name, and nothing is
/// stated where all fields are empty.
pub proof fn law_composed_statement(
    subject: Text,
    object: Text,
    condition: Text,
    effect: Text,
    exception: Text,
)
    requires
        text::trimmed(subject) == subject,
        text::trimmed(object) == object,
        text::trimmed(condition) == condition,
        text::trimmed(effect) == effect,
        text::trimmed(exception) == exception,
    ensures
        ({
            let statement = composed_statement(subject, object, condition, effect, exception);
            &&& subject.len() > 0 ==> text::occurs_in("subject="@ + subject, statement)
            &&& object.len() > 0 ==> text::occurs_in("object="@ + object, statement)
            &&& condition.len() > 0 ==> text::occurs_in("condition="@ + condition, statement)
            &&& effect.len() > 0 ==> text::occurs_in("effect="@ + effect, statement)
            &&& exception.len() > 0 ==> text::occurs_in("exception="@ + exception, statement)
            &&& statement.len() == 0 <==> subject.len() == 0 && object.len() == 0
                && condition.len() == 0 && effect.len() == 0 && exception.len() == 0
        }),
{
    lemma_part("subject="@, subject);
    lemma_part("object="@, object);
    lemma_part("condition="@, condition);
    lemma_part("effect="@, effect);
    lemma_part("exception="@, exception);
    let a = statement_part("subject="@, subject);
    let b = statement_part("object="@, object);
    let c = statement_part("condition="@, condition);
    let d = statement_part("effect="@, effect);
    let e = statement_part("exception="@, exception);
    let parts = a + b + c + d + e;
    let n = a.len() as int;
    let m = (n + b.len()) as int;
    let o = (m + c.len()) as int;
    let p = (o + d.len()) as int;
    if subject.len() > 0 {
        assert(parts[0] == a[0]);
        text::lemma_joined_contains(parts, " / "@, "subject="@ + subject);
    }
    if object.len() > 0 {
        assert(parts[n] == b[0]);
        text::lemma_joined_contains(parts, " / "@, "object="@ + object);
    }
    if condition.len() > 0 {
        assert(parts[m] == c[0]);
        text::lemma_joined_contains(parts, " / "@, "condition="@ + condition);
    }
    if effect.len() > 0 {
        assert(parts[o] == d[0]);
        text::lemma_joined_contains(parts, " / "@, "effect="@ + effect);
    }
    if exception.len() > 0 {
        assert(parts[p] == e[0]);
        text::lemma_joined_contains(parts, " / "@, "exception="@ + exception);
    }
}

proof fn lemma_field_trimmed(item: Json, key: Text)
    ensures
        text::trimmed(json::field_text(item, key)) == json::field_text(item, key),
        says(item, key, json::field_text(item, key)),
        json::field_text(item, key).len() == 0 ==> says(item, key, Seq::empty()),
{
    let none: Text = Seq::empty();
    assert(json::field_text(item, key).len() == 0 ==> json::field_text(item, key) =~= none);
    match item.field(key) {
        Some(value) => match value.text() {
            Some(s) => {
                text::lemma_trimmed_twice(s);
            },
            None => {},
        },
        None => {},
    }
}

proof fn lemma_small_word(s: Text)
    requires
        forall|i: int| 0 <= i < s.len() ==> 'a' <= #[trigger] s[i] <= 'z',
        s.len() > 0,
    ensures
        text::lower_ascii(text::trimmed(s)) == s,
{
    assert(!text::is_white_space(s[0]));
    assert(!text::is_white_space(s.last()));
    text::lemma_trimmed_by_ends(s);
    assert(text::lower_ascii(s) =~= s);
}

proof fn lemma_words()
    ensures
        text::lower_ascii(text::trimmed("positive"@)) == "positive"@,
        text::lower_ascii(text::trimmed("negative"@)) == "negative"@,
        text::lower_ascii(text::trimmed("conditional"@)) == "conditional"@,
        text::lower_ascii(text::trimmed("high"@)) == "high"@,
        text::lower_ascii(text::trimmed("medium"@)) == "medium"@,
        text::lower_ascii(text::trimmed("low"@)) == "low"@,
        "positive"@ != "negative"@,
        "positive"@ != "conditional"@,
        "negative"@ != "conditional"@,
        forall|s: Text| #[trigger] is_polarity(s) ==> s.len() > 0,
        forall|s: Text| #[trigger] is_confidence(s) ==> s.len() > 0,
{
    reveal_strlit("positive");
    reveal_strlit("negative");
    reveal_strlit("conditional");
    reveal_strlit("high");
    reveal_strlit("medium");
    reveal_strlit("low");
    lemma_small_word("positive"@);
    lemma_small_word("negative"@);
    lemma_small_word("conditional"@);
    lemma_small_word("high"@);
    lemma_small_word("medium"@);
    lemma_small_word("low"@);
    assert("positive"@[0] == 'p' && "negative"@[0] == 'n' && "conditional"@[0] == 'c');
}

#[verifier::rlimit(40)]
proof fn lemma_fact_repeats(item: Json, batch: Seq<ChunkRecord>)
    ensures
        match fact_of(item, batch) {
            Some(fact) => repeats(item, fact),
            None => is_silent(item) || cites_nothing(item, batch),
        },
{
    lemma_words();
    lemma_field_trimmed(item, "statement"@);
    lemma_field_trimmed(item, "scope"@);
    lemma_field_trimmed(item, "subject"@);
    lemma_field_trimmed(item, "object"@);
    lemma_field_trimmed(item, "condition"@);
    lemma_field_trimmed(item, "effect"@);
    lemma_field_trimmed(item, "exception"@);
    let condition = json::field_text(item, "condition"@);
    law_composed_statement(
        json::field_text(item, "subject"@),
        json::field_text(item, "object"@),
        condition,
        json::field_text(item, "effect"@),
        json::field_text(item, "exception"@),
    );
    if condition.len() > 0 {
        text::lemma_trimmed_ends(condition);
        assert(!text::is_blank(condition));
    }
    let none: Text = Seq::empty();
    assert(text::lower_ascii(text::trimmed(none)) =~= none);
    let raw = json::field_text(item, "polarity"@);
    let sure = json::field_text(item, "confidence"@);
    assert(raw.len() == 0 ==> raw =~= none);
    assert(sure.len() == 0 ==> sure =~= none);
    match fact_of(item, batch) {
        Some(fact) => {
            assert(is_polarity("positive"@) && is_polarity("negative"@) && is_polarity(
                "conditional"@,
            ));
            assert(is_confidence("high"@) && is_confidence("medium"@) && is_confidence("low"@));
            assert(fact.condition.len() == 0 ==> text::is_blank(fact.condition));
        },
        None => {
            if statement_of(item).len() > 0 {
                lemma_no_chunk_with(batch, field_number(item, "chunk_id"@));
            }
        },
    }
}

/// Every fact of a reply repeats an item of the reply: each of its fields is the text of the item's
/// field of the same name. The facts follow the order of the items, no two come from one item, and an
/// item makes no fact only where it states nothing or cites no chunk of the batch.
pub proof fn law_facts_repeat_items(items: Seq<Json>, batch: Seq<ChunkRecord>) -> (from: Seq<int>)
    ensures
        from.len() == facts_of(items, batch).len(),
        forall|k: int|
            0 <= k < from.len() ==> 0 <= #[trigger] from[k] < items.len() && repeats(
                items[from[k]],
                facts_of(items, batch)[k],
            ),
        forall|k: int, l: int| 0 <= k < l < from.len() ==> from[k] < from[l],
        forall|j: int|
            0 <= j < items.len() && !from.contains(j) ==> is_silent(#[trigger] items[j])
                || cites_nothing(items[j], batch),
    decreases items.len(),
{
    if items.len() == 0 {
        Seq::empty()
    } else {
        let front = items.drop_last();
        let n = items.len() - 1;
        let before = law_facts_repeat_items(front, batch);
        let facts = facts_of(items, batch);
        let item = items.last();
        lemma_fact_repeats(item, batch);
        let from = match fact_of(item, batch) {
            Some(_) => before.push(n),
            None => before,
        };
        assert forall|k: int| 0 <= k < from.len() implies 0 <= #[trigger] from[k] < items.len()
            && repeats(items[from[k]], facts[k]) by {
            if k < before.len() {
                assert(from[k] == before[k]);
                assert(front[before[k]] == items[before[k]]);
                assert(facts[k] == facts_of(front, batch)[k]);
            }
        }
        assert forall|k: int, l: int| 0 <= k < l < from.len() implies from[k] < from[l] by {
            assert(from[k] == before[k]);
            assert(0 <= before[k] < front.len());
        }
        assert forall|j: int| 0 <= j < items.len() && !from.contains(j) implies is_silent(
            #[trigger] items[j],
        ) || cites_nothing(items[j], batch) by {
            if j < n {
                assert(front[j] == items[j]);
                if before.contains(j) {
                    let k = choose|k: int| 0 <= k < before.len() && before[k] == j;
                    assert(from[k] == j);
                }
            } else if fact_of(item, batch) is Some {
                assert(from[before.len() as int] == n);
            }
        }
        from
    }
}

/// A fact that is shown under a number shows that number, where it comes from, and each of its fields
/// behind the field's name and before the name of the next.
pub proof fn law_block_shows_fact(index: nat, fact: Fact)
    ensures
        ({
            let block = fact_block(index, fact);
            &&& text::occurs_at("[F"@ + text::decimal(index) + "] file="@, block, 0)
            &&& text::occurs_in("] file="@ + fact.file_name + " chunk="@, block)
            &&& text::occurs_in(
                " chunk="@ + text::signed_decimal(fact.chunk_id as int) + " chars="@,
                block,
            )
            &&& text::occurs_in(" chars="@ + text::signed_decimal(fact.start as int) + "-"@, block)
            &&& text::occurs_in("-"@ + text::signed_decimal(fact.end as int) + " heading="@, block)
            &&& text::occurs_in(" heading="@ + fact.heading + "\nscope: "@, block)
            &&& text::occurs_in("\nscope: "@ + fact.scope + "\nsubject: "@, block)
            &&& text::occurs_in("\nsubject: "@ + fact.subject + "\nobject: "@, block)
            &&& text::occurs_in("\nobject: "@ + fact.object + "\ncondition: "@, block)
            &&& text::occurs_in("\ncondition: "@ + fact.condition + "\neffect: "@, block)
            &&& text::occurs_in("\neffect: "@ + fact.effect + "\nexception: "@, block)
            &&& text::occurs_in("\nexception: "@ + fact.exception + "\npolarity: "@, block)
            &&& text::occurs_in("\npolarity: "@ + fact.polarity + "\nconfidence: "@, block)
            &&& text::occurs_in("\nconfidence: "@ + fact.confidence + "\nstatement: "@, block)
            &&& text::occurs_in("\nstatement: "@ + fact.statement + "\nquote: "@, block)
            &&& text::occurs_in("\nquote: "@ + fact.quote + "\n\n"@, block)
        }),
{
    let parts = seq![
        "[F"@,
        text::decimal(index),
        "] file="@,
        fact.file_name,
        " chunk="@,
        text::signed_decimal(fact.chunk_id as int),
        " chars="@,
        text::signed_decimal(fact.start as int),
        "-"@,
        text::signed_decimal(fact.end as int),
        " heading="@,
        fact.heading,
        "\nscope: "@,
        fact.scope,
        "\nsubject: "@,
        fact.subject,
        "\nobject: "@,
        fact.object,
        "\ncondition: "@,
        fact.condition,
        "\neffect: "@,
        fact.effect,
        "\nexception: "@,
        fact.exception,
        "\npolarity: "@,
        fact.polarity,
        "\nconfidence: "@,
        fact.confidence,
        "\nstatement: "@,
        fact.statement,
        "\nquote: "@,
        fact.quote,
        "\n\n"@,
    ];
    text::lemma_concat_begins(parts);
    text::lemma_concat_holds_three(parts, 2);
    text::lemma_concat_holds_three(parts, 4);
    text::lemma_concat_holds_three(parts, 6);
    text::lemma_concat_holds_three(parts, 8);
    text::lemma_concat_holds_three(parts, 10);
    text::lemma_concat_holds_three(parts, 12);
    text::lemma_concat_holds_three(parts, 14);
    text::lemma_concat_holds_three(parts, 16);
    text::lemma_concat_holds_three(parts, 18);
    text::lemma_concat_holds_three(parts, 20);
    text::lemma_concat_holds_three(parts, 22);
    text::lemma_concat_holds_three(parts, 24);
    text::lemma_concat_holds_three(parts, 26);
    text::lemma_concat_holds_three(parts, 28);
    text::lemma_concat_holds_three(parts, 30);
}

/// All facts are shown, each under its number, counted from one.
pub proof fn law_blocks_show_facts(facts: Seq<Fact>, i: int)
    requires
        0 <= i < facts.len(),
    ensures
        text::occurs_in(fact_block((i + 1) as nat, facts[i]), fact_blocks(facts)),
{
    let blocks = Seq::new(facts.len(), |k: int| fact_block((k + 1) as nat, facts[k]));
    text::lemma_concat_holds(blocks, i);
}

proof fn lemma_picked_at<T>(indexes: Seq<Json>, facts: Seq<T>, i: int)
    requires
        0 <= i < indexes.len(),
        match indexes[i].natural() {
            Some(n) => 1 <= n <= facts.len(),
            None => false,
        },
    ensures
        picked(indexes, facts).contains(facts[indexes[i].natural().unwrap() - 1]),
    decreases indexes.len(),
{
    let front = indexes.drop_last();
    let before = picked(front, facts);
    let all = picked(indexes, facts);
    let x = facts[indexes[i].natural().unwrap() - 1];
    if i < indexes.len() - 1 {
        lemma_picked_at(front, facts, i);
        let k = choose|k: int| 0 <= k < before.len() && before[k] == x;
        assert(all[k] == x);
    } else {
        assert(all[before.len() as int] == x);
    }
}

/// A reduction keeps the fact of every number that the reply names, as far as it names no more than
/// can be kept; and where all facts can be kept, it keeps them all in order.
pub proof fn law_reduction_keeps_named<T>(facts: Seq<T>, reply: Json, i: int)
    requires
        match reply.field("keep_indexes"@) {
            Some(list) => match list.items() {
                Some(items) => 0 <= i < items.len() <= 120 && match items[i].natural() {
                    Some(n) => 1 <= n <= facts.len(),
                    None => false,
                },
                None => false,
            },
            None => false,
        },
    ensures
        reduced(facts, Some(reply)).contains(
            facts[reply.field("keep_indexes"@).unwrap().items().unwrap()[i].natural().unwrap() - 1],
        ),
        facts.len() <= 120 ==> reduced(facts, Some(reply)) == facts,
{
    let items = reply.field("keep_indexes"@).unwrap().items().unwrap();
    let x = facts[items[i].natural().unwrap() - 1];
    if facts.len() <= 120 {
        assert(facts.contains(x));
    } else {
        lemma_picked_at(items, facts, i);
        lemma_picked_len(items, facts);
        let chosen = picked(items, facts);
        assert(text::first_items(chosen, 120) =~= chosen);
    }
}

proof fn lemma_picked_len<T>(indexes: Seq<Json>, facts: Seq<T>)
    ensures
        picked(indexes, facts).len() <= indexes.len(),
    decreases indexes.len(),
{
    if indexes.len() > 0 {
        lemma_picked_len(indexes.drop_last(), facts);
    }
}

/// Where the reply to a reduction names no number, the first facts are kept.
pub proof fn law_reduction_without_numbers<T>(facts: Seq<T>, k: int)
    requires
        0 <= k < facts.len(),
        k < 120,
    ensures
        k < reduced(facts, None).len(),
        reduced(facts, None)[k] == facts[k],
        reduced(facts, None).len() <= 120,
{
    assert(picked(json::listed(None, "keep_indexes"@), facts) =~= Seq::<T>::empty());
}

/// A fact cites the first chunk of the batch with its number.
pub proof fn law_first_chunk(batch: Seq<ChunkRecord>, i: int)
    requires
        0 <= i < batch.len(),
        forall|k: int| 0 <= k < i ==> (#[trigger] batch[k]).id != batch[i].id,
    ensures
        chunk_with(batch, batch[i].id) == Some(batch[i]),
    decreases batch.len(),
{
    if i > 0 {
        let rest = batch.skip(1);
        assert(batch[0].id != batch[i].id);
        assert(rest[i - 1] == batch[i]);
        assert forall|k: int| 0 <= k < i - 1 implies (#[trigger] rest[k]).id != rest[i - 1].id by {
            assert(rest[k] == batch[k + 1]);
        }
        law_first_chunk(rest, i - 1);
    }
}

/// A polarity and a confidence that are given are taken as they are, in capital letters or small ones
/// and with white space around them or not.
pub proof fn law_given_words(raw: Text, condition: Text, effect: Text)
    ensures
        text::lower_ascii(text::trimmed(raw)) == "positive"@ ==> polarity_of(raw, condition, effect)
            == "positive"@,
        text::lower_ascii(text::trimmed(raw)) == "negative"@ ==> polarity_of(raw, condition, effect)
            == "negative"@,
        text::lower_ascii(text::trimmed(raw)) == "conditional"@ ==> polarity_of(raw, condition, effect)
            == "conditional"@,
        text::lower_ascii(text::trimmed(raw)) == "high"@ ==> confidence_of(raw) == "high"@,
        text::lower_ascii(text::trimmed(raw)) == "medium"@ ==> confidence_of(raw) == "medium"@,
        text::lower_ascii(text::trimmed(raw)) == "low"@ ==> confidence_of(raw) == "low"@,
        is_polarity(polarity_of(raw, condition, effect)),
        is_confidence(confidence_of(raw)),
{
}

} // verus!
