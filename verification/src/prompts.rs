//! What the language model is asked: the messages of every request.

use vstd::prelude::*;
use vstd::string::*;

use crate::context;
use crate::facts;
use crate::facts::{ExtractedFact, Fact};
use crate::listing;
use crate::profile::QuestionProfile;
use crate::ranking;
use crate::records::{ChunkRecord, Document, HierarchyContext, SearchHit, Section};
use crate::text;
use crate::text::Text;

verus! {

// ---------------------------------------------------------------------------------------------
// Messages

/// A message to the language model.
pub struct Message {
    pub role: String,
    pub content: String,
}

/// The roles and contents of some messages.
pub open spec fn said(messages: Seq<Message>) -> Seq<(Text, Text)> {
    Seq::new(messages.len(), |i: int| (messages[i].role@, messages[i].content@))
}

/// An instruction and what it is to be applied to.
pub open spec fn dialogue(instruction: Text, input: Text) -> Seq<(Text, Text)> {
    seq![("system"@, instruction), ("user"@, input)]
}

fn make_dialogue(instruction: &str, input: String) -> (r: Vec<Message>)
    ensures
        said(r@) == dialogue(instruction@, input@),
{
    let mut out: Vec<Message> = Vec::new();
    out.push(Message { role: text::copy_text("system"), content: text::copy_text(instruction) });
    out.push(Message { role: text::copy_text("user"), content: input });
    assert(said(out@) =~= dialogue(instruction@, input@));
    out
}

/// A truth value as a word.
pub open spec fn truth_word(b: bool) -> Text {
    if b {
        "true"@
    } else {
        "false"@
    }
}

fn word_of(b: bool) -> (r: &'static str)
    ensures
        r@ == truth_word(b),
{
    if b {
        "true"
    } else {
        "false"
    }
}

/// How many lower concepts a request names.
pub const NAMED_CONCEPTS: usize = 80;

/// The lower concepts of a question as a request names them.
pub open spec fn concept_names(lower: Seq<Text>) -> Text {
    if lower.len() == 0 {
        "なし"@
    } else {
        text::joined(text::first_items(lower, NAMED_CONCEPTS as nat), ", "@)
    }
}

fn name_concepts(lower: &Vec<String>) -> (r: String)
    ensures
        r@ == concept_names(text::texts(lower@)),
{
    if lower.len() == 0 {
        text::copy_text("なし")
    } else {
        text::join_first(lower, NAMED_CONCEPTS, ", ")
    }
}

// ---------------------------------------------------------------------------------------------
// The profile of a question

/// What to do with a question.
pub const PROFILE_SYSTEM: &'static str = "質問から、ローカル文書検索に使う日本語検索語、同義語、表記揺れ、回答観点をJSONだけで返してください。source外の事実を作らないでください。質問が「どうなっていますか」「一覧」「全体」「まとめ」のように広い場合は is_broad を true にしてください。形式: {\"terms\":[\"...\"],\"aspects\":[\"...\"],\"is_broad\":true|false}";

/// Asks what a question asks for.
pub fn profile_messages(question: &str) -> (r: Vec<Message>)
    ensures
        said(r@) == dialogue(PROFILE_SYSTEM@, question@),
{
    make_dialogue(PROFILE_SYSTEM, text::copy_text(question))
}

// ---------------------------------------------------------------------------------------------
// Extraction of facts

/// How facts are extracted.
pub const EXTRACTION_SYSTEM: &'static str = "あなたは文書監査用の抽出器です。質問へ直接答えるために必要な事実だけをSOURCEから抽出してください。SOURCEにない推測は禁止です。特に scope, subject, object, condition, effect の関係を崩さず抽出してください。条件、例外、対象、手続き、金額、期間、判断基準を優先してください。広い質問の場合は、提示されたsource由来の下位概念に関する事実も漏らさず抽出してください。JSONだけで返してください。形式: {\"facts\":[{\"chunk_id\":123,\"statement\":\"...\",\"scope\":\"文書名/章/条/制度など\",\"subject\":\"誰・何についてか\",\"object\":\"対象制度・手当・行為など\",\"condition\":\"成立条件・対象条件・除外条件\",\"effect\":\"支給/控除/必要/禁止などの効果\",\"exception\":\"例外。なければ空文字\",\"polarity\":\"positive|negative|conditional\",\"quote\":\"SOURCE中の短い根拠引用\",\"confidence\":\"high|medium|low\"}]}";

/// The rules of the extraction.
pub const EXTRACTION_NOTES: &'static str = "\n\n抽出ルール:\n- source外の一般知識は使わない\n- condition がある effect は、必ず condition と結び付けて抽出する\n- subject/object/scope を広げない\n- 否定、対象外、ただし書きは polarity または exception に残す\n- PARENT_CONTEXT はSOURCEチャンクの親セクション・文書・全体文脈です。条件や例外を切り落とさないために使ってよいが、quote はSOURCE内から取る\n- 質問範囲外の不足情報は抽出しない\n\nPARENT_CONTEXT:\n";

/// A chunk as the language model reads it.
pub open spec fn chunk_block(chunk: ChunkRecord) -> Text {
    text::concat(
        seq![
            "\n[C"@,
            text::signed_decimal(chunk.id as int),
            "] file="@,
            chunk.file_name@,
            " chars="@,
            text::signed_decimal(chunk.char_start as int),
            "-"@,
            text::signed_decimal(chunk.char_end as int),
            " heading="@,
            chunk.heading_path@,
            "\n"@,
            chunk.content@,
            "\n"@,
        ],
    )
}

/// Chunks as the language model reads them.
pub open spec fn chunk_blocks(batch: Seq<ChunkRecord>) -> Text {
    text::concat(Seq::new(batch.len(), |i: int| chunk_block(batch[i])))
}

fn write_chunk(chunk: &ChunkRecord) -> (r: String)
    ensures
        r@ == chunk_block(*chunk),
{
    let id = text::signed_text(chunk.id);
    let start = text::signed_text(chunk.char_start);
    let end = text::signed_text(chunk.char_end);
    let parts: Vec<&str> = vec![
        "\n[C",
        id.as_str(),
        "] file=",
        chunk.file_name.as_str(),
        " chars=",
        start.as_str(),
        "-",
        end.as_str(),
        " heading=",
        chunk.heading_path.as_str(),
        "\n",
        chunk.content.as_str(),
        "\n",
    ];
    assert(text::views(parts@) =~= seq![
        "\n[C"@,
        text::signed_decimal(chunk.id as int),
        "] file="@,
        chunk.file_name@,
        " chars="@,
        text::signed_decimal(chunk.char_start as int),
        "-"@,
        text::signed_decimal(chunk.char_end as int),
        " heading="@,
        chunk.heading_path@,
        "\n"@,
        chunk.content@,
        "\n"@,
    ]);
    text::concat_all(&parts)
}

fn write_chunks(batch: &[ChunkRecord]) -> (r: String)
    ensures
        r@ == chunk_blocks(batch@),
{
    let ghost blocks = Seq::new(batch@.len(), |i: int| chunk_block(batch@[i]));
    let mut out = String::new();
    for i in 0..batch.len()
        invariant
            blocks == Seq::new(batch@.len(), |i: int| chunk_block(batch@[i])),
            out@ == text::concat(blocks.take(i as int)),
    {
        let block = write_chunk(&batch[i]);
        out.append(block.as_str());
        assert(blocks.take(i + 1).drop_last() =~= blocks.take(i as int));
        assert(blocks.take(i + 1).last() == block@);
    }
    assert(blocks.take(blocks.len() as int) =~= blocks);
    out
}

/// The context above a batch of chunks.
pub open spec fn parents(batch: Seq<ChunkRecord>, hierarchy: HierarchyContext) -> Text {
    context::batch_context(
        batch,
        text::texts(hierarchy.corpus_concepts@),
        ranking::views(hierarchy.documents@),
        ranking::views(hierarchy.sections@),
    )
}

/// What facts are extracted from: the question, what it asks for, and the chunks with what stands above them.
pub open spec fn extraction_input(
    question: Text,
    profile: QuestionProfile,
    hierarchy: HierarchyContext,
    batch: Seq<ChunkRecord>,
) -> Text {
    text::concat(
        seq![
            "質問:\n"@,
            question,
            "\n\n広い質問か:\n"@,
            truth_word(profile.is_broad),
            "\n\n検索観点:\n"@,
            text::joined(listing::cleaned(profile.wanted()), ", "@),
            "\n\nsource由来の下位概念候補:\n"@,
            concept_names(text::texts(profile.lower_concepts@)),
            EXTRACTION_NOTES@,
            parents(batch, hierarchy),
            "\n\nSOURCE:\n"@,
            chunk_blocks(batch),
        ],
    )
}

/// Asks for the facts of a batch of chunks.
pub fn extraction_messages(
    question: &str,
    profile: &QuestionProfile,
    hierarchy: &HierarchyContext,
    batch: &[ChunkRecord],
) -> (r: Vec<Message>)
    ensures
        said(r@) == dialogue(EXTRACTION_SYSTEM@, extraction_input(question@, *profile, *hierarchy, batch@)),
{
    let source = write_chunks(batch);
    let terms = text::join(&profile.search_terms(), ", ");
    let lower = name_concepts(&profile.lower_concepts);
    let above = context::build_batch_hierarchy_context(batch, hierarchy);
    let parts: Vec<&str> = vec![
        "質問:\n",
        question,
        "\n\n広い質問か:\n",
        word_of(profile.is_broad),
        "\n\n検索観点:\n",
        terms.as_str(),
        "\n\nsource由来の下位概念候補:\n",
        lower.as_str(),
        EXTRACTION_NOTES,
        above.as_str(),
        "\n\nSOURCE:\n",
        source.as_str(),
    ];
    let input = text::concat_all(&parts);
    assert(input@ == extraction_input(question@, *profile, *hierarchy, batch@)) by {
        assert(text::views(parts@) =~= seq![
            "質問:\n"@,
            question@,
            "\n\n広い質問か:\n"@,
            truth_word(profile.is_broad),
            "\n\n検索観点:\n"@,
            text::joined(listing::cleaned(profile.wanted()), ", "@),
            "\n\nsource由来の下位概念候補:\n"@,
            concept_names(text::texts(profile.lower_concepts@)),
            EXTRACTION_NOTES@,
            parents(batch@, *hierarchy),
            "\n\nSOURCE:\n"@,
            chunk_blocks(batch@),
        ]);
    }
    make_dialogue(EXTRACTION_SYSTEM, input)
}

// ---------------------------------------------------------------------------------------------
// Reduction of facts

/// How facts are reduced.
pub const REDUCTION_SYSTEM: &'static str = "重複した抽出事実を統合し、質問へ直接答えるために必要な事実を残してください。source由来の下位概念がある場合は、質問に関係する各下位概念の根拠を可能な限り残してください。結論、条件、例外、対象、手続き、金額、期間、判断基準に関わる事実を優先してください。subject/object/condition/effect/scope の関係が違う事実を混ぜないでください。JSONだけで返してください。形式: {\"keep_indexes\":[1,2,3]}";

/// A fact as it stands in a list to choose from.
pub open spec fn fact_line(index: nat, fact: Fact) -> Text {
    text::concat(
        seq![
            "[F"@,
            text::decimal(index),
            "] chunk="@,
            text::signed_decimal(fact.chunk_id as int),
            " file="@,
            fact.file_name,
            " heading="@,
            fact.heading,
            " scope="@,
            fact.scope,
            " subject="@,
            fact.subject,
            " object="@,
            fact.object,
            " condition="@,
            fact.condition,
            " effect="@,
            fact.effect,
            " exception="@,
            fact.exception,
            " polarity="@,
            fact.polarity,
            " confidence="@,
            fact.confidence,
            " statement="@,
            fact.statement,
            " quote="@,
            fact.quote,
            "\n"@,
        ],
    )
}

/// Facts as a list to choose from, numbered from one.
pub open spec fn fact_lines(facts: Seq<Fact>) -> Text {
    text::concat(Seq::new(facts.len(), |i: int| fact_line((i + 1) as nat, facts[i])))
}

fn write_fact_line(index: usize, fact: &ExtractedFact) -> (r: String)
    ensures
        r@ == fact_line(index as nat, fact@),
{
    let number = text::decimal_text(index as u128);
    let chunk = text::signed_text(fact.chunk_id);
    let parts: Vec<&str> = vec![
        "[F",
        number.as_str(),
        "] chunk=",
        chunk.as_str(),
        " file=",
        fact.file_name.as_str(),
        " heading=",
        fact.heading_path.as_str(),
        " scope=",
        fact.scope.as_str(),
        " subject=",
        fact.subject.as_str(),
        " object=",
        fact.object.as_str(),
        " condition=",
        fact.condition.as_str(),
        " effect=",
        fact.effect.as_str(),
        " exception=",
        fact.exception.as_str(),
        " polarity=",
        fact.polarity.as_str(),
        " confidence=",
        fact.confidence.as_str(),
        " statement=",
        fact.statement.as_str(),
        " quote=",
        fact.quote.as_str(),
        "\n",
    ];
    let ghost f = fact@;
    assert(text::views(parts@) =~= seq![
        "[F"@,
        text::decimal(index as nat),
        "] chunk="@,
        text::signed_decimal(f.chunk_id as int),
        " file="@,
        f.file_name,
        " heading="@,
        f.heading,
        " scope="@,
        f.scope,
        " subject="@,
        f.subject,
        " object="@,
        f.object,
        " condition="@,
        f.condition,
        " effect="@,
        f.effect,
        " exception="@,
        f.exception,
        " polarity="@,
        f.polarity,
        " confidence="@,
        f.confidence,
        " statement="@,
        f.statement,
        " quote="@,
        f.quote,
        "\n"@,
    ]);
    text::concat_all(&parts)
}

fn write_fact_lines(facts: &[ExtractedFact]) -> (r: String)
    ensures
        r@ == fact_lines(facts::facts_in(facts@)),
{
    let ghost all = facts::facts_in(facts@);
    let ghost lines = Seq::new(all.len(), |i: int| fact_line((i + 1) as nat, all[i]));
    let mut out = String::new();
    let total = facts.len();
    for i in 0..total
        invariant
            total == facts@.len(),
            all == facts::facts_in(facts@),
            lines == Seq::new(all.len(), |i: int| fact_line((i + 1) as nat, all[i])),
            out@ == text::concat(lines.take(i as int)),
    {
        let line = write_fact_line(i + 1, &facts[i]);
        out.append(line.as_str());
        assert(lines.take(i + 1).drop_last() =~= lines.take(i as int));
        assert(lines.take(i + 1).last() == line@);
    }
    assert(lines.take(lines.len() as int) =~= lines);
    out
}

/// What facts are chosen from, and for which question.
pub open spec fn reduction_input(
    question: Text,
    profile: QuestionProfile,
    facts: Seq<Fact>,
) -> Text {
    text::concat(
        seq![
            "質問:\n"@,
            question,
            "\n\n広い質問か:\n"@,
            truth_word(profile.is_broad),
            "\n\nsource由来の下位概念候補:\n"@,
            concept_names(text::texts(profile.lower_concepts@)),
            "\n\n残す最大件数:\n"@,
            text::decimal(facts::MAX_REDUCED_FACTS as nat),
            "\n\nFACTS:\n"@,
            fact_lines(facts),
        ],
    )
}

/// Asks which facts to keep.
pub fn reduction_messages(
    question: &str,
    profile: &QuestionProfile,
    facts: &[ExtractedFact],
) -> (r: Vec<Message>)
    ensures
        said(r@) == dialogue(REDUCTION_SYSTEM@, reduction_input(question@, *profile, facts::facts_in(facts@))),
{
    let source = write_fact_lines(facts);
    let lower = name_concepts(&profile.lower_concepts);
    let limit = text::decimal_text(facts::MAX_REDUCED_FACTS as u128);
    let parts: Vec<&str> = vec![
        "質問:\n",
        question,
        "\n\n広い質問か:\n",
        word_of(profile.is_broad),
        "\n\nsource由来の下位概念候補:\n",
        lower.as_str(),
        "\n\n残す最大件数:\n",
        limit.as_str(),
        "\n\nFACTS:\n",
        source.as_str(),
    ];
    let input = text::concat_all(&parts);
    assert(input@ == reduction_input(question@, *profile, facts::facts_in(facts@))) by {
        assert(text::views(parts@) =~= seq![
            "質問:\n"@,
            question@,
            "\n\n広い質問か:\n"@,
            truth_word(profile.is_broad),
            "\n\nsource由来の下位概念候補:\n"@,
            concept_names(text::texts(profile.lower_concepts@)),
            "\n\n残す最大件数:\n"@,
            text::decimal(facts::MAX_REDUCED_FACTS as nat),
            "\n\nFACTS:\n"@,
            fact_lines(facts::facts_in(facts@)),
        ]);
    }
    make_dialogue(REDUCTION_SYSTEM, input)
}

// ---------------------------------------------------------------------------------------------
// Answers

/// How an answer is made of facts.
pub const SYNTHESIS_SYSTEM: &'static str = "あなたはローカル文書専用の回答エンジンです。FACTSだけを根拠に回答してください。最優先は、質問に直接答えることです。情報の列挙だけで終わらせず、まず結論を明示し、その後に条件、例外、根拠を整理してください。各主要主張に [F1] のような出典を付けてください。FACTSにない情報は根拠不足としてください。Markdownで返してください。";

/// What an answer made of facts has to observe.
pub const SYNTHESIS_NOTES: &'static str = "\n\n回答要件:\n- 冒頭で質問への直接回答を書く\n- 「はい/いいえ」「対象/対象外」「できる/できない」「こう扱う」など判断できる質問では、まず判断を示す\n- 判断に条件がある場合は、条件付きの結論として書く\n- 広い質問では、source由来の下位概念候補とFACTSに基づいて、関係する下位概念ごとに整理する\n- HIERARCHY_CONTEXTは網羅性確認と章・文書範囲確認に使う。ただし、主要主張の根拠はFACTSに限定する\n- その後に理由、条件、例外、対象者、金額、期間、手続きを整理する\n- 文書間差分や矛盾があれば明示する\n- FACTSにない推測は禁止\n- subject を別の主体に置き換えない\n- object を別の制度・手当・行為に置き換えない\n- condition のない effect として断定しない\n- effect を反転させない\n- scope を広げない\n- 根拠不足は、質問へ直接答えるために必要な点だけに絞る\n- 日本語で、Markdownとして読みやすく回答する";

/// The answer where there are no facts.
pub const NO_FACTS_ANSWER: &'static str = "根拠が見つかりません。選択中のsource内に、この質問へ回答できる事実は抽出されませんでした。";

/// The context of an answer.
pub open spec fn surroundings(broad: bool, hierarchy: HierarchyContext) -> Text {
    context::answer_context(
        broad,
        text::texts(hierarchy.corpus_concepts@),
        ranking::views(hierarchy.documents@),
        ranking::views(hierarchy.sections@),
    )
}

/// What an answer is made of: the question, what it asks for, its context and the facts.
pub open spec fn synthesis_input(
    question: Text,
    profile: QuestionProfile,
    hierarchy: HierarchyContext,
    facts: Seq<Fact>,
) -> Text {
    text::concat(
        seq![
            "質問:\n"@,
            question,
            "\n\n広い質問か:\n"@,
            truth_word(profile.is_broad),
            "\n\nsource由来の下位概念候補:\n"@,
            concept_names(text::texts(profile.lower_concepts@)),
            "\n\nHIERARCHY_CONTEXT:\n"@,
            surroundings(profile.is_broad, hierarchy),
            "\n\nFACTS:\n"@,
            facts::fact_blocks(facts),
            SYNTHESIS_NOTES@,
        ],
    )
}

/// Asks for an answer made of facts.
pub fn synthesis_messages(
    question: &str,
    profile: &QuestionProfile,
    hierarchy: &HierarchyContext,
    facts: &[ExtractedFact],
) -> (r: Vec<Message>)
    ensures
        said(r@) == dialogue(SYNTHESIS_SYSTEM@, synthesis_input(question@, *profile, *hierarchy, facts::facts_in(facts@))),
{
    let source = facts::format_facts(facts);
    let lower = name_concepts(&profile.lower_concepts);
    let around = context::build_answer_hierarchy_context(hierarchy, profile);
    let parts: Vec<&str> = vec![
        "質問:\n",
        question,
        "\n\n広い質問か:\n",
        word_of(profile.is_broad),
        "\n\nsource由来の下位概念候補:\n",
        lower.as_str(),
        "\n\nHIERARCHY_CONTEXT:\n",
        around.as_str(),
        "\n\nFACTS:\n",
        source.as_str(),
        SYNTHESIS_NOTES,
    ];
    let input = text::concat_all(&parts);
    assert(input@ == synthesis_input(question@, *profile, *hierarchy, facts::facts_in(facts@))) by {
        assert(text::views(parts@) =~= seq![
            "質問:\n"@,
            question@,
            "\n\n広い質問か:\n"@,
            truth_word(profile.is_broad),
            "\n\nsource由来の下位概念候補:\n"@,
            concept_names(text::texts(profile.lower_concepts@)),
            "\n\nHIERARCHY_CONTEXT:\n"@,
            surroundings(profile.is_broad, *hierarchy),
            "\n\nFACTS:\n"@,
            facts::fact_blocks(facts::facts_in(facts@)),
            SYNTHESIS_NOTES@,
        ]);
    }
    make_dialogue(SYNTHESIS_SYSTEM, input)
}

/// A hit as the language model reads it.
pub open spec fn hit_block(index: nat, hit: SearchHit) -> Text {
    text::concat(
        seq![
            "[S"@,
            text::decimal(index),
            "] file="@,
            hit.file_name@,
            " chunk="@,
            text::signed_decimal(hit.chunk_id as int),
            " chars="@,
            text::signed_decimal(hit.char_start as int),
            "-"@,
            text::signed_decimal(hit.char_end as int),
            " heading="@,
            hit.heading_path@,
            "\n"@,
            hit.snippet@,
            "\n\n"@,
        ],
    )
}

/// Hits as the language model reads them, numbered from one.
pub open spec fn hit_blocks(hits: Seq<SearchHit>) -> Seq<Text> {
    Seq::new(hits.len(), |i: int| hit_block((i + 1) as nat, hits[i]))
}

/// How many blocks fit into a number of characters, the first `k` of which do.
pub open spec fn fitting(blocks: Seq<Text>, max: nat, k: nat) -> nat
    decreases blocks.len() - k,
{
    if k < blocks.len() && text::concat(blocks.take(k as int + 1)).len() <= max {
        fitting(blocks, max, k + 1)
    } else {
        k
    }
}

/// As many hits as fit into a number of characters.
pub open spec fn context_of_hits(hits: Seq<SearchHit>, max: nat) -> Text {
    let blocks = hit_blocks(hits);
    text::concat(blocks.take(fitting(blocks, max, 0) as int))
}

fn write_hit(index: usize, hit: &SearchHit) -> (r: String)
    ensures
        r@ == hit_block(index as nat, *hit),
{
    let number = text::decimal_text(index as u128);
    let chunk = text::signed_text(hit.chunk_id);
    let start = text::signed_text(hit.char_start);
    let end = text::signed_text(hit.char_end);
    let parts: Vec<&str> = vec![
        "[S",
        number.as_str(),
        "] file=",
        hit.file_name.as_str(),
        " chunk=",
        chunk.as_str(),
        " chars=",
        start.as_str(),
        "-",
        end.as_str(),
        " heading=",
        hit.heading_path.as_str(),
        "\n",
        hit.snippet.as_str(),
        "\n\n",
    ];
    assert(text::views(parts@) =~= seq![
        "[S"@,
        text::decimal(index as nat),
        "] file="@,
        hit.file_name@,
        " chunk="@,
        text::signed_decimal(hit.chunk_id as int),
        " chars="@,
        text::signed_decimal(hit.char_start as int),
        "-"@,
        text::signed_decimal(hit.char_end as int),
        " heading="@,
        hit.heading_path@,
        "\n"@,
        hit.snippet@,
        "\n\n"@,
    ]);
    text::concat_all(&parts)
}

/// As many hits as fit into a number of characters, numbered from one.
pub fn build_context_from_hits(hits: &[SearchHit], max_chars: usize) -> (r: String)
    ensures
        r@ == context_of_hits(hits@, max_chars as nat),
        r@.len() <= max_chars,
{
    let ghost blocks = hit_blocks(hits@);
    let ghost max = max_chars as nat;
    let mut out = String::new();
    let total = hits.len();
    for i in 0..total
        invariant
            total == hits@.len(),
            max == max_chars,
            blocks == hit_blocks(hits@),
            out@ == text::concat(blocks.take(i as int)),
            out@.len() <= max,
            fitting(blocks, max, 0) == fitting(blocks, max, i as nat),
    {
        let block = write_hit(i + 1, &hits[i]);
        proof {
            assert(blocks.take(i + 1).drop_last() =~= blocks.take(i as int));
            assert(blocks.take(i + 1).last() == block@);
        }
        if text::char_count(out.as_str()) as u128 + text::char_count(block.as_str()) as u128
            > max_chars as u128 {
            return out;
        }
        out.append(block.as_str());
    }
    out
}

/// How an answer is made of the hits alone.
pub const ANSWER_SYSTEM: &'static str = "あなたはローカル文書専用の回答エンジンです。回答は与えられたSOURCEだけを根拠にしてください。SOURCEにない情報は推測せず、根拠がないと明記してください。主要な主張には [S1] のように出典番号を付けてください。";

/// What an answer made of the hits has to observe.
pub const ANSWER_NOTES: &'static str = "\n\n要件:\n- source外の一般知識で補完しない\n- 条件、例外、金額、期間、手続き、対象者を落とさない\n- 根拠不足は根拠不足と書く\n- 日本語で簡潔かつ網羅的に答える";

/// What an answer is made of: the question and the hits.
pub open spec fn answer_input(question: Text, source: Text) -> Text {
    text::concat(
        seq![
            "質問:\n"@,
            question,
            "\n\nSOURCE:\n"@,
            source,
            ANSWER_NOTES@,
        ],
    )
}

/// Asks for an answer made of the hits alone.
pub fn answer_messages(question: &str, hits: &[SearchHit], max_chars: usize) -> (r: Vec<Message>)
    ensures
        said(r@) == dialogue(ANSWER_SYSTEM@, answer_input(question@, context_of_hits(hits@, max_chars as nat))),
{
    let source = build_context_from_hits(hits, max_chars);
    let parts: Vec<&str> = vec![
        "質問:\n",
        question,
        "\n\nSOURCE:\n",
        source.as_str(),
        ANSWER_NOTES,
    ];
    let input = text::concat_all(&parts);
    assert(input@ == answer_input(question@, context_of_hits(hits@, max_chars as nat))) by {
        assert(text::views(parts@) =~= seq![
            "質問:\n"@,
            question@,
            "\n\nSOURCE:\n"@,
            context_of_hits(hits@, max_chars as nat),
            ANSWER_NOTES@,
        ]);
    }
    make_dialogue(ANSWER_SYSTEM, input)
}

// ---------------------------------------------------------------------------------------------
// Audits

/// How an answer is checked against the hits.
pub const AUDIT_SYSTEM: &'static str = "回答の各主張がSOURCEに支えられているか検査し、JSONだけで返してください。形式: {\"unsupported_claims\":[\"...\"],\"verdict\":\"pass|warning|fail\"}";

/// What an audit compares: the answer and the hits.
pub open spec fn audit_input(answer: Text, source: Text) -> Text {
    text::concat(
        seq![
            "ANSWER:\n"@,
            answer,
            "\n\nSOURCE:\n"@,
            source,
        ],
    )
}

/// Asks whether the hits support an answer.
pub fn audit_messages(answer: &str, hits: &[SearchHit], max_chars: usize) -> (r: Vec<Message>)
    ensures
        said(r@) == dialogue(AUDIT_SYSTEM@, audit_input(answer@, context_of_hits(hits@, max_chars as nat))),
{
    let source = build_context_from_hits(hits, max_chars);
    let parts: Vec<&str> = vec![
        "ANSWER:\n",
        answer,
        "\n\nSOURCE:\n",
        source.as_str(),
    ];
    let input = text::concat_all(&parts);
    assert(input@ == audit_input(answer@, context_of_hits(hits@, max_chars as nat))) by {
        assert(text::views(parts@) =~= seq![
            "ANSWER:\n"@,
            answer@,
            "\n\nSOURCE:\n"@,
            context_of_hits(hits@, max_chars as nat),
        ]);
    }
    make_dialogue(AUDIT_SYSTEM, input)
}

/// How an answer is checked against the facts.
pub const FACT_AUDIT_SYSTEM: &'static str = "回答の各主張がFACTSに支えられているか検査し、JSONだけで返してください。unsupported_claims はFACTSにない主張、relationship_errors は subject/object/condition/effect の関係ミス、scope_errors はFACTSより広い範囲への一般化、polarity_errors は肯定/否定/条件付きの反転や言い過ぎ、insufficient_evidence_overreach は質問範囲外の根拠不足列挙です。形式: {\"unsupported_claims\":[\"...\"],\"relationship_errors\":[{\"claim\":\"...\",\"problem\":\"...\",\"supported_fact_ids\":[\"F1\"]}],\"scope_errors\":[{\"claim\":\"...\",\"problem\":\"...\",\"supported_fact_ids\":[\"F2\"]}],\"polarity_errors\":[{\"claim\":\"...\",\"problem\":\"...\",\"supported_fact_ids\":[\"F3\"]}],\"insufficient_evidence_overreach\":[\"...\"],\"verdict\":\"pass|warning|fail\"}";

/// What an audit compares: the question, the answer and the facts.
pub open spec fn fact_audit_input(question: Text, answer: Text, facts: Seq<Fact>) -> Text {
    text::concat(
        seq![
            "QUESTION:\n"@,
            question,
            "\n\nANSWER:\n"@,
            answer,
            "\n\nFACTS:\n"@,
            facts::fact_blocks(facts),
        ],
    )
}

/// Asks whether the facts support an answer.
pub fn fact_audit_messages(
    question: &str,
    answer: &str,
    facts: &[ExtractedFact],
) -> (r: Vec<Message>)
    ensures
        said(r@) == dialogue(FACT_AUDIT_SYSTEM@, fact_audit_input(question@, answer@, facts::facts_in(facts@))),
{
    let source = facts::format_facts(facts);
    let parts: Vec<&str> = vec![
        "QUESTION:\n",
        question,
        "\n\nANSWER:\n",
        answer,
        "\n\nFACTS:\n",
        source.as_str(),
    ];
    let input = text::concat_all(&parts);
    assert(input@ == fact_audit_input(question@, answer@, facts::facts_in(facts@))) by {
        assert(text::views(parts@) =~= seq![
            "QUESTION:\n"@,
            question@,
            "\n\nANSWER:\n"@,
            answer@,
            "\n\nFACTS:\n"@,
            facts::fact_blocks(facts::facts_in(facts@)),
        ]);
    }
    make_dialogue(FACT_AUDIT_SYSTEM, input)
}

/// How an answer is mended after an audit.
pub const REVISION_SYSTEM: &'static str = "あなたはローカル文書専用回答の修正者です。AUDITで指摘された unsupported/relationship/scope/polarity/overreach を修正してください。FACTSだけを根拠にし、根拠のない主張は削除するか根拠不足として質問範囲内に限定して書いてください。subject/object/condition/effect/scope を改変しないでください。Markdownで回答だけを返してください。";

/// What a revision works on: the question, the answer, its audit and the facts.
pub open spec fn revision_input(question: Text, answer: Text, audit: Text, facts: Seq<Fact>) -> Text {
    text::concat(
        seq![
            "QUESTION:\n"@,
            question,
            "\n\nCURRENT_ANSWER:\n"@,
            answer,
            "\n\nAUDIT:\n"@,
            audit,
            "\n\nFACTS:\n"@,
            facts::fact_blocks(facts),
        ],
    )
}

/// Asks for an answer that the audit has nothing against.
pub fn revision_messages(
    question: &str,
    answer: &str,
    audit: &str,
    facts: &[ExtractedFact],
) -> (r: Vec<Message>)
    ensures
        said(r@) == dialogue(REVISION_SYSTEM@, revision_input(question@, answer@, audit@, facts::facts_in(facts@))),
{
    let source = facts::format_facts(facts);
    let parts: Vec<&str> = vec![
        "QUESTION:\n",
        question,
        "\n\nCURRENT_ANSWER:\n",
        answer,
        "\n\nAUDIT:\n",
        audit,
        "\n\nFACTS:\n",
        source.as_str(),
    ];
    let input = text::concat_all(&parts);
    assert(input@ == revision_input(question@, answer@, audit@, facts::facts_in(facts@))) by {
        assert(text::views(parts@) =~= seq![
            "QUESTION:\n"@,
            question@,
            "\n\nCURRENT_ANSWER:\n"@,
            answer@,
            "\n\nAUDIT:\n"@,
            audit@,
            "\n\nFACTS:\n"@,
            facts::fact_blocks(facts::facts_in(facts@)),
        ]);
    }
    make_dialogue(REVISION_SYSTEM, input)
}

// ---------------------------------------------------------------------------------------------
// What the requests hold

/// A request for an answer holds the question, whether it is broad, and every fact under its number.
pub proof fn law_synthesis_input(
    question: Text,
    profile: QuestionProfile,
    hierarchy: HierarchyContext,
    facts: Seq<Fact>,
)
    ensures
        ({
            let input = synthesis_input(question, profile, hierarchy, facts);
            &&& text::occurs_at("質問:\n"@ + question + "\n\n広い質問か:\n"@, input, 0)
            &&& profile.is_broad ==> text::occurs_in(
                "広い質問か:\n"@ + "true"@ + "\n\nsource由来の下位概念候補:\n"@,
                input,
            )
            &&& !profile.is_broad ==> text::occurs_in(
                "広い質問か:\n"@ + "false"@ + "\n\nsource由来の下位概念候補:\n"@,
                input,
            )
            &&& text::occurs_in(
                "\n\nsource由来の下位概念候補:\n"@ + concept_names(
                    text::texts(profile.lower_concepts@),
                ) + "\n\nHIERARCHY_CONTEXT:\n"@,
                input,
            )
            &&& text::occurs_in(
                "\n\nHIERARCHY_CONTEXT:\n"@ + surroundings(profile.is_broad, hierarchy)
                    + "\n\nFACTS:\n"@,
                input,
            )
            &&& forall|i: int|
                0 <= i < facts.len() ==> text::occurs_in(
                    facts::fact_block((i + 1) as nat, #[trigger] facts[i]),
                    input,
                )
        }),
{
    let parts = seq![
        "質問:\n"@,
        question,
        "\n\n広い質問か:\n"@,
        truth_word(profile.is_broad),
        "\n\nsource由来の下位概念候補:\n"@,
        concept_names(text::texts(profile.lower_concepts@)),
        "\n\nHIERARCHY_CONTEXT:\n"@,
        surroundings(profile.is_broad, hierarchy),
        "\n\nFACTS:\n"@,
        facts::fact_blocks(facts),
        SYNTHESIS_NOTES@,
    ];
    let input = synthesis_input(question, profile, hierarchy, facts);
    text::lemma_concat_begins(parts);
    text::lemma_concat_holds_three(parts, 2);
    text::lemma_concat_holds_three(parts, 4);
    text::lemma_concat_holds_three(parts, 6);
    lemma_broad_mark(input, truth_word(profile.is_broad));
    lemma_facts_within(facts, parts, 9);
}

proof fn lemma_broad_mark(input: Text, word: Text)
    requires
        text::occurs_in("\n\n広い質問か:\n"@ + word + "\n\nsource由来の下位概念候補:\n"@, input),
    ensures
        text::occurs_in("広い質問か:\n"@ + word + "\n\nsource由来の下位概念候補:\n"@, input),
{
    reveal_strlit("\n\n広い質問か:\n");
    reveal_strlit("広い質問か:\n");
    let long = "\n\n広い質問か:\n"@ + word + "\n\nsource由来の下位概念候補:\n"@;
    let short = "広い質問か:\n"@ + word + "\n\nsource由来の下位概念候補:\n"@;
    assert(long.skip(2) =~= short);
    text::lemma_skip_occurs(long, 2);
    text::lemma_occurs_transitive(short, long, input);
}

proof fn lemma_facts_within(facts: Seq<Fact>, parts: Seq<Text>, at: int)
    requires
        0 <= at < parts.len(),
        parts[at] == facts::fact_blocks(facts),
    ensures
        forall|i: int|
            0 <= i < facts.len() ==> text::occurs_in(
                facts::fact_block((i + 1) as nat, #[trigger] facts[i]),
                text::concat(parts),
            ),
{
    text::lemma_concat_holds(parts, at);
    assert forall|i: int| 0 <= i < facts.len() implies text::occurs_in(
        facts::fact_block((i + 1) as nat, #[trigger] facts[i]),
        text::concat(parts),
    ) by {
        facts::law_blocks_show_facts(facts, i);
        text::lemma_occurs_transitive(
            facts::fact_block((i + 1) as nat, facts[i]),
            facts::fact_blocks(facts),
            text::concat(parts),
        );
    }
}

/// A request for an audit holds the question, the answer that it judges, and every fact under its
/// number; and nothing of it but the answer changes with the answer.
pub proof fn law_fact_audit_input(question: Text, answer: Text, facts: Seq<Fact>)
    ensures
        ({
            let input = fact_audit_input(question, answer, facts);
            &&& text::occurs_at("QUESTION:\n"@ + question + "\n\nANSWER:\n"@, input, 0)
            &&& text::occurs_in("\n\nANSWER:\n"@ + answer + "\n\nFACTS:\n"@, input)
            &&& input.len() == fact_audit_input(question, Seq::empty(), facts).len() + answer.len()
            &&& forall|i: int|
                0 <= i < facts.len() ==> text::occurs_in(
                    facts::fact_block((i + 1) as nat, #[trigger] facts[i]),
                    input,
                )
        }),
{
    let none: Text = Seq::empty();
    let parts = audit_parts(question, answer, facts);
    let bare = audit_parts(question, none, facts);
    text::lemma_concat_begins(parts);
    text::lemma_concat_holds_three(parts, 2);
    lemma_facts_within(facts, parts, 5);
    text::lemma_concat_around(parts, 3);
    text::lemma_concat_around(bare, 3);
    assert(parts.take(3) =~= bare.take(3));
    assert(parts.skip(4) =~= bare.skip(4));
}

spec fn audit_parts(question: Text, answer: Text, facts: Seq<Fact>) -> Seq<Text> {
    seq![
        "QUESTION:\n"@,
        question,
        "\n\nANSWER:\n"@,
        answer,
        "\n\nFACTS:\n"@,
        facts::fact_blocks(facts),
    ]
}

/// Two different answers make two different requests for an audit.
pub proof fn law_audits_tell_answers_apart(question: Text, a: Text, b: Text, facts: Seq<Fact>)
    requires
        a != b,
    ensures
        fact_audit_input(question, a, facts) != fact_audit_input(question, b, facts),
{
    let one = audit_parts(question, a, facts);
    let two = audit_parts(question, b, facts);
    text::lemma_concat_around(one, 3);
    text::lemma_concat_around(two, 3);
    assert(one.take(3) =~= two.take(3));
    assert(one.skip(4) =~= two.skip(4));
    lemma_middle_tells_apart(text::concat(one.take(3)), a, b, text::concat(one.skip(4)));
}

/// Two texts that differ in the middle alone are different.
pub proof fn lemma_middle_tells_apart(before: Text, a: Text, b: Text, after: Text)
    requires
        a != b,
    ensures
        before + a + after != before + b + after,
{
    let one = before + a + after;
    let two = before + b + after;
    if one == two {
        assert(one.len() == before.len() + a.len() + after.len());
        assert(two.len() == before.len() + b.len() + after.len());
        assert forall|i: int| 0 <= i < a.len() implies a[i] == b[i] by {
            assert(one[before.len() + i] == a[i]);
            assert(two[before.len() + i] == b[i]);
        }
        assert(a =~= b);
    }
}

/// A request for a revision holds the question, the answer to revise, the audit that objected, and
/// every fact under its number.
pub proof fn law_revision_input(question: Text, answer: Text, audit: Text, facts: Seq<Fact>)
    ensures
        ({
            let input = revision_input(question, answer, audit, facts);
            &&& text::occurs_at("QUESTION:\n"@ + question + "\n\nCURRENT_ANSWER:\n"@, input, 0)
            &&& text::occurs_in("\n\nCURRENT_ANSWER:\n"@ + answer + "\n\nAUDIT:\n"@, input)
            &&& text::occurs_in("\n\nAUDIT:\n"@ + audit + "\n\nFACTS:\n"@, input)
            &&& forall|i: int|
                0 <= i < facts.len() ==> text::occurs_in(
                    facts::fact_block((i + 1) as nat, #[trigger] facts[i]),
                    input,
                )
        }),
{
    let parts = seq![
        "QUESTION:\n"@,
        question,
        "\n\nCURRENT_ANSWER:\n"@,
        answer,
        "\n\nAUDIT:\n"@,
        audit,
        "\n\nFACTS:\n"@,
        facts::fact_blocks(facts),
    ];
    text::lemma_concat_begins(parts);
    text::lemma_concat_holds_three(parts, 2);
    text::lemma_concat_holds_three(parts, 4);
    lemma_facts_within(facts, parts, 7);
}

/// A chunk that is shown shows its number, its place, its heading path and its whole text.
pub proof fn law_block_shows_chunk(chunk: ChunkRecord)
    ensures
        ({
            let block = chunk_block(chunk);
            &&& text::occurs_at(
                "\n[C"@ + text::signed_decimal(chunk.id as int) + "] file="@,
                block,
                0,
            )
            &&& text::occurs_in("] file="@ + chunk.file_name@ + " chars="@, block)
            &&& text::occurs_in(
                " chars="@ + text::signed_decimal(chunk.char_start as int) + "-"@,
                block,
            )
            &&& text::occurs_in(
                "-"@ + text::signed_decimal(chunk.char_end as int) + " heading="@,
                block,
            )
            &&& text::occurs_in(" heading="@ + chunk.heading_path@ + "\n"@, block)
            &&& text::occurs_in("\n"@ + chunk.content@ + "\n"@, block)
        }),
{
    let parts = seq![
        "\n[C"@,
        text::signed_decimal(chunk.id as int),
        "] file="@,
        chunk.file_name@,
        " chars="@,
        text::signed_decimal(chunk.char_start as int),
        "-"@,
        text::signed_decimal(chunk.char_end as int),
        " heading="@,
        chunk.heading_path@,
        "\n"@,
        chunk.content@,
        "\n"@,
    ];
    text::lemma_concat_begins(parts);
    text::lemma_concat_holds_three(parts, 2);
    text::lemma_concat_holds_three(parts, 4);
    text::lemma_concat_holds_three(parts, 6);
    text::lemma_concat_holds_three(parts, 8);
    text::lemma_concat_holds_three(parts, 10);
}

/// A request for facts holds the question, what it asks for, what stands above the chunks, and every
/// chunk of the batch.
pub proof fn law_extraction_input(
    question: Text,
    profile: QuestionProfile,
    hierarchy: HierarchyContext,
    batch: Seq<ChunkRecord>,
)
    ensures
        ({
            let input = extraction_input(question, profile, hierarchy, batch);
            &&& text::occurs_at("質問:\n"@ + question + "\n\n広い質問か:\n"@, input, 0)
            &&& profile.is_broad ==> text::occurs_in(
                "\n\n広い質問か:\n"@ + "true"@ + "\n\n検索観点:\n"@,
                input,
            )
            &&& !profile.is_broad ==> text::occurs_in(
                "\n\n広い質問か:\n"@ + "false"@ + "\n\n検索観点:\n"@,
                input,
            )
            &&& forall|term: Text| #[trigger]
                listing::cleaned(profile.wanted()).contains(term) ==> text::occurs_in(term, input)
            &&& text::occurs_in(
                "\n\nsource由来の下位概念候補:\n"@ + concept_names(
                    text::texts(profile.lower_concepts@),
                ),
                input,
            )
            &&& text::occurs_in(parents(batch, hierarchy) + "\n\nSOURCE:\n"@, input)
            &&& forall|i: int|
                0 <= i < batch.len() ==> text::occurs_in(chunk_block(#[trigger] batch[i]), input)
        }),
{
    let terms = listing::cleaned(profile.wanted());
    let parts = seq![
        "質問:\n"@,
        question,
        "\n\n広い質問か:\n"@,
        truth_word(profile.is_broad),
        "\n\n検索観点:\n"@,
        text::joined(terms, ", "@),
        "\n\nsource由来の下位概念候補:\n"@,
        concept_names(text::texts(profile.lower_concepts@)),
        EXTRACTION_NOTES@,
        parents(batch, hierarchy),
        "\n\nSOURCE:\n"@,
        chunk_blocks(batch),
    ];
    let input = text::concat(parts);
    text::lemma_concat_begins(parts);
    text::lemma_concat_holds_three(parts, 2);
    text::lemma_concat_holds(parts, 5);
    text::lemma_concat_holds_pair(parts, 6);
    text::lemma_concat_holds_pair(parts, 9);
    text::lemma_concat_holds(parts, 11);
    assert forall|term: Text| #[trigger] terms.contains(term) implies text::occurs_in(
        term,
        input,
    ) by {
        text::lemma_joined_contains(terms, ", "@, term);
        text::lemma_occurs_transitive(term, text::joined(terms, ", "@), input);
    }
    let blocks = Seq::new(batch.len(), |i: int| chunk_block(batch[i]));
    assert forall|i: int| 0 <= i < batch.len() implies text::occurs_in(
        chunk_block(#[trigger] batch[i]),
        input,
    ) by {
        text::lemma_concat_holds(blocks, i);
        assert(blocks[i] == chunk_block(batch[i]));
        text::lemma_occurs_transitive(blocks[i], chunk_blocks(batch), input);
    }
}

/// A fact in a list to choose from shows its number, its chunk, and each of its fields behind the
/// field's name and before the name of the next.
pub proof fn law_line_shows_fact(index: nat, fact: Fact)
    ensures
        ({
            let line = fact_line(index, fact);
            &&& text::occurs_at("[F"@ + text::decimal(index) + "] chunk="@, line, 0)
            &&& text::occurs_in(
                "] chunk="@ + text::signed_decimal(fact.chunk_id as int) + " file="@,
                line,
            )
            &&& text::occurs_in(" file="@ + fact.file_name + " heading="@, line)
            &&& text::occurs_in(" heading="@ + fact.heading + " scope="@, line)
            &&& text::occurs_in(" scope="@ + fact.scope + " subject="@, line)
            &&& text::occurs_in(" subject="@ + fact.subject + " object="@, line)
            &&& text::occurs_in(" object="@ + fact.object + " condition="@, line)
            &&& text::occurs_in(" condition="@ + fact.condition + " effect="@, line)
            &&& text::occurs_in(" effect="@ + fact.effect + " exception="@, line)
            &&& text::occurs_in(" exception="@ + fact.exception + " polarity="@, line)
            &&& text::occurs_in(" polarity="@ + fact.polarity + " confidence="@, line)
            &&& text::occurs_in(" confidence="@ + fact.confidence + " statement="@, line)
            &&& text::occurs_in(" statement="@ + fact.statement + " quote="@, line)
            &&& text::occurs_in(" quote="@ + fact.quote + "\n"@, line)
        }),
{
    let parts = seq![
        "[F"@,
        text::decimal(index),
        "] chunk="@,
        text::signed_decimal(fact.chunk_id as int),
        " file="@,
        fact.file_name,
        " heading="@,
        fact.heading,
        " scope="@,
        fact.scope,
        " subject="@,
        fact.subject,
        " object="@,
        fact.object,
        " condition="@,
        fact.condition,
        " effect="@,
        fact.effect,
        " exception="@,
        fact.exception,
        " polarity="@,
        fact.polarity,
        " confidence="@,
        fact.confidence,
        " statement="@,
        fact.statement,
        " quote="@,
        fact.quote,
        "\n"@,
    ];
    text::lemma_concat_begins(parts);
    text::lemma_concat_holds_three(parts, 2);
    text::lemma_concat_holds_three(parts, 4);
    text::lemma_concat_holds_three(parts, 6);
    text::lemma_concat_holds_three(parts, 8);
    text::lemma_concat_holds_three(parts, 10);
    text::lemma_concat_holds_three(parts, 12);
    text::lemma_concat_holds_three(parts, 14);
    text::lemma_concat_holds_three(parts, 16);
    text::lemma_concat_holds_three(parts, 18);
    text::lemma_concat_holds_three(parts, 20);
    text::lemma_concat_holds_three(parts, 22);
    text::lemma_concat_holds_three(parts, 24);
    text::lemma_concat_holds_three(parts, 26);
}

/// A request for a reduction holds the question, how many facts may be kept, and every fact under its
/// number.
pub proof fn law_reduction_input(question: Text, profile: QuestionProfile, facts: Seq<Fact>)
    ensures
        ({
            let input = reduction_input(question, profile, facts);
            &&& text::occurs_at("質問:\n"@ + question + "\n\n広い質問か:\n"@, input, 0)
            &&& profile.is_broad ==> text::occurs_in(
                "広い質問か:\n"@ + "true"@ + "\n\nsource由来の下位概念候補:\n"@,
                input,
            )
            &&& !profile.is_broad ==> text::occurs_in(
                "広い質問か:\n"@ + "false"@ + "\n\nsource由来の下位概念候補:\n"@,
                input,
            )
            &&& text::occurs_in(
                "\n\nsource由来の下位概念候補:\n"@ + concept_names(
                    text::texts(profile.lower_concepts@),
                ) + "\n\n残す最大件数:\n"@,
                input,
            )
            &&& text::occurs_in("\n\n残す最大件数:\n"@ + text::decimal(120) + "\n\nFACTS:\n"@, input)
            &&& forall|i: int|
                0 <= i < facts.len() ==> text::occurs_in(
                    fact_line((i + 1) as nat, #[trigger] facts[i]),
                    input,
                )
        }),
{
    let parts = seq![
        "質問:\n"@,
        question,
        "\n\n広い質問か:\n"@,
        truth_word(profile.is_broad),
        "\n\nsource由来の下位概念候補:\n"@,
        concept_names(text::texts(profile.lower_concepts@)),
        "\n\n残す最大件数:\n"@,
        text::decimal(facts::MAX_REDUCED_FACTS as nat),
        "\n\nFACTS:\n"@,
        fact_lines(facts),
    ];
    let input = text::concat(parts);
    text::lemma_concat_begins(parts);
    text::lemma_concat_holds_three(parts, 2);
    text::lemma_concat_holds_three(parts, 4);
    text::lemma_concat_holds_three(parts, 6);
    text::lemma_concat_holds(parts, 9);
    lemma_broad_mark(input, truth_word(profile.is_broad));
    let lines = Seq::new(facts.len(), |i: int| fact_line((i + 1) as nat, facts[i]));
    assert forall|i: int| 0 <= i < facts.len() implies text::occurs_in(
        fact_line((i + 1) as nat, #[trigger] facts[i]),
        input,
    ) by {
        text::lemma_concat_holds(lines, i);
        assert(lines[i] == fact_line((i + 1) as nat, facts[i]));
        text::lemma_occurs_transitive(lines[i], fact_lines(facts), input);
    }
}

/// A request names the first eighty lower concepts of a question, and says so where there are none.
pub proof fn law_concepts_are_named(lower: Seq<Text>, i: int)
    requires
        0 <= i < lower.len(),
        i < 80,
    ensures
        text::occurs_in(lower[i], concept_names(lower)),
        concept_names(Seq::empty()) == "なし"@,
{
    let first = text::first_items(lower, 80);
    assert(first[i] == lower[i]);
    assert(first.contains(lower[i]));
    text::lemma_joined_contains(first, ", "@, lower[i]);
}

/// A hit that is shown shows its number, its place, its heading path and its passage.
pub proof fn law_block_shows_hit(index: nat, hit: SearchHit)
    ensures
        ({
            let block = hit_block(index, hit);
            &&& text::occurs_at("[S"@ + text::decimal(index) + "] file="@, block, 0)
            &&& text::occurs_in("] file="@ + hit.file_name@ + " chunk="@, block)
            &&& text::occurs_in(
                " chunk="@ + text::signed_decimal(hit.chunk_id as int) + " chars="@,
                block,
            )
            &&& text::occurs_in(
                " chars="@ + text::signed_decimal(hit.char_start as int) + "-"@,
                block,
            )
            &&& text::occurs_in(
                "-"@ + text::signed_decimal(hit.char_end as int) + " heading="@,
                block,
            )
            &&& text::occurs_in(" heading="@ + hit.heading_path@ + "\n"@, block)
            &&& text::occurs_in("\n"@ + hit.snippet@ + "\n\n"@, block)
        }),
{
    let parts = seq![
        "[S"@,
        text::decimal(index),
        "] file="@,
        hit.file_name@,
        " chunk="@,
        text::signed_decimal(hit.chunk_id as int),
        " chars="@,
        text::signed_decimal(hit.char_start as int),
        "-"@,
        text::signed_decimal(hit.char_end as int),
        " heading="@,
        hit.heading_path@,
        "\n"@,
        hit.snippet@,
        "\n\n"@,
    ];
    text::lemma_concat_begins(parts);
    text::lemma_concat_holds_three(parts, 2);
    text::lemma_concat_holds_three(parts, 4);
    text::lemma_concat_holds_three(parts, 6);
    text::lemma_concat_holds_three(parts, 8);
    text::lemma_concat_holds_three(parts, 10);
    text::lemma_concat_holds_three(parts, 12);
}

proof fn lemma_fitting_fits(blocks: Seq<Text>, max: nat, k: nat)
    requires
        k <= blocks.len(),
        text::concat(blocks.take(k as int)).len() <= max,
    ensures
        k <= fitting(blocks, max, k) <= blocks.len(),
        text::concat(blocks.take(fitting(blocks, max, k) as int)).len() <= max,
        fitting(blocks, max, k) < blocks.len() ==> text::concat(
            blocks.take(fitting(blocks, max, k) as int + 1),
        ).len() > max,
    decreases blocks.len() - k,
{
    if k < blocks.len() && text::concat(blocks.take(k as int + 1)).len() <= max {
        lemma_fitting_fits(blocks, max, k + 1);
    }
}

/// The hits that are shown are the first ones, as many as fit: together they have no more characters
/// than there is room for, and with one more they would have.
pub proof fn law_hits_fit(hits: Seq<SearchHit>, max: nat) -> (n: int)
    ensures
        0 <= n <= hits.len(),
        context_of_hits(hits, max).len() <= max,
        n < hits.len() ==> context_of_hits(hits, max).len() + hit_block(
            (n + 1) as nat,
            hits[n],
        ).len() > max,
        forall|i: int|
            0 <= i < n ==> text::occurs_in(
                hit_block((i + 1) as nat, #[trigger] hits[i]),
                context_of_hits(hits, max),
            ),
{
    let blocks = hit_blocks(hits);
    assert(blocks.take(0) =~= Seq::<Text>::empty());
    lemma_fitting_fits(blocks, max, 0);
    let n = fitting(blocks, max, 0) as int;
    let shown = blocks.take(n);
    if n < hits.len() {
        let more = blocks.take(n + 1);
        assert(more.drop_last() =~= shown);
        assert(more.last() == hit_block((n + 1) as nat, hits[n]));
    }
    assert forall|i: int| 0 <= i < n implies text::occurs_in(
        hit_block((i + 1) as nat, #[trigger] hits[i]),
        context_of_hits(hits, max),
    ) by {
        text::lemma_concat_holds(shown, i);
        assert(shown[i] == hit_block((i + 1) as nat, hits[i]));
    }
    n
}

/// A request for an answer from hits holds the question and the hits; a request for its audit holds
/// the answer and the hits.
pub proof fn law_plain_inputs(question: Text, answer: Text, source: Text)
    ensures
        text::occurs_at(
            "質問:\n"@ + question + "\n\nSOURCE:\n"@,
            answer_input(question, source),
            0,
        ),
        text::occurs_in(
            "\n\nSOURCE:\n"@ + source + ANSWER_NOTES@,
            answer_input(question, source),
        ),
        audit_input(answer, source) == "ANSWER:\n"@ + answer + "\n\nSOURCE:\n"@ + source,
{
    let parts = seq!["質問:\n"@, question, "\n\nSOURCE:\n"@, source, ANSWER_NOTES@];
    text::lemma_concat_begins(parts);
    text::lemma_concat_holds_three(parts, 2);
    let others = seq!["ANSWER:\n"@, answer, "\n\nSOURCE:\n"@, source];
    reveal_with_fuel(text::concat, 5);
    let three = others.drop_last();
    let two = three.drop_last();
    assert(two.drop_last().drop_last() =~= Seq::<Text>::empty());
    assert(audit_input(answer, source) =~= "ANSWER:\n"@ + answer + "\n\nSOURCE:\n"@ + source);
}

/// Facts are extracted under the parents of the chunks: the line of every document with a chunk in the
/// batch, and of every section above one of its chunks, stands in the request, as long as they are no
/// more than eight and twelve.
pub proof fn law_extraction_shows_parents(
    question: Text,
    profile: QuestionProfile,
    hierarchy: HierarchyContext,
    batch: Seq<ChunkRecord>,
    d: int,
    s: int,
    i: int,
)
    requires
        hierarchy.documents@.len() <= 8,
        hierarchy.sections@.len() <= 12,
        0 <= i < batch.len(),
    ensures
        0 <= d < hierarchy.documents@.len() && batch[i].document_id
            == hierarchy.documents@[d]@.document_id ==> text::occurs_in(
            context::parent_document_line(hierarchy.documents@[d]@),
            extraction_input(question, profile, hierarchy, batch),
        ),
        0 <= s < hierarchy.sections@.len() && batch[i].document_id
            == hierarchy.sections@[s]@.document_id && (hierarchy.sections@[s]@.chunk_ids.contains(
            batch[i].id,
        ) || batch[i].heading_path@ == hierarchy.sections@[s]@.heading) ==> text::occurs_in(
            context::parent_section_line(hierarchy.sections@[s]@),
            extraction_input(question, profile, hierarchy, batch),
        ),
{
    let documents = ranking::views(hierarchy.documents@);
    let sections = ranking::views(hierarchy.sections@);
    let corpus = text::texts(hierarchy.corpus_concepts@);
    let above = parents(batch, hierarchy);
    let input = extraction_input(question, profile, hierarchy, batch);
    law_extraction_input(question, profile, hierarchy, batch);
    let none: Text = Seq::empty();
    text::lemma_middle_occurs(none, above, "\n\nSOURCE:\n"@);
    assert(none + above + "\n\nSOURCE:\n"@ =~= above + "\n\nSOURCE:\n"@);
    text::lemma_occurs_transitive(above, above + "\n\nSOURCE:\n"@, input);
    context::law_parents_are_shown(batch, corpus, documents, sections, d, s);
    if 0 <= d < documents.len() && batch[i].document_id == documents[d].document_id {
        text::lemma_occurs_transitive(context::parent_document_line(documents[d]), above, input);
    }
    if 0 <= s < sections.len() && batch[i].document_id == sections[s].document_id && (
    sections[s].chunk_ids.contains(batch[i].id) || batch[i].heading_path@ == sections[s].heading) {
        text::lemma_occurs_transitive(context::parent_section_line(sections[s]), above, input);
    }
}

/// An answer is made under the first twenty documents and, where the question is broad, under the first
/// sixty sections: their lines stand in the request.
pub proof fn law_synthesis_shows_context(
    question: Text,
    profile: QuestionProfile,
    hierarchy: HierarchyContext,
    facts: Seq<Fact>,
    i: int,
)
    requires
        0 <= i,
    ensures
        i < hierarchy.documents@.len() && i < 20 ==> text::occurs_in(
            context::answer_document_line(hierarchy.documents@[i]@),
            synthesis_input(question, profile, hierarchy, facts),
        ),
        profile.is_broad && i < hierarchy.sections@.len() && i < 60 ==> text::occurs_in(
            context::answer_section_line(hierarchy.sections@[i]@),
            synthesis_input(question, profile, hierarchy, facts),
        ),
{
    let documents = ranking::views(hierarchy.documents@);
    let sections = ranking::views(hierarchy.sections@);
    let corpus = text::texts(hierarchy.corpus_concepts@);
    let around = surroundings(profile.is_broad, hierarchy);
    let input = synthesis_input(question, profile, hierarchy, facts);
    law_synthesis_input(question, profile, hierarchy, facts);
    text::lemma_middle_occurs("\n\nHIERARCHY_CONTEXT:\n"@, around, "\n\nFACTS:\n"@);
    text::lemma_occurs_transitive(
        around,
        "\n\nHIERARCHY_CONTEXT:\n"@ + around + "\n\nFACTS:\n"@,
        input,
    );
    if documents.len() > 0 || sections.len() > 0 {
        context::law_answer_context(profile.is_broad, corpus, documents, sections, i);
        if i < documents.len() && i < 20 {
            text::lemma_occurs_transitive(context::answer_document_line(documents[i]), around, input);
        }
        if profile.is_broad && i < sections.len() && i < 60 {
            text::lemma_occurs_transitive(context::answer_section_line(sections[i]), around, input);
        }
    }
}

} // verus!
