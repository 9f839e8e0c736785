//! The course of a comprehensive answer: facts are extracted from every batch of chunks, reduced,
//! made into an answer, and the answer is audited and, if need be, revised.

use vstd::prelude::*;
use vstd::string::*;

use crate::audit;
use crate::context;
use crate::facts;
use crate::facts::{ExtractedFact, Fact};
use crate::json;
use crate::profile::QuestionProfile;
use crate::prompts;
use crate::prompts::Message;
use crate::records::{ChunkRecord, HierarchyContext, SearchHit};
use crate::text;
use crate::text::Text;

verus! {

// ---------------------------------------------------------------------------------------------
// Stages

/// What an answer waits for.
#[derive(Clone, Copy, PartialEq, Eq, Structural)]
pub enum Stage {
    /// The facts of a batch.
    Extract,
    /// The facts to keep.
    Reduce,
    /// The answer itself.
    Synthesize,
    /// The audit of the answer.
    Audit,
    /// A revised answer.
    Revise,
    /// The audit of the revised answer.
    Reaudit,
    /// Nothing more.
    Done,
}

/// The state of an answer as a mathematical value.
pub struct Run {
    pub question: Text,
    pub profile: QuestionProfile,
    pub hierarchy: HierarchyContext,
    pub batches: Seq<Seq<ChunkRecord>>,
    /// The batch whose facts are extracted next.
    pub next: int,
    /// All facts so far.
    pub facts: Seq<Fact>,
    /// The facts that the answer is made of.
    pub kept: Seq<Fact>,
    pub answer: Text,
    pub audit: Option<Text>,
    pub stage: Stage,
}

impl Run {
    /// Batches wait only during the extraction; an answer is revised only after an audit; and what is
    /// kept was extracted.
    pub open spec fn wf(self) -> bool {
        &&& 0 <= self.next <= self.batches.len()
        &&& self.stage == Stage::Extract <==> self.next < self.batches.len()
        &&& self.stage == Stage::Reduce ==> self.facts.len() > facts::MAX_REDUCED_FACTS
        &&& self.stage == Stage::Synthesize ==> self.kept.len() > 0
        &&& (self.stage == Stage::Revise || self.stage == Stage::Reaudit) ==> self.audit is Some
        &&& (self.stage == Stage::Extract || self.stage == Stage::Reduce) ==> self.kept.len() == 0
        &&& self.kept.len() <= facts::MAX_REDUCED_FACTS
        &&& forall|i: int| 0 <= i < self.kept.len() ==> self.facts.contains(#[trigger] self.kept[i])
    }

    /// With the facts that the answer is made of. Where there are none, the answer says so.
    pub open spec fn keeping(self, kept: Seq<Fact>) -> Run {
        if kept.len() == 0 {
            Run { kept, answer: prompts::NO_FACTS_ANSWER@, stage: Stage::Audit, ..self }
        } else {
            Run { kept, stage: Stage::Synthesize, ..self }
        }
    }

    /// What follows the extraction from a batch.
    pub open spec fn advanced(self) -> Run {
        if self.next < self.batches.len() {
            Run { stage: Stage::Extract, ..self }
        } else if self.facts.len() > facts::MAX_REDUCED_FACTS {
            Run { stage: Stage::Reduce, ..self }
        } else {
            self.keeping(self.facts)
        }
    }

    /// What follows a reply to what the answer waits for. A request that failed ends everything as
    /// long as there is no answer; an answer that was made stands.
    pub open spec fn after(self, reply: Result<Text, Text>) -> Result<Run, Text> {
        match self.stage {
            Stage::Extract => match reply {
                Ok(content) => {
                    let found = facts::facts_of(
                        json::listed(json::parsed_json(content), "facts"@),
                        self.batches[self.next],
                    );
                    Ok(Run { facts: self.facts + found, next: self.next + 1, ..self }.advanced())
                },
                Err(error) => Err(error),
            },
            Stage::Reduce => match reply {
                Ok(content) => Ok(
                    self.keeping(facts::reduced(self.facts, json::parsed_json(content))),
                ),
                Err(error) => Err(error),
            },
            Stage::Synthesize => match reply {
                Ok(content) => Ok(Run { answer: content, stage: Stage::Audit, ..self }),
                Err(error) => Err(error),
            },
            Stage::Audit => match reply {
                Ok(content) => Ok(
                    Run {
                        audit: Some(content),
                        stage: if audit::asks_revision(json::parsed_json(content)) {
                            Stage::Revise
                        } else {
                            Stage::Done
                        },
                        ..self
                    },
                ),
                Err(_) => Ok(Run { audit: None, stage: Stage::Done, ..self }),
            },
            Stage::Revise => match reply {
                Ok(content) => Ok(Run { answer: content, stage: Stage::Reaudit, ..self }),
                Err(_) => Ok(Run { stage: Stage::Done, ..self }),
            },
            Stage::Reaudit => {
                let first = self.audit.unwrap();
                let last = match reply {
                    Ok(content) => Some(content),
                    Err(_) => None,
                };
                Ok(
                    Run {
                        audit: Some(
                            audit::audit_record(
                                audit::entry_of(first, json::canonical_json(first)),
                                audit::last_entry(last),
                            ),
                        ),
                        stage: Stage::Done,
                        ..self
                    },
                )
            },
            Stage::Done => Ok(self),
        }
    }

    /// How many replies an answer waits for at most.
    pub open spec fn remaining(self) -> int {
        match self.stage {
            Stage::Extract => self.batches.len() - self.next + 5,
            Stage::Reduce => 5,
            Stage::Synthesize => 4,
            Stage::Audit => 3,
            Stage::Revise => 2,
            Stage::Reaudit => 1,
            Stage::Done => 0,
        }
    }
}

/// A request to the language model: its messages, the most tokens of the reply, and whether the
/// reply is to be JSON and to come piece by piece.
pub struct Ask {
    pub messages: Seq<(Text, Text)>,
    pub max_tokens: u32,
    pub json_mode: bool,
    pub stream: bool,
}

/// What is asked for at each stage.
pub open spec fn asked(run: Run) -> Option<Ask> {
    match run.stage {
        Stage::Extract => Some(
            Ask {
                messages: prompts::dialogue(
                    prompts::EXTRACTION_SYSTEM@,
                    prompts::extraction_input(
                        run.question,
                        run.profile,
                        run.hierarchy,
                        run.batches[run.next],
                    ),
                ),
                max_tokens: 1_400,
                json_mode: true,
                stream: false,
            },
        ),
        Stage::Reduce => Some(
            Ask {
                messages: prompts::dialogue(
                    prompts::REDUCTION_SYSTEM@,
                    prompts::reduction_input(run.question, run.profile, run.facts),
                ),
                max_tokens: 1_200,
                json_mode: true,
                stream: false,
            },
        ),
        Stage::Synthesize => Some(
            Ask {
                messages: prompts::dialogue(
                    prompts::SYNTHESIS_SYSTEM@,
                    prompts::synthesis_input(run.question, run.profile, run.hierarchy, run.kept),
                ),
                max_tokens: 3_500,
                json_mode: false,
                stream: true,
            },
        ),
        Stage::Audit | Stage::Reaudit => Some(
            Ask {
                messages: prompts::dialogue(
                    prompts::FACT_AUDIT_SYSTEM@,
                    prompts::fact_audit_input(run.question, run.answer, run.kept),
                ),
                max_tokens: 1_500,
                json_mode: true,
                stream: false,
            },
        ),
        Stage::Revise => Some(
            Ask {
                messages: prompts::dialogue(
                    prompts::REVISION_SYSTEM@,
                    prompts::revision_input(
                        run.question,
                        run.answer,
                        run.audit.unwrap(),
                        run.kept,
                    ),
                ),
                max_tokens: 3_000,
                json_mode: false,
                stream: true,
            },
        ),
        Stage::Done => None,
    }
}

// ---------------------------------------------------------------------------------------------
// The course of an answer

/// The error for a question that says nothing.
pub const EMPTY_QUESTION: &'static str = "質問が空です。";

/// Whether a question can be answered: it must say something.
pub fn check_question(question: &str) -> (r: Result<(), String>)
    ensures
        match r {
            Ok(_) => !text::is_blank(question@),
            Err(error) => text::is_blank(question@) && error@ == EMPTY_QUESTION@,
        },
{
    if text::blank(question) {
        Err(text::copy_text(EMPTY_QUESTION))
    } else {
        Ok(())
    }
}

/// A request to the language model.
pub struct Request {
    pub messages: Vec<Message>,
    pub max_tokens: u32,
    pub json_mode: bool,
    pub stream: bool,
}

impl View for Request {
    type V = Ask;

    open spec fn view(&self) -> Ask {
        Ask {
            messages: prompts::said(self.messages@),
            max_tokens: self.max_tokens,
            json_mode: self.json_mode,
            stream: self.stream,
        }
    }
}

/// What is asked of a question before its search.
pub open spec fn profile_asked(question: Text) -> Ask {
    Ask {
        messages: prompts::dialogue(prompts::PROFILE_SYSTEM@, question),
        max_tokens: 800,
        json_mode: true,
        stream: false,
    }
}

/// What is asked for an answer from hits alone.
pub open spec fn plain_asked(question: Text, hits: Seq<SearchHit>, max: nat) -> Ask {
    Ask {
        messages: prompts::dialogue(
            prompts::ANSWER_SYSTEM@,
            prompts::answer_input(question, prompts::context_of_hits(hits, max)),
        ),
        max_tokens: 2_000,
        json_mode: false,
        stream: true,
    }
}

/// What is asked for the audit of an answer from hits alone.
pub open spec fn plain_audit_asked(answer: Text, hits: Seq<SearchHit>, max: nat) -> Ask {
    Ask {
        messages: prompts::dialogue(
            prompts::AUDIT_SYSTEM@,
            prompts::audit_input(answer, prompts::context_of_hits(hits, max)),
        ),
        max_tokens: 1_000,
        json_mode: true,
        stream: false,
    }
}

/// The request for what a question asks for.
pub fn profile_request(question: &str) -> (r: Request)
    ensures
        r@ == profile_asked(question@),
        r@ == (Ask {
            messages: prompts::dialogue(prompts::PROFILE_SYSTEM@, question@),
            max_tokens: 800,
            json_mode: true,
            stream: false,
        }),
{
    Request {
        messages: prompts::profile_messages(question),
        max_tokens: 800,
        json_mode: true,
        stream: false,
    }
}

/// The request for an answer from hits alone.
pub fn plain_request(question: &str, hits: &[SearchHit], max_chars: usize) -> (r: Request)
    ensures
        r@ == plain_asked(question@, hits@, max_chars as nat),
        r@ == (Ask {
            messages: prompts::dialogue(
                prompts::ANSWER_SYSTEM@,
                prompts::answer_input(
                    question@,
                    prompts::context_of_hits(hits@, max_chars as nat),
                ),
            ),
            max_tokens: 2_000,
            json_mode: false,
            stream: true,
        }),
{
    Request {
        messages: prompts::answer_messages(question, hits, max_chars),
        max_tokens: 2_000,
        json_mode: false,
        stream: true,
    }
}

/// The request for the audit of an answer from hits alone.
pub fn plain_audit_request(answer: &str, hits: &[SearchHit], max_chars: usize) -> (r: Request)
    ensures
        r@ == plain_audit_asked(answer@, hits@, max_chars as nat),
        r@ == (Ask {
            messages: prompts::dialogue(
                prompts::AUDIT_SYSTEM@,
                prompts::audit_input(answer@, prompts::context_of_hits(hits@, max_chars as nat)),
            ),
            max_tokens: 1_000,
            json_mode: true,
            stream: false,
        }),
{
    Request {
        messages: prompts::audit_messages(answer, hits, max_chars),
        max_tokens: 1_000,
        json_mode: true,
        stream: false,
    }
}

/// An answer on its way.
pub struct AnswerRun {
    pub question: String,
    pub profile: QuestionProfile,
    pub hierarchy: HierarchyContext,
    pub batches: Vec<Vec<ChunkRecord>>,
    pub next: usize,
    pub facts: Vec<ExtractedFact>,
    pub kept: Vec<ExtractedFact>,
    pub answer: String,
    pub audit: Option<String>,
    pub stage: Stage,
}

impl View for AnswerRun {
    type V = Run;

    open spec fn view(&self) -> Run {
        Run {
            question: self.question@,
            profile: self.profile,
            hierarchy: self.hierarchy,
            batches: context::batch_contents(self.batches@),
            next: self.next as int,
            facts: facts::facts_in(self.facts@),
            kept: facts::facts_in(self.kept@),
            answer: self.answer@,
            audit: match self.audit {
                Some(s) => Some(s@),
                None => None,
            },
            stage: self.stage,
        }
    }
}

/// The state of an answer before the first request.
pub open spec fn first_state(
    question: Text,
    profile: QuestionProfile,
    hierarchy: HierarchyContext,
    batches: Seq<Seq<ChunkRecord>>,
) -> Run {
    Run {
        question,
        profile,
        hierarchy,
        batches,
        next: 0,
        facts: Seq::empty(),
        kept: Seq::empty(),
        answer: Seq::empty(),
        audit: None,
        stage: Stage::Extract,
    }.advanced()
}

impl AnswerRun {
    /// Begins an answer from all selected chunks, read in batches of at most `batch_chars`
    /// characters.
    pub fn begin(
        question: String,
        profile: QuestionProfile,
        hierarchy: HierarchyContext,
        chunks: &[ChunkRecord],
        batch_chars: usize,
    ) -> (r: Self)
        ensures
            r@ == first_state(
                question@,
                profile,
                hierarchy,
                context::batches_from(chunks@, batch_chars as nat, 0),
            ),
            r@.wf(),
            all_sound(r@),
    {
        let batches = context::build_chunk_batches(chunks, batch_chars);
        let run = AnswerRun {
            question,
            profile,
            hierarchy,
            batches,
            next: 0,
            facts: Vec::new(),
            kept: Vec::new(),
            answer: String::new(),
            audit: None,
            stage: Stage::Extract,
        };
        proof {
            assert(facts::facts_in(run.facts@) =~= Seq::<Fact>::empty());
            assert(facts::facts_in(run.kept@) =~= Seq::<Fact>::empty());
            assert(run.answer@ =~= Seq::<char>::empty());
        }
        run.advance()
    }

    fn keep(self, kept: Vec<ExtractedFact>) -> (r: Self)
        ensures
            r@ == self@.keeping(facts::facts_in(kept@)),
    {
        let mut run = self;
        if kept.len() == 0 {
            run.answer = text::copy_text(prompts::NO_FACTS_ANSWER);
            run.stage = Stage::Audit;
        } else {
            run.stage = Stage::Synthesize;
        }
        run.kept = kept;
        run
    }

    fn advance(self) -> (r: Self)
        ensures
            r@ == self@.advanced(),
    {
        if self.next < self.batches.len() {
            let mut run = self;
            run.stage = Stage::Extract;
            run
        } else if facts::needs_reduction(&self.facts) {
            let mut run = self;
            run.stage = Stage::Reduce;
            run
        } else {
            let kept = facts::reduce_with_json(&self.facts, &None);
            self.keep(kept)
        }
    }

    /// What the answer waits for; nothing when it is done.
    pub fn request(&self) -> (r: Option<Request>)
        requires
            self@.wf(),
        ensures
            match r {
                Some(request) => asked(self@) == Some(request@),
                None => asked(self@) is None,
            },
            r is None <==> self@.stage == Stage::Done,
    {
        let question = self.question.as_str();
        match self.stage {
            Stage::Extract => {
                assert(self@.batches[self.next as int] == self.batches@[self.next as int]@);
                Some(
                    Request {
                        messages: prompts::extraction_messages(
                            question,
                            &self.profile,
                            &self.hierarchy,
                            self.batches[self.next].as_slice(),
                        ),
                        max_tokens: 1_400,
                        json_mode: true,
                        stream: false,
                    },
                )
            },
            Stage::Reduce => Some(
                Request {
                    messages: prompts::reduction_messages(
                        question,
                        &self.profile,
                        self.facts.as_slice(),
                    ),
                    max_tokens: 1_200,
                    json_mode: true,
                    stream: false,
                },
            ),
            Stage::Synthesize => Some(
                Request {
                    messages: prompts::synthesis_messages(
                        question,
                        &self.profile,
                        &self.hierarchy,
                        self.kept.as_slice(),
                    ),
                    max_tokens: 3_500,
                    json_mode: false,
                    stream: true,
                },
            ),
            Stage::Audit | Stage::Reaudit => Some(
                Request {
                    messages: prompts::fact_audit_messages(
                        question,
                        self.answer.as_str(),
                        self.kept.as_slice(),
                    ),
                    max_tokens: 1_500,
                    json_mode: true,
                    stream: false,
                },
            ),
            Stage::Revise => {
                let audit = match &self.audit {
                    Some(s) => s.as_str(),
                    None => "",
                };
                Some(
                    Request {
                        messages: prompts::revision_messages(
                            question,
                            self.answer.as_str(),
                            audit,
                            self.kept.as_slice(),
                        ),
                        max_tokens: 3_000,
                        json_mode: false,
                        stream: true,
                    },
                )
            },
            Stage::Done => None,
        }
    }

    fn take_facts(self, content: &str) -> (r: Self)
        requires
            self@.wf(),
            self@.stage == Stage::Extract,
        ensures
            Ok::<Run, Text>(r@) == self@.after(Ok(content@)),
    {
        let mut run = self;
        let ghost before = run@;
        assert(before.batches[run.next as int] == run.batches@[run.next as int]@);
        let total = run.batches.len();
        let mut found = facts::facts_from_reply(content, run.batches[run.next].as_slice());
        let ghost added = facts::facts_in(found@);
        run.facts.append(&mut found);
        assert(run.next < total);
        run.next = run.next + 1;
        assert(facts::facts_in(run.facts@) =~= before.facts + added);
        run.advance()
    }

    /// What follows a reply to what the answer waits for: the answer goes on, or fails with the error
    /// of a request that it cannot do without.
    pub fn accept(self, reply: Result<String, String>) -> (r: Result<Self, String>)
        requires
            self@.wf(),
        ensures
            match r {
                Ok(next) => self@.after(reply_text(reply)) == Ok::<Run, Text>(next@) && next@.wf(),
                Err(error) => self@.after(reply_text(reply)) == Err::<Run, Text>(error@),
            },
            all_sound(self@) && r is Ok ==> all_sound(r->Ok_0@),
    {
        proof {
            if self@.stage != Stage::Done {
                law_every_reply_leads_on(self@, reply_text(reply));
            }
            if all_sound(self@) {
                law_facts_stay_sound(self@, reply_text(reply));
            }
        }
        match self.stage {
            Stage::Extract => match reply {
                Ok(content) => Ok(self.take_facts(content.as_str())),
                Err(error) => Err(error),
            },
            Stage::Reduce => match reply {
                Ok(content) => {
                    let kept = facts::reduce_facts(&self.facts, content.as_str());
                    proof {
                        facts::lemma_reduced_contents(self.facts@, json::parsed_json(content@));
                    }
                    Ok(self.keep(kept))
                },
                Err(error) => Err(error),
            },
            Stage::Synthesize => match reply {
                Ok(content) => {
                    let mut run = self;
                    run.answer = content;
                    run.stage = Stage::Audit;
                    Ok(run)
                },
                Err(error) => Err(error),
            },
            Stage::Audit => {
                let mut run = self;
                match reply {
                    Ok(content) => {
                        run.stage = if audit::audit_needs_revision(content.as_str()) {
                            Stage::Revise
                        } else {
                            Stage::Done
                        };
                        run.audit = Some(content);
                    },
                    Err(_) => {
                        run.audit = None;
                        run.stage = Stage::Done;
                    },
                }
                Ok(run)
            },
            Stage::Revise => {
                let mut run = self;
                match reply {
                    Ok(content) => {
                        run.answer = content;
                        run.stage = Stage::Reaudit;
                    },
                    Err(_) => {
                        run.stage = Stage::Done;
                    },
                }
                Ok(run)
            },
            Stage::Reaudit => {
                let mut run = self;
                let first = match &run.audit {
                    Some(s) => s.clone(),
                    None => String::new(),
                };
                let record = match &reply {
                    Ok(content) => audit::combine_audit_json(
                        first.as_str(),
                        Some(content.as_str()),
                    ),
                    Err(_) => audit::combine_audit_json(first.as_str(), None),
                };
                run.audit = Some(record);
                run.stage = Stage::Done;
                Ok(run)
            },
            Stage::Done => Ok(self),
        }
    }
}

/// The text of a reply or of its error.
pub open spec fn reply_text(reply: Result<String, String>) -> Result<Text, Text> {
    match reply {
        Ok(s) => Ok(s@),
        Err(s) => Err(s@),
    }
}

// ---------------------------------------------------------------------------------------------
// Laws

/// Every reply leads on to a state that is in order, and closer to the end.
pub proof fn law_every_reply_leads_on(run: Run, reply: Result<Text, Text>)
    requires
        run.wf(),
        run.stage != Stage::Done,
    ensures
        match run.after(reply) {
            Ok(next) => next.wf() && 0 <= next.remaining() < run.remaining(),
            Err(_) => true,
        },
{
    match run.after(reply) {
        Ok(next) => {
            if run.stage == Stage::Reduce {
                facts::law_reduction(run.facts, json::parsed_json(reply->Ok_0));
            }
            if run.stage == Stage::Extract && next.kept.len() > 0 {
                assert(next.kept == next.facts);
                assert forall|i: int| 0 <= i < next.kept.len() implies next.facts.contains(
                    #[trigger] next.kept[i],
                ) by {
                    assert(next.facts[i] == next.kept[i]);
                }
            }
        },
        Err(_) => {},
    }
}

/// Every batch was read before there is anything to reduce, answer or audit.
pub proof fn law_all_batches_read(run: Run)
    requires
        run.wf(),
        run.stage != Stage::Extract,
    ensures
        run.next == run.batches.len(),
{
}

/// A request can only fail an answer that was not made yet, and fails it with its own error.
pub proof fn law_answers_survive(run: Run, reply: Result<Text, Text>)
    requires
        run.wf(),
    ensures
        match run.after(reply) {
            Ok(next) => reply is Err ==> next.answer == run.answer,
            Err(error) => reply == Err::<Text, Text>(error) && (run.stage == Stage::Extract
                || run.stage == Stage::Reduce || run.stage == Stage::Synthesize),
        },
{
}

/// An answer is asked for anew only after an audit that asks for a revision.
pub proof fn law_revised_only_on_objection(run: Run, reply: Result<Text, Text>)
    requires
        run.wf(),
        run.stage == Stage::Audit,
    ensures
        ({
            let next = run.after(reply)->Ok_0;
            next.stage == Stage::Revise <==> reply is Ok && audit::asks_revision(
                json::parsed_json(reply->Ok_0),
            )
        }),
        run.after(reply)->Ok_0.answer == run.answer,
{
}

/// Whether every fact of an answer is sound for one of the batches.
pub open spec fn all_sound(run: Run) -> bool {
    forall|k: int| 0 <= k < run.facts.len() ==> sound_somewhere(run.batches, #[trigger] run.facts[k])
}

/// Whether a fact is sound for one of the batches.
pub open spec fn sound_somewhere(batches: Seq<Seq<ChunkRecord>>, fact: Fact) -> bool {
    exists|b: int| 0 <= b < batches.len() && facts::is_sound(fact, #[trigger] batches[b])
}

/// Whatever the language model replies, the facts of an answer cite the chunks that were read.
pub proof fn law_facts_stay_sound(run: Run, reply: Result<Text, Text>)
    requires
        run.wf(),
        all_sound(run),
    ensures
        match run.after(reply) {
            Ok(next) => all_sound(next),
            Err(_) => true,
        },
{
    if run.stage == Stage::Extract && reply is Ok {
        let items = json::listed(json::parsed_json(reply->Ok_0), "facts"@);
        let batch = run.batches[run.next];
        let found = facts::facts_of(items, batch);
        let next = run.after(reply)->Ok_0;
        assert(next.facts == run.facts + found);
        assert forall|k: int| 0 <= k < next.facts.len() implies sound_somewhere(
            next.batches,
            #[trigger] next.facts[k],
        ) by {
            if k < run.facts.len() {
                assert(next.facts[k] == run.facts[k]);
            } else {
                facts::law_facts_are_sound(items, batch, k - run.facts.len());
                assert(facts::is_sound(next.facts[k], run.batches[run.next]));
            }
        }
    }
}

/// The facts of an answer cite the selected chunks, and nothing else.
pub proof fn law_facts_cite_selected(run: Run, chunks: Seq<ChunkRecord>, max: nat, k: int)
    requires
        run.batches == context::batches_from(chunks, max, 0),
        all_sound(run),
        0 <= k < run.facts.len(),
    ensures
        facts::is_sound(run.facts[k], chunks),
{
    let fact = run.facts[k];
    assert(sound_somewhere(run.batches, fact));
    let b = choose|b: int|
        0 <= b < run.batches.len() && facts::is_sound(fact, #[trigger] run.batches[b]);
    let (lo, hi) = context::lemma_batch_is_run(chunks, max, 0, b);
    let batch = run.batches[b];
    let i = choose|i: int|
        0 <= i < batch.len() && (#[trigger] batch[i]).id == fact.chunk_id && batch[i].file_name@
            == fact.file_name && batch[i].path@ == fact.path && batch[i].heading_path@
            == fact.heading && batch[i].char_start == fact.start && batch[i].char_end == fact.end;
    assert(chunks[lo + i] == batch[i]);
}

/// A reply keeps the question, the batches and all facts found before.
pub proof fn law_nothing_is_forgotten(run: Run, reply: Result<Text, Text>)
    requires
        run.wf(),
    ensures
        match run.after(reply) {
            Ok(next) => {
                &&& next.question == run.question
                &&& next.batches == run.batches
                &&& run.facts.len() <= next.facts.len()
                &&& forall|k: int|
                    0 <= k < run.facts.len() ==> #[trigger] next.facts[k] == run.facts[k]
            },
            Err(_) => true,
        },
{
}

// ---------------------------------------------------------------------------------------------
// What is asked at each stage

/// The text of the user message of a request.
pub open spec fn user_text(ask: Ask) -> Text {
    ask.messages[1].1
}

/// Whether an answer is asked for, audited or revised at a stage.
pub open spec fn works_on_facts(stage: Stage) -> bool {
    stage == Stage::Synthesize || stage == Stage::Audit || stage == Stage::Revise || stage
        == Stage::Reaudit
}

/// Every request is an instruction and one user message, which holds the question.
pub proof fn law_requests_ask_the_question(run: Run)
    requires
        run.wf(),
        run.stage != Stage::Done,
    ensures
        match asked(run) {
            Some(ask) => {
                &&& ask.messages.len() == 2
                &&& ask.messages[0].0 == "system"@
                &&& ask.messages[1].0 == "user"@
                &&& text::occurs_in(run.question, user_text(ask))
            },
            None => false,
        },
{
    let ask = asked(run).unwrap();
    let input = user_text(ask);
    let q = run.question;
    match run.stage {
        Stage::Extract => {
            prompts::law_extraction_input(q, run.profile, run.hierarchy, run.batches[run.next]);
            lemma_named(q, "質問:\n"@, "\n\n広い質問か:\n"@, input);
        },
        Stage::Reduce => {
            prompts::law_reduction_input(q, run.profile, run.facts);
            lemma_named(q, "質問:\n"@, "\n\n広い質問か:\n"@, input);
        },
        Stage::Synthesize => {
            prompts::law_synthesis_input(q, run.profile, run.hierarchy, run.kept);
            lemma_named(q, "質問:\n"@, "\n\n広い質問か:\n"@, input);
        },
        Stage::Revise => {
            prompts::law_revision_input(q, run.answer, run.audit.unwrap(), run.kept);
            lemma_named(q, "QUESTION:\n"@, "\n\nCURRENT_ANSWER:\n"@, input);
        },
        _ => {
            prompts::law_fact_audit_input(q, run.answer, run.kept);
            lemma_named(q, "QUESTION:\n"@, "\n\nANSWER:\n"@, input);
        },
    }
}

proof fn lemma_named(s: Text, before: Text, after: Text, input: Text)
    requires
        text::occurs_at(before + s + after, input, 0),
    ensures
        text::occurs_in(s, input),
{
    text::lemma_middle_occurs(before, s, after);
    assert(text::occurs_in(before + s + after, input));
    text::lemma_occurs_transitive(s, before + s + after, input);
}

/// Facts are extracted from every chunk of the next batch: each stands in the request.
pub proof fn law_extraction_reads_batch(run: Run, i: int)
    requires
        run.wf(),
        run.stage == Stage::Extract,
        0 <= i < run.batches[run.next].len(),
    ensures
        match asked(run) {
            Some(ask) => text::occurs_in(
                prompts::chunk_block(run.batches[run.next][i]),
                user_text(ask),
            ),
            None => false,
        },
{
    prompts::law_extraction_input(
        run.question,
        run.profile,
        run.hierarchy,
        run.batches[run.next],
    );
}

/// A reduction chooses from all facts: each stands in the request under its number, from one on.
pub proof fn law_reduction_reads_facts(run: Run, i: int)
    requires
        run.wf(),
        run.stage == Stage::Reduce,
        0 <= i < run.facts.len(),
    ensures
        match asked(run) {
            Some(ask) => text::occurs_in(
                prompts::fact_line((i + 1) as nat, run.facts[i]),
                user_text(ask),
            ),
            None => false,
        },
{
    prompts::law_reduction_input(run.question, run.profile, run.facts);
}

/// Where an answer is asked for, audited or revised, every fact that was kept stands in the request
/// under its number, from one on.
pub proof fn law_requests_hold_facts(run: Run, i: int)
    requires
        run.wf(),
        works_on_facts(run.stage),
        0 <= i < run.kept.len(),
    ensures
        match asked(run) {
            Some(ask) => text::occurs_in(
                facts::fact_block((i + 1) as nat, run.kept[i]),
                user_text(ask),
            ),
            None => false,
        },
{
    match run.stage {
        Stage::Synthesize => prompts::law_synthesis_input(
            run.question,
            run.profile,
            run.hierarchy,
            run.kept,
        ),
        Stage::Revise => prompts::law_revision_input(
            run.question,
            run.answer,
            run.audit.unwrap(),
            run.kept,
        ),
        _ => prompts::law_fact_audit_input(run.question, run.answer, run.kept),
    }
}

/// What is asked for at a stage that works on facts holds what a fact says, field by field.
pub proof fn law_requests_hold_statements(run: Run, i: int)
    requires
        run.wf(),
        works_on_facts(run.stage),
        0 <= i < run.kept.len(),
    ensures
        match asked(run) {
            Some(ask) => {
                &&& text::occurs_in("\nsubject: "@ + run.kept[i].subject, user_text(ask))
                &&& text::occurs_in("\ncondition: "@ + run.kept[i].condition, user_text(ask))
                &&& text::occurs_in("\neffect: "@ + run.kept[i].effect, user_text(ask))
                &&& text::occurs_in("\nexception: "@ + run.kept[i].exception, user_text(ask))
                &&& text::occurs_in("\nstatement: "@ + run.kept[i].statement, user_text(ask))
                &&& text::occurs_in("\nquote: "@ + run.kept[i].quote, user_text(ask))
            },
            None => false,
        },
{
    law_requests_hold_facts(run, i);
    let fact = run.kept[i];
    let block = facts::fact_block((i + 1) as nat, fact);
    let input = user_text(asked(run).unwrap());
    facts::law_block_shows_fact((i + 1) as nat, fact);
    lemma_labelled("\nsubject: "@ + fact.subject, "\nobject: "@, block, input);
    lemma_labelled("\ncondition: "@ + fact.condition, "\neffect: "@, block, input);
    lemma_labelled("\neffect: "@ + fact.effect, "\nexception: "@, block, input);
    lemma_labelled("\nexception: "@ + fact.exception, "\npolarity: "@, block, input);
    lemma_labelled("\nstatement: "@ + fact.statement, "\nquote: "@, block, input);
    lemma_labelled("\nquote: "@ + fact.quote, "\n\n"@, block, input);
}

proof fn lemma_labelled(s: Text, after: Text, block: Text, input: Text)
    requires
        text::occurs_in(s + after, block),
        text::occurs_in(block, input),
    ensures
        text::occurs_in(s, input),
{
    let none: Text = Seq::empty();
    text::lemma_middle_occurs(none, s, after);
    assert(none + s + after =~= s + after);
    text::lemma_occurs_transitive(s, s + after, block);
    text::lemma_occurs_transitive(s, block, input);
}

/// An audit reads the answer that it judges: the current answer stands in the request.
pub proof fn law_audits_read_answer(run: Run)
    requires
        run.wf(),
        run.stage == Stage::Audit || run.stage == Stage::Reaudit,
    ensures
        match asked(run) {
            Some(ask) => text::occurs_in(
                "\n\nANSWER:\n"@ + run.answer + "\n\nFACTS:\n"@,
                user_text(ask),
            ),
            None => false,
        },
{
    prompts::law_fact_audit_input(run.question, run.answer, run.kept);
}

/// Two runs that differ in their answers ask for different audits.
pub proof fn law_audits_differ_with_answers(run: Run, other: Text)
    requires
        run.wf(),
        run.stage == Stage::Audit || run.stage == Stage::Reaudit,
        run.answer != other,
    ensures
        match (asked(run), asked(Run { answer: other, ..run })) {
            (Some(one), Some(two)) => user_text(one) != user_text(two),
            _ => false,
        },
{
    prompts::law_audits_tell_answers_apart(run.question, run.answer, other, run.kept);
}

/// The answer that is made is the answer that is audited, and the revised answer is the one that is
/// audited again.
pub proof fn law_new_answers_are_audited(run: Run, content: Text)
    requires
        run.wf(),
        run.stage == Stage::Synthesize || run.stage == Stage::Revise,
    ensures
        match run.after(Ok(content)) {
            Ok(next) => {
                &&& next.answer == content
                &&& next.kept == run.kept
                &&& match asked(next) {
                    Some(ask) => text::occurs_in(
                        "\n\nANSWER:\n"@ + content + "\n\nFACTS:\n"@,
                        user_text(ask),
                    ),
                    None => false,
                }
            },
            Err(_) => false,
        },
{
    law_every_reply_leads_on(run, Ok(content));
    law_audits_read_answer(run.after(Ok(content))->Ok_0);
}

/// A revision is asked for with the answer that the audit was about and with that audit.
pub proof fn law_revisions_read_audit(run: Run, content: Text)
    requires
        run.wf(),
        run.stage == Stage::Audit,
        audit::asks_revision(json::parsed_json(content)),
    ensures
        match run.after(Ok(content)) {
            Ok(next) => match asked(next) {
                Some(ask) => {
                    &&& text::occurs_in(
                        "\n\nCURRENT_ANSWER:\n"@ + run.answer + "\n\nAUDIT:\n"@,
                        user_text(ask),
                    )
                    &&& text::occurs_in(
                        "\n\nAUDIT:\n"@ + content + "\n\nFACTS:\n"@,
                        user_text(ask),
                    )
                },
                None => false,
            },
            Err(_) => false,
        },
{
    prompts::law_revision_input(run.question, run.answer, content, run.kept);
}

/// Facts, choices and audits are asked for as JSON in one piece; answers come piece by piece and as
/// they are. Nothing is asked for once an answer is done.
pub proof fn law_forms_of_requests(run: Run)
    ensures
        asked(run) is None <==> run.stage == Stage::Done,
        match asked(run) {
            Some(ask) => {
                &&& ask.stream <==> run.stage == Stage::Synthesize || run.stage == Stage::Revise
                &&& ask.json_mode <==> !ask.stream
                &&& ask.max_tokens == if run.stage == Stage::Extract {
                    1400u32
                } else if run.stage == Stage::Reduce {
                    1200
                } else if run.stage == Stage::Synthesize {
                    3500
                } else if run.stage == Stage::Revise {
                    3000
                } else {
                    1500
                }
            },
            None => true,
        },
{
}

/// A reply to an extraction adds its facts behind those found before, and each repeats an item of the
/// reply.
pub proof fn law_new_facts_repeat_reply(run: Run, content: Text, k: int) -> (j: int)
    requires
        run.wf(),
        run.stage == Stage::Extract,
        run.after(Ok(content)) is Ok,
        run.facts.len() <= k < run.after(Ok(content))->Ok_0.facts.len(),
    ensures
        0 <= j < json::listed(json::parsed_json(content), "facts"@).len(),
        facts::repeats(
            json::listed(json::parsed_json(content), "facts"@)[j],
            run.after(Ok(content))->Ok_0.facts[k],
        ),
{
    let items = json::listed(json::parsed_json(content), "facts"@);
    let from = facts::law_facts_repeat_items(items, run.batches[run.next]);
    from[k - run.facts.len()]
}

/// An answer is made of all facts where they are few enough, and otherwise of those that the reduction
/// keeps. Where there are none, the answer says so and is audited like any other.
pub proof fn law_answers_are_made_of_facts(run: Run, content: Text)
    requires
        run.wf(),
        run.stage == Stage::Extract,
        run.next + 1 == run.batches.len(),
        run.after(Ok(content)) is Ok,
    ensures
        ({
            let next = run.after(Ok(content))->Ok_0;
            if next.facts.len() > 120 {
                next.stage == Stage::Reduce
            } else if next.facts.len() > 0 {
                next.stage == Stage::Synthesize && next.kept == next.facts
            } else {
                next.stage == Stage::Audit && text::occurs_in("根拠が見つかりません"@, next.answer)
            }
        }),
{
    let next = run.after(Ok(content))->Ok_0;
    if next.facts.len() == 0 {
        reveal_strlit("根拠が見つかりません");
        reveal_strlit("根拠が見つかりません。選択中のsource内に、この質問へ回答できる事実は抽出されませんでした。");
        assert(text::occurs_at("根拠が見つかりません"@, next.answer, 0)) by {
            assert(next.answer.subrange(0, 10) =~= "根拠が見つかりません"@);
        }
    }
}

/// An answer begins with the first batch; where there is none, it says that there are no facts.
pub proof fn law_first_state(
    question: Text,
    profile: QuestionProfile,
    hierarchy: HierarchyContext,
    batches: Seq<Seq<ChunkRecord>>,
)
    ensures
        ({
            let run = first_state(question, profile, hierarchy, batches);
            &&& run.wf()
            &&& run.question == question
            &&& run.batches == batches
            &&& run.facts.len() == 0
            &&& batches.len() > 0 ==> run.stage == Stage::Extract && run.next == 0
            &&& batches.len() == 0 ==> run.stage == Stage::Audit
        }),
{
}

/// The batches are read one after the other, and no reply is asked for twice.
pub proof fn law_batches_in_order(run: Run, content: Text)
    requires
        run.wf(),
        run.stage == Stage::Extract,
    ensures
        match run.after(Ok(content)) {
            Ok(next) => {
                &&& next.next == run.next + 1
                &&& next.next < run.batches.len() <==> next.stage == Stage::Extract
            },
            Err(_) => false,
        },
{
}

/// The answer is made of the facts whose numbers the reply to a reduction names.
pub proof fn law_named_facts_are_kept(run: Run, content: Text, reply: json::Json, i: int)
    requires
        run.wf(),
        run.stage == Stage::Reduce,
        json::parsed_json(content) == Some(reply),
        match reply.field("keep_indexes"@) {
            Some(list) => match list.items() {
                Some(items) => 0 <= i < items.len() <= 120 && match items[i].natural() {
                    Some(n) => 1 <= n <= run.facts.len(),
                    None => false,
                },
                None => false,
            },
            None => false,
        },
    ensures
        match run.after(Ok(content)) {
            Ok(next) => {
                &&& next.stage == Stage::Synthesize
                &&& next.kept.contains(
                    run.facts[reply.field("keep_indexes"@).unwrap().items().unwrap()[i].natural().unwrap()
                        - 1],
                )
            },
            Err(_) => false,
        },
{
    facts::law_reduction_keeps_named(run.facts, reply, i);
    facts::law_reduction(run.facts, Some(reply));
}

/// An audit without an objection is the record of the answer; a second audit is put on record together
/// with the first one; and where an audit cannot be had, the answer stands without it.
pub proof fn law_audits_are_recorded(run: Run, content: Text, error: Text)
    requires
        run.wf(),
        run.stage == Stage::Audit || run.stage == Stage::Reaudit,
    ensures
        run.stage == Stage::Audit ==> run.after(Err(error)) == Ok::<Run, Text>(
            Run { audit: None, stage: Stage::Done, ..run },
        ),
        run.stage == Stage::Audit && !audit::asks_revision(json::parsed_json(content)) ==> run.after(
            Ok(content),
        ) == Ok::<Run, Text>(Run { audit: Some(content), stage: Stage::Done, ..run }),
        run.stage == Stage::Reaudit ==> match run.after(Ok(content)) {
            Ok(next) => {
                &&& next.stage == Stage::Done
                &&& next.answer == run.answer
                &&& next.audit is Some
                &&& text::occurs_in(
                    "{\"final\":"@ + audit::last_entry(Some(content)),
                    next.audit.unwrap(),
                )
                &&& text::occurs_in(
                    ",\"initial\":"@ + audit::last_entry(run.audit),
                    next.audit.unwrap(),
                )
            },
            Err(_) => false,
        },
{
    if run.stage == Stage::Reaudit {
        let first = audit::last_entry(run.audit);
        let last = audit::last_entry(Some(content));
        let record = audit::audit_record(first, last);
        assert(run.after(Ok(content))->Ok_0.audit == Some(record));
        audit::law_record_holds_audits(first, last);
        assert(text::occurs_in("{\"final\":"@ + last + ",\"initial\":"@, record));
        text::lemma_occurs_self(record);
        lemma_labelled("{\"final\":"@ + last, ",\"initial\":"@, record, record);
        lemma_labelled(",\"initial\":"@ + first, ",\"revision_applied\":true}"@, record, record);
    }
}

/// Every stage has an instruction of its own.
pub proof fn law_instructions(run: Run)
    ensures
        match asked(run) {
            Some(ask) => {
                &&& run.stage == Stage::Extract ==> ask.messages[0].1 == prompts::EXTRACTION_SYSTEM@
                &&& run.stage == Stage::Reduce ==> ask.messages[0].1 == prompts::REDUCTION_SYSTEM@
                &&& run.stage == Stage::Synthesize ==> ask.messages[0].1 == prompts::SYNTHESIS_SYSTEM@
                &&& run.stage == Stage::Audit || run.stage == Stage::Reaudit ==> ask.messages[0].1
                    == prompts::FACT_AUDIT_SYSTEM@
                &&& run.stage == Stage::Revise ==> ask.messages[0].1 == prompts::REVISION_SYSTEM@
            },
            None => run.stage == Stage::Done,
        },
{
}

/// A question is sent as it is to learn what it asks for.
pub proof fn law_profile_request(question: Text)
    ensures
        profile_asked(question).messages.len() == 2,
        profile_asked(question).messages[0] == ("system"@, prompts::PROFILE_SYSTEM@),
        profile_asked(question).messages[1] == ("user"@, question),
        profile_asked(question).json_mode,
        !profile_asked(question).stream,
        profile_asked(question).max_tokens == 800,
{
}

/// An answer from hits alone is asked for with the question and with as many of the first hits as fit,
/// each under its number, from one on.
pub proof fn law_plain_request(question: Text, hits: Seq<SearchHit>, max: nat) -> (n: int)
    ensures
        0 <= n <= hits.len(),
        ({
            let ask = plain_asked(question, hits, max);
            &&& ask.messages.len() == 2
            &&& ask.messages[0] == ("system"@, prompts::ANSWER_SYSTEM@)
            &&& ask.messages[1].0 == "user"@
            &&& text::occurs_at("質問:\n"@ + question + "\n\nSOURCE:\n"@, user_text(ask), 0)
            &&& forall|i: int|
                0 <= i < n ==> text::occurs_in(
                    prompts::hit_block((i + 1) as nat, #[trigger] hits[i]),
                    user_text(ask),
                )
            &&& n < hits.len() ==> prompts::context_of_hits(hits, max).len() + prompts::hit_block(
                (n + 1) as nat,
                hits[n],
            ).len() > max
            &&& ask.stream
            &&& !ask.json_mode
            &&& ask.max_tokens == 2000
        }),
{
    let source = prompts::context_of_hits(hits, max);
    let ask = plain_asked(question, hits, max);
    prompts::law_plain_inputs(question, question, source);
    let n = prompts::law_hits_fit(hits, max);
    assert forall|i: int| 0 <= i < n implies text::occurs_in(
        prompts::hit_block((i + 1) as nat, #[trigger] hits[i]),
        user_text(ask),
    ) by {
        let block = prompts::hit_block((i + 1) as nat, hits[i]);
        text::lemma_middle_occurs("\n\nSOURCE:\n"@, source, prompts::ANSWER_NOTES@);
        text::lemma_occurs_transitive(
            source,
            "\n\nSOURCE:\n"@ + source + prompts::ANSWER_NOTES@,
            user_text(ask),
        );
        text::lemma_occurs_transitive(block, source, user_text(ask));
    }
    n
}

/// The audit of an answer from hits alone reads that answer and the hits that the answer was made of.
/// Two different answers make two different requests.
pub proof fn law_plain_audit_request(
    question: Text,
    answer: Text,
    other: Text,
    hits: Seq<SearchHit>,
    max: nat,
)
    ensures
        ({
            let ask = plain_audit_asked(answer, hits, max);
            let source = prompts::context_of_hits(hits, max);
            &&& ask.messages.len() == 2
            &&& ask.messages[0] == ("system"@, prompts::AUDIT_SYSTEM@)
            &&& ask.messages[1].0 == "user"@
            &&& user_text(ask) == "ANSWER:\n"@ + answer + "\n\nSOURCE:\n"@ + source
            &&& text::occurs_in(source, user_text(plain_asked(question, hits, max)))
            &&& answer != other ==> user_text(ask) != user_text(plain_audit_asked(other, hits, max))
            &&& !ask.stream
            &&& ask.json_mode
            &&& ask.max_tokens == 1000
        }),
{
    let source = prompts::context_of_hits(hits, max);
    let input = user_text(plain_asked(question, hits, max));
    prompts::law_plain_inputs(question, answer, source);
    prompts::law_plain_inputs(question, other, source);
    text::lemma_middle_occurs("\n\nSOURCE:\n"@, source, prompts::ANSWER_NOTES@);
    text::lemma_occurs_transitive(
        source,
        "\n\nSOURCE:\n"@ + source + prompts::ANSWER_NOTES@,
        input,
    );
    if answer != other {
        let one = "ANSWER:\n"@ + answer + ("\n\nSOURCE:\n"@ + source);
        let two = "ANSWER:\n"@ + other + ("\n\nSOURCE:\n"@ + source);
        prompts::lemma_middle_tells_apart("ANSWER:\n"@, answer, other, "\n\nSOURCE:\n"@ + source);
        assert("ANSWER:\n"@ + answer + "\n\nSOURCE:\n"@ + source =~= one);
        assert("ANSWER:\n"@ + other + "\n\nSOURCE:\n"@ + source =~= two);
    }
}

} // verus!
