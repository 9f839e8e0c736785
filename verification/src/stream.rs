//! A reply of the language model that comes piece by piece.

use vstd::prelude::*;
use vstd::string::*;

use crate::api;
use crate::json;
use crate::text;
use crate::text::Text;

verus! {

/// What a line of the stream does.
pub enum Effect {
    Nothing,
    /// It ends the answer.
    Finish,
    /// It adds to the answer.
    Add(Text),
}

/// What a line of the stream carries, if it is a line of data.
pub open spec fn payload(raw: Text) -> Option<Text> {
    let line = text::trimmed(raw);
    if text::begins_with(line, "data:"@) {
        Some(text::trimmed(text::without_prefix(line, "data:"@)))
    } else {
        None
    }
}

/// What a line of the stream does.
pub open spec fn effect_of(raw: Text) -> Effect {
    match payload(raw) {
        None => Effect::Nothing,
        Some(data) => if data == "[DONE]"@ {
            Effect::Finish
        } else {
            match json::parsed_json(data) {
                Some(value) => match api::first_choice(value, "delta"@) {
                    Some(s) => Effect::Add(s),
                    None => Effect::Nothing,
                },
                None => Effect::Nothing,
            }
        },
    }
}

/// What of the stream was read: the line that is not complete yet, the answer so far, and whether it
/// ended.
pub struct Progress {
    pub pending: Text,
    pub answer: Text,
    pub done: bool,
}

/// After one line.
pub open spec fn after_line(progress: Progress, effect: Effect) -> Progress {
    match effect {
        Effect::Nothing => progress,
        Effect::Finish => Progress { done: true, ..progress },
        Effect::Add(s) => Progress { answer: progress.answer + s, ..progress },
    }
}

/// After all complete lines, up to the one that ends the answer.
pub open spec fn drained(progress: Progress) -> Progress
    decreases progress.pending.len(),
{
    if progress.done {
        progress
    } else {
        proof {
            text::lemma_first_from("\n"@, progress.pending, 0);
            reveal_strlit("\n");
        }
        match text::first_from("\n"@, progress.pending, 0) {
            Some(p) => drained(
                after_line(
                    Progress { pending: progress.pending.skip(p as int + 1), ..progress },
                    effect_of(progress.pending.take(p as int)),
                ),
            ),
            None => progress,
        }
    }
}

/// After another piece of the stream.
pub open spec fn fed(progress: Progress, piece: Text) -> Progress {
    drained(Progress { pending: progress.pending + piece, ..progress })
}

/// What the complete lines add to the answer, line by line, up to the one that ends the answer.
pub open spec fn deltas(progress: Progress) -> Seq<Text>
    decreases progress.pending.len(),
{
    if progress.done {
        Seq::empty()
    } else {
        proof {
            text::lemma_first_from("\n"@, progress.pending, 0);
            reveal_strlit("\n");
        }
        match text::first_from("\n"@, progress.pending, 0) {
            Some(p) => {
                let effect = effect_of(progress.pending.take(p as int));
                let rest = Progress { pending: progress.pending.skip(p as int + 1), ..progress };
                (match effect {
                    Effect::Add(s) => seq![s],
                    _ => Seq::empty(),
                }) + deltas(after_line(rest, effect))
            },
            None => Seq::empty(),
        }
    }
}

/// What another piece of the stream adds to the answer, line by line.
pub open spec fn added(progress: Progress, piece: Text) -> Seq<Text> {
    deltas(Progress { pending: progress.pending + piece, ..progress })
}

/// A reply that comes piece by piece.
pub struct ReplyStream {
    pending: String,
    answer: String,
    done: bool,
}

impl View for ReplyStream {
    type V = Progress;

    closed spec fn view(&self) -> Progress {
        Progress { pending: self.pending@, answer: self.answer@, done: self.done }
    }
}

/// What a line of the stream does, as far as it adds to the answer; `None` if it ends it.
fn read_line(raw: &str) -> (r: Option<Option<String>>)
    ensures
        match r {
            None => effect_of(raw@) is Finish,
            Some(Some(s)) => effect_of(raw@) == Effect::Add(s@),
            Some(None) => effect_of(raw@) is Nothing,
        },
{
    let line = text::trim(raw);
    if !text::starts_with(line, "data:") {
        return Some(None);
    }
    let data = text::trim(text::strip_prefix_repeats(line, "data:"));
    if text::same_text(data, "[DONE]") {
        return None;
    }
    match json::parse_json(data) {
        Some(value) => match api::reply_delta(&value) {
            Some(s) => Some(Some(text::copy_text(s))),
            None => Some(None),
        },
        None => Some(None),
    }
}

impl ReplyStream {
    /// A stream of which nothing was read yet.
    pub fn new() -> (r: Self)
        ensures
            r@.pending.len() == 0,
            r@.answer.len() == 0,
            !r@.done,
    {
        ReplyStream { pending: String::new(), answer: String::new(), done: false }
    }

    /// Whether the answer ended.
    pub fn is_done(&self) -> (r: bool)
        ensures
            r == self@.done,
    {
        self.done
    }

    /// The answer so far.
    pub fn answer(&self) -> (r: &str)
        ensures
            r@ == self@.answer,
    {
        self.answer.as_str()
    }

    /// Reads another piece of the stream and gives what it adds to the answer, line by line.
    pub fn feed(&mut self, piece: &str) -> (r: Vec<String>)
        ensures
            final(self)@ == fed(old(self)@, piece@),
            text::texts(r@) == added(old(self)@, piece@),
            final(self)@.answer == old(self)@.answer + text::concat(text::texts(r@)),
    {
        let ghost start = self@.answer;
        let ghost goal = fed(self@, piece@);
        let ghost all = added(self@, piece@);
        let mut out: Vec<String> = Vec::new();
        self.pending.append(piece);
        proof {
            assert(text::texts(out@) =~= Seq::<Text>::empty());
            assert(start + text::concat(text::texts(out@)) =~= start);
            assert(text::texts(out@) + deltas(self@) =~= all);
        }
        let mut open = !self.done;
        while open
            invariant
                drained(self@) == goal,
                text::texts(out@) + deltas(self@) == all,
                self@.answer == start + text::concat(text::texts(out@)),
                open ==> !self@.done,
                !open ==> self@ == goal,
                !open ==> deltas(self@).len() == 0,
            decreases self.pending@.len(), open as nat,
        {
            let ghost now = self@;
            let ghost given = text::texts(out@);
            proof {
                reveal_strlit("\n");
                text::lemma_first_from("\n"@, self.pending@, 0);
            }
            match text::find(self.pending.as_str(), "\n") {
                Some(p) => {
                    let chars = text::chars_of(self.pending.as_str());
                    let total = chars.len();
                    let line = text::text_between(&chars, 0, p);
                    let rest = text::text_between(&chars, p + 1, total);
                    proof {
                        assert(line@ =~= now.pending.take(p as int));
                        assert(rest@ =~= now.pending.skip(p as int + 1));
                    }
                    self.pending = rest;
                    match read_line(line.as_str()) {
                        None => {
                            self.done = true;
                            open = false;
                            assert(given + deltas(self@) =~= all);
                        },
                        Some(Some(s)) => {
                            self.answer.append(s.as_str());
                            out.push(s);
                            proof {
                                assert(text::texts(out@) =~= given.push(s@));
                                assert(text::texts(out@).drop_last() =~= given);
                                assert(start + text::concat(text::texts(out@)) =~= now.answer + s@);
                                assert(given.push(s@) + deltas(self@) =~= all);
                            }
                        },
                        Some(None) => {
                            assert(given + deltas(self@) =~= all);
                        },
                    }
                },
                None => {
                    open = false;
                },
            }
        }
        assert(text::texts(out@) + deltas(self@) =~= text::texts(out@));
        out
    }

    /// Reads another piece of the stream, in bytes.
    pub fn feed_bytes(&mut self, bytes: &[u8]) -> (r: Vec<String>)
        ensures
            final(self)@ == fed(old(self)@, text::lossy_text(bytes@)),
            text::texts(r@) == added(old(self)@, text::lossy_text(bytes@)),
            final(self)@.answer == old(self)@.answer + text::concat(text::texts(r@)),
    {
        let piece = text::decode_lossy(bytes);
        self.feed(piece.as_str())
    }
}

/// Whether two states of a stream agree: on the answer, on whether it ended, and, as long as it has
/// not, on the line that is not complete yet.
pub open spec fn agree(a: Progress, b: Progress) -> bool {
    a.answer == b.answer && a.done == b.done && (a.done || a.pending == b.pending)
}

proof fn lemma_first_break(a: Text, b: Text)
    ensures
        match text::first_from("\n"@, a, 0) {
            Some(p) => text::first_from("\n"@, a + b, 0) == Some(p),
            None => true,
        },
{
    reveal_strlit("\n");
    text::lemma_first_from("\n"@, a, 0);
    text::lemma_first_from("\n"@, a + b, 0);
    match text::first_from("\n"@, a, 0) {
        Some(p) => {
            assert((a + b).subrange(p as int, p as int + 1) =~= a.subrange(p as int, p as int + 1));
            assert(text::occurs_at("\n"@, a + b, p as int));
            match text::first_from("\n"@, a + b, 0) {
                Some(q) => {
                    if q < p {
                        assert((a + b).subrange(q as int, q as int + 1) =~= a.subrange(q as int, q as int + 1));
                        assert(text::occurs_at("\n"@, a, q as int));
                    }
                },
                None => {},
            }
        },
        None => {},
    }
}

proof fn lemma_drained_in_steps(progress: Progress, more: Text)
    ensures
        agree(fed(drained(progress), more), fed(progress, more)),
        deltas(progress) + added(drained(progress), more) == added(progress, more),
    decreases progress.pending.len(),
{
    if !progress.done {
        reveal_strlit("\n");
        text::lemma_first_from("\n"@, progress.pending, 0);
        lemma_first_break(progress.pending, more);
        match text::first_from("\n"@, progress.pending, 0) {
            Some(p) => {
                let k = p as int;
                assert((progress.pending + more).take(k) =~= progress.pending.take(k));
                assert((progress.pending + more).skip(k + 1) =~= progress.pending.skip(k + 1) + more);
                let rest = Progress { pending: progress.pending.skip(k + 1), ..progress };
                let next = after_line(rest, effect_of(progress.pending.take(k)));
                lemma_drained_in_steps(next, more);
                assert(fed(progress, more) == drained(
                    after_line(
                        Progress { pending: progress.pending.skip(k + 1) + more, ..progress },
                        effect_of(progress.pending.take(k)),
                    ),
                ));
                assert(deltas(progress) + added(drained(progress), more) =~= added(progress, more));
            },
            None => {
                assert(deltas(progress) + added(progress, more) =~= added(progress, more));
            },
        }
    } else {
        assert(deltas(progress) + added(progress, more) =~= added(progress, more));
    }
}

/// It does not matter how the text of a stream is cut into pieces, neither for the answer nor for what
/// is added to it line by line.
pub proof fn law_pieces_do_not_matter(progress: Progress, first: Text, second: Text)
    ensures
        agree(fed(fed(progress, first), second), fed(progress, first + second)),
        added(progress, first) + added(fed(progress, first), second) == added(
            progress,
            first + second,
        ),
{
    lemma_drained_in_steps(
        Progress { pending: progress.pending + first, ..progress },
        second,
    );
    assert(progress.pending + first + second =~= progress.pending + (first + second));
}

/// What follows the end of the answer changes nothing in it.
pub proof fn law_nothing_after_end(progress: Progress, piece: Text)
    requires
        progress.done,
    ensures
        agree(fed(progress, piece), progress),
        added(progress, piece).len() == 0,
{
}

proof fn lemma_one_line(progress: Progress, raw: Text)
    requires
        !progress.done,
        progress.pending.len() == 0,
        !raw.contains('\n'),
    ensures
        fed(progress, raw + "\n"@) == after_line(progress, effect_of(raw)),
{
    reveal_strlit("\n");
    let none: Text = Seq::empty();
    let line = raw + "\n"@;
    let n = raw.len() as int;
    assert(progress.pending =~= none);
    assert(progress.pending + line =~= line);
    assert(line.subrange(n, n + 1) =~= "\n"@);
    assert(text::occurs_at("\n"@, line, n));
    text::lemma_first_from("\n"@, line, 0);
    text::lemma_first_from("\n"@, none, 0);
    let p = text::first_from("\n"@, line, 0).unwrap() as int;
    if p < n {
        assert(line.subrange(p, p + 1)[0] == '\n');
        assert(raw[p] == '\n');
    }
    assert(p == n);
    assert(line.take(n) =~= raw);
    assert(line.skip(n + 1) =~= none);
    let rest = Progress { pending: none, ..progress };
    assert(rest == progress);
    let next = after_line(progress, effect_of(raw));
    assert(drained(next) == next);
}

/// A line of data adds the text of its first choice to the answer, the end mark ends the answer, and a
/// line that is no data, or data without such a text, changes nothing.
pub proof fn law_data_lines(progress: Progress, data: Text, value: json::Json)
    requires
        !progress.done,
        progress.pending.len() == 0,
        !data.contains('\n'),
        data.len() > 0,
        text::trimmed(data) == data,
    ensures
        data == "[DONE]"@ ==> fed(progress, "data: "@ + data + "\n"@) == (Progress {
            done: true,
            ..progress
        }),
        data != "[DONE]"@ && json::parsed_json(data) == Some(value) ==> fed(
            progress,
            "data: "@ + data + "\n"@,
        ) == match api::first_choice(value, "delta"@) {
            Some(s) => (Progress { answer: progress.answer + s, ..progress }),
            None => progress,
        },
        data != "[DONE]"@ && json::parsed_json(data) is None ==> fed(
            progress,
            "data: "@ + data + "\n"@,
        ) == progress,
        !text::begins_with(data, "data:"@) ==> fed(progress, data + "\n"@) == progress,
{
    reveal_strlit("data: ");
    reveal_strlit("data:");
    let raw = "data: "@ + data;
    text::lemma_trimmed_ends(data);
    assert(raw[0] == 'd');
    assert(raw.last() == data.last());
    text::lemma_trimmed_by_ends(raw);
    assert(raw.subrange(0, 5) =~= "data:"@);
    let spaced = raw.skip(5);
    assert(spaced =~= seq![' '] + data);
    assert(spaced[0] == ' ');
    if text::begins_with(spaced, "data:"@) {
        assert(spaced.subrange(0, 5)[0] == 'd');
    }
    assert("data:"@ + spaced =~= raw);
    text::law_without_prefix(spaced, "data:"@);
    assert(spaced.skip(1) =~= data);
    assert(text::trimmed(spaced) == text::trimmed(data));
    assert(payload(raw) == Some(data));
    if raw.contains('\n') {
        let k = choose|k: int| 0 <= k < raw.len() && raw[k] == '\n';
        if k >= 6 {
            assert(data[k - 6] == '\n');
        }
    }
    lemma_one_line(progress, raw);
    lemma_one_line(progress, data);
    if !text::begins_with(data, "data:"@) {
        assert(payload(data) is None);
    }
}

} // verus!
