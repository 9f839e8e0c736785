//! Requests to the language model: their body, their failures and when they are tried again.

use vstd::prelude::*;
use vstd::string::*;

use crate::json;
use crate::json::Json;
use crate::prompts;
use crate::prompts::Message;
use crate::settings::Settings;
use crate::text;
use crate::text::Text;

verus! {

// ---------------------------------------------------------------------------------------------
// The body of a request

/// Whether a value is a text with the given content.
pub open spec fn is_text(value: Option<Json>, s: Text) -> bool {
    match value {
        Some(value) => value.text() == Some(s),
        None => false,
    }
}

/// The names of the fields of an object, in order.
pub open spec fn field_names(value: Json) -> Seq<Text> {
    match value {
        Json::Object(fields) => Seq::new(fields@.len(), |k: int| fields@[k].0@),
        _ => Seq::empty(),
    }
}

/// Whether a value is an object that has a field `type`, says there what it is, and says no more.
pub open spec fn has_type(value: Option<Json>, s: Text) -> bool {
    match value {
        Some(value) => is_text(value.field("type"@), s) && field_names(value) == seq!["type"@],
        None => false,
    }
}

/// Whether a value is a message.
pub open spec fn is_message(value: Json, message: (Text, Text)) -> bool {
    &&& is_text(value.field("role"@), message.0)
    &&& is_text(value.field("content"@), message.1)
    &&& field_names(value) == seq!["role"@, "content"@]
}

/// Whether a value is a list of messages.
pub open spec fn are_messages(value: Option<Json>, messages: Seq<(Text, Text)>) -> bool {
    match value {
        Some(value) => match value.items() {
            Some(items) => items.len() == messages.len() && forall|i: int|
                0 <= i < items.len() ==> is_message(#[trigger] items[i], messages[i]),
            None => false,
        },
        None => false,
    }
}

fn text_value(s: &str) -> (r: Json)
    ensures
        r.text() == Some(s@),
{
    Json::Text(text::copy_text(s))
}

fn type_value(s: &str) -> (r: Json)
    ensures
        has_type(Some(r), s@),
{
    let mut fields: Vec<(String, Json)> = Vec::new();
    fields.push((text::copy_text("type"), text_value(s)));
    let r = Json::Object(fields);
    assert(field_names(r) =~= seq!["type"@]);
    r
}

fn message_value(message: &Message) -> (r: Json)
    ensures
        is_message(r, (message.role@, message.content@)),
{
    proof {
        reveal_strlit("role");
        reveal_strlit("content");
    }
    let mut fields: Vec<(String, Json)> = Vec::new();
    fields.push((text::copy_text("role"), text_value(message.role.as_str())));
    fields.push((text::copy_text("content"), text_value(message.content.as_str())));
    proof {
        assert("role"@.len() != "content"@.len());
        assert(fields@.skip(1)[0] == fields@[1]);
        assert(json::lookup(fields@, "content"@) == json::lookup(fields@.skip(1), "content"@));
    }
    let r = Json::Object(fields);
    assert(field_names(r) =~= seq!["role"@, "content"@]);
    r
}

fn message_values(messages: &Vec<Message>) -> (r: Json)
    ensures
        are_messages(Some(r), prompts::said(messages@)),
{
    let mut items: Vec<Json> = Vec::new();
    for i in 0..messages.len()
        invariant
            items@.len() == i,
            forall|k: int|
                0 <= k < i ==> is_message(#[trigger] items@[k], prompts::said(messages@)[k]),
    {
        items.push(message_value(&messages[i]));
    }
    Json::List(items)
}

/// The names of the fields of a request, but for the temperature, each once.
pub open spec fn body_names(thinking: bool, json_mode: bool) -> Seq<Text> {
    seq!["model"@, "messages"@, "max_tokens"@, "stream"@, "thinking"@] + (if thinking {
        seq!["reasoning_effort"@]
    } else {
        Seq::empty()
    }) + (if json_mode {
        seq!["response_format"@]
    } else {
        Seq::empty()
    })
}

/// The body of a request, but for the temperature. The effort of reasoning is named only where
/// thinking is enabled, and the form of the reply only where it is to be JSON.
pub fn build_deepseek_body(
    settings: &Settings,
    messages: &Vec<Message>,
    max_tokens: u32,
    json_mode: bool,
    stream: bool,
) -> (r: Json)
    ensures
        is_text(r.field("model"@), settings.model@),
        are_messages(r.field("messages"@), prompts::said(messages@)),
        r.field("max_tokens"@) == Some(Json::Int(max_tokens as i64)),
        r.field("stream"@) == Some(Json::Bool(stream)),
        has_type(
            r.field("thinking"@),
            if settings.thinking_enabled {
                "enabled"@
            } else {
                "disabled"@
            },
        ),
        settings.thinking_enabled ==> is_text(
            r.field("reasoning_effort"@),
            settings.reasoning_effort@,
        ),
        json_mode ==> has_type(r.field("response_format"@), "json_object"@),
        field_names(r) == body_names(settings.thinking_enabled, json_mode),
{
    let mut fields: Vec<(String, Json)> = Vec::new();
    fields.push((text::copy_text("model"), text_value(settings.model.as_str())));
    fields.push((text::copy_text("messages"), message_values(messages)));
    fields.push((text::copy_text("max_tokens"), Json::Int(max_tokens as i64)));
    fields.push((text::copy_text("stream"), Json::Bool(stream)));
    fields.push(
        (
            text::copy_text("thinking"),
            type_value(
                if settings.thinking_enabled {
                    "enabled"
                } else {
                    "disabled"
                },
            ),
        ),
    );
    if settings.thinking_enabled {
        fields.push(
            (text::copy_text("reasoning_effort"), text_value(settings.reasoning_effort.as_str())),
        );
    }
    if json_mode {
        fields.push((text::copy_text("response_format"), type_value("json_object")));
    }
    proof {
        lemma_body_names();
        let all = fields@;
        lemma_lookup_at(all, "model"@, 0);
        lemma_lookup_at(all, "messages"@, 1);
        lemma_lookup_at(all, "max_tokens"@, 2);
        lemma_lookup_at(all, "stream"@, 3);
        lemma_lookup_at(all, "thinking"@, 4);
        if settings.thinking_enabled {
            lemma_lookup_at(all, "reasoning_effort"@, 5);
        }
        if json_mode {
            lemma_lookup_at(all, "response_format"@, all.len() - 1);
        }
    }
    let r = Json::Object(fields);
    assert(field_names(r) =~= body_names(settings.thinking_enabled, json_mode));
    r
}

proof fn lemma_body_names()
    ensures
        "model"@.len() == 5,
        "messages"@.len() == 8,
        "messages"@[0] == 'm',
        "max_tokens"@.len() == 10,
        "stream"@.len() == 6,
        "thinking"@.len() == 8,
        "thinking"@[0] == 't',
        "reasoning_effort"@.len() == 16,
        "response_format"@.len() == 15,
{
    reveal_strlit("model");
    reveal_strlit("messages");
    reveal_strlit("max_tokens");
    reveal_strlit("stream");
    reveal_strlit("thinking");
    reveal_strlit("reasoning_effort");
    reveal_strlit("response_format");
}

proof fn lemma_lookup_at(fields: Seq<(String, Json)>, key: Text, i: int)
    requires
        0 <= i < fields.len(),
        fields[i].0@ == key,
        forall|k: int| 0 <= k < i ==> (#[trigger] fields[k]).0@ != key,
    ensures
        json::lookup(fields, key) == Some(fields[i].1),
    decreases fields.len(),
{
    if i > 0 {
        assert(fields[0].0@ != key);
        let rest = fields.skip(1);
        assert forall|k: int| 0 <= k < i - 1 implies (#[trigger] rest[k]).0@ != key by {
            assert(fields[k + 1].0@ != key);
        }
        lemma_lookup_at(rest, key, i - 1);
    }
}

/// No field of a request is named twice.
pub proof fn law_body_names_distinct(thinking: bool, json_mode: bool)
    ensures
        body_names(thinking, json_mode).no_duplicates(),
{
    lemma_body_names();
}

// ---------------------------------------------------------------------------------------------
// Replies

/// What the first choice of a reply says under a name: the whole message, or a part of it.
pub open spec fn first_choice(reply: Json, part: Text) -> Option<Text> {
    let choices = json::listed(Some(reply), "choices"@);
    if choices.len() == 0 {
        None
    } else {
        match choices[0].field(part) {
            Some(message) => match message.field("content"@) {
                Some(content) => content.text(),
                None => None,
            },
            None => None,
        }
    }
}

fn read_choice<'a>(reply: &'a Json, part: &str) -> (r: Option<&'a str>)
    ensures
        match r {
            Some(s) => first_choice(*reply, part@) == Some(s@),
            None => first_choice(*reply, part@) is None,
        },
{
    match reply.get("choices") {
        Some(list) => match list.as_array() {
            Some(choices) => if choices.len() == 0 {
                None
            } else {
                match choices[0].get(part) {
                    Some(message) => match message.get("content") {
                        Some(content) => content.as_str(),
                        None => None,
                    },
                    None => None,
                }
            },
            None => None,
        },
        None => None,
    }
}

/// What a reply says; nothing where it has no message.
pub fn reply_content(reply: &Json) -> (r: String)
    ensures
        r@ == match first_choice(*reply, "message"@) {
            Some(s) => s,
            None => Seq::empty(),
        },
{
    match read_choice(reply, "message") {
        Some(s) => text::copy_text(s),
        None => String::new(),
    }
}

/// What the body of a reply says; none where it is no JSON.
pub fn read_reply(body: &str) -> (r: Option<String>)
    ensures
        match json::parsed_json(body@) {
            Some(reply) => r is Some && r.unwrap()@ == match first_choice(reply, "message"@) {
                Some(s) => s,
                None => Seq::empty(),
            },
            None => r is None,
        },
{
    match json::parse_json(body) {
        Some(reply) => Some(reply_content(&reply)),
        None => None,
    }
}

/// What a part of a streamed reply adds to the answer.
pub fn reply_delta<'a>(reply: &'a Json) -> (r: Option<&'a str>)
    ensures
        match r {
            Some(s) => first_choice(*reply, "delta"@) == Some(s@),
            None => first_choice(*reply, "delta"@) is None,
        },
{
    read_choice(reply, "delta")
}

// ---------------------------------------------------------------------------------------------
// Failures

/// Why a request failed.
pub struct ApiFailure {
    pub class_name: String,
    pub message: String,
    pub retry_after_ms: Option<u64>,
}

/// The value of decimal digits.
pub open spec fn digits_value(s: Text) -> nat
    decreases s.len(),
{
    if s.len() == 0 {
        0
    } else {
        10 * digits_value(s.drop_last()) + (s.last() as nat - '0' as nat) as nat
    }
}

/// Whether a text is made of decimal digits.
pub open spec fn is_digits(s: Text) -> bool {
    s.len() > 0 && forall|i: int| 0 <= i < s.len() ==> '0' <= #[trigger] s[i] <= '9'
}

/// The digits of a number that may have a plus sign.
pub open spec fn unsigned_part(s: Text) -> Text {
    if s.len() > 0 && s[0] == '+' {
        s.skip(1)
    } else {
        s
    }
}

/// The number of seconds that a text gives, if it gives one of 64 bits.
pub open spec fn seconds_of(raw: Text) -> Option<nat> {
    let digits = unsigned_part(text::trimmed(raw));
    if is_digits(digits) && digits_value(digits) <= u64::MAX {
        Some(digits_value(digits))
    } else {
        None
    }
}

proof fn lemma_digits_grow(s: Text, n: int)
    requires
        0 <= n <= s.len(),
        is_digits(s),
    ensures
        digits_value(s.take(n)) <= digits_value(s),
    decreases s.len() - n,
{
    if n < s.len() {
        lemma_digits_grow(s, n + 1);
        assert(s.take(n + 1).drop_last() =~= s.take(n));
    } else {
        assert(s.take(n) =~= s);
    }
}

/// The number of seconds that a text gives.
pub fn retry_seconds(raw: &str) -> (r: Option<u64>)
    ensures
        match r {
            Some(n) => seconds_of(raw@) == Some(n as nat),
            None => seconds_of(raw@) is None,
        },
{
    let chars = text::chars_of(text::trim(raw));
    let ghost s = text::trimmed(raw@);
    let from: usize = if chars.len() > 0 && chars[0] == '+' {
        1
    } else {
        0
    };
    let ghost digits = unsigned_part(s);
    if chars.len() == from {
        return None;
    }
    let mut value: u64 = 0;
    let total = chars.len();
    for i in from..total
        invariant
            chars@ == s,
            s == text::trimmed(raw@),
            digits == unsigned_part(s),
            digits == s.skip(from as int),
            from <= total == s.len(),
            from < total,
            forall|k: int| 0 <= k < i - from ==> '0' <= #[trigger] digits[k] <= '9',
            value == digits_value(digits.take(i - from)),
    {
        let c = chars[i];
        assert(digits[i - from] == c);
        if !('0' <= c && c <= '9') {
            return None;
        }
        let d = (c as u32 - '0' as u32) as u64;
        proof {
            assert(digits.take(i - from + 1).drop_last() =~= digits.take(i - from));
        }
        let next = 10 * (value as u128) + d as u128;
        if next > u64::MAX as u128 {
            proof {
                if is_digits(digits) {
                    lemma_digits_grow(digits, i - from + 1);
                }
            }
            return None;
        }
        value = next as u64;
    }
    assert(digits.take(digits.len() as int) =~= digits);
    Some(value)
}

/// The time to wait in milliseconds that a text gives in seconds.
pub fn parse_retry_after_ms(raw: &str) -> (r: Option<u64>)
    requires
        match seconds_of(raw@) {
            Some(n) => n * 1000 <= u64::MAX,
            None => true,
        },
    ensures
        match r {
            Some(ms) => seconds_of(raw@) is Some && ms == seconds_of(raw@).unwrap() * 1000,
            None => seconds_of(raw@) is None,
        },
{
    match retry_seconds(raw) {
        Some(seconds) => Some(seconds * 1000),
        None => None,
    }
}

/// A text in lower case.
pub uninterp spec fn lower_case(s: Seq<char>) -> Seq<char>;

/// `str::to_lowercase` gives the lower case of a text by the rules of Unicode. It depends on the text
/// alone and is given a name.
#[verifier::external_body]
pub(crate) fn to_lower_case(s: &str) -> (r: String)
    ensures
        r@ == lower_case(s@),
{
    s.to_lowercase()
}

/// What a failed request says: the message of its body, otherwise the body, otherwise its status.
pub open spec fn failure_message(reply: Option<Json>, body: Text, status_text: Text) -> Text {
    let given = match reply {
        Some(value) => match value.field("error"@) {
            Some(error) => match error.field("message"@) {
                Some(message) => message.text(),
                None => None,
            },
            None => None,
        },
        None => None,
    };
    match given {
        Some(s) => s,
        None => if text::is_blank(body) {
            status_text
        } else {
            body
        },
    }
}

/// The class of a failure by its status and its message in lower case.
pub open spec fn failure_class(status: u16, lower: Text) -> Text {
    if status == 401 || status == 403 {
        "auth"@
    } else if status == 429 {
        "rate_limit"@
    } else if status == 400 && text::occurs_in("context"@, lower) {
        "context_limit"@
    } else if status == 413 {
        "context_limit"@
    } else if 500 <= status < 600 {
        "server"@
    } else {
        "api_error"@
    }
}

/// What a failed request says, given how its body reads as JSON.
pub fn message_of_failure(reply: &Option<Json>, body: &str, status_text: &str) -> (r: String)
    ensures
        r@ == failure_message(*reply, body@, status_text@),
{
    if let Some(value) = reply {
        if let Some(error) = value.get("error") {
            if let Some(message) = error.get("message") {
                if let Some(s) = message.as_str() {
                    return text::copy_text(s);
                }
            }
        }
    }
    if text::blank(body) {
        text::copy_text(status_text)
    } else {
        text::copy_text(body)
    }
}

/// The class of a failure by its status and its message in lower case.
pub fn class_of_failure(status: u16, lower: &str) -> (r: String)
    ensures
        r@ == failure_class(status, lower@),
{
    if status == 401 || status == 403 {
        text::copy_text("auth")
    } else if status == 429 {
        text::copy_text("rate_limit")
    } else if status == 400 && text::contains(lower, "context") {
        text::copy_text("context_limit")
    } else if status == 413 {
        text::copy_text("context_limit")
    } else if 500 <= status && status < 600 {
        text::copy_text("server")
    } else {
        text::copy_text("api_error")
    }
}

/// The text of an optional header.
pub open spec fn header_text(header: Option<&str>) -> Option<Text> {
    match header {
        Some(s) => Some(s@),
        None => None,
    }
}

/// The time to wait in milliseconds that a header gives, if there is one that does.
pub open spec fn wait_of(header: Option<Text>) -> Option<nat> {
    match header {
        Some(s) => match seconds_of(s) {
            Some(n) => Some(n * 1000),
            None => None,
        },
        None => None,
    }
}

/// Why a request failed, by its status, its header `retry-after` and its body.
pub fn classify_api_failure(
    status: u16,
    status_text: &str,
    retry_after: Option<&str>,
    body: &str,
) -> (r: ApiFailure)
    requires
        match wait_of(header_text(retry_after)) {
            Some(ms) => ms <= u64::MAX,
            None => true,
        },
    ensures
        r.message@ == failure_message(json::parsed_json(body@), body@, status_text@),
        r.class_name@ == failure_class(status, lower_case(r.message@)),
        match r.retry_after_ms {
            Some(ms) => wait_of(header_text(retry_after)) == Some(ms as nat),
            None => wait_of(header_text(retry_after)) is None,
        },
{
    let retry_after_ms = match retry_after {
        Some(header) => parse_retry_after_ms(header),
        None => None,
    };
    let reply = json::parse_json(body);
    let message = message_of_failure(&reply, body, status_text);
    let lower = to_lower_case(message.as_str());
    let class_name = class_of_failure(status, lower.as_str());
    ApiFailure { class_name, message, retry_after_ms }
}

// ---------------------------------------------------------------------------------------------
// Trying again

/// The longest time that a request waits before it is tried again.
pub const MAX_SHORT_RATE_WAIT_MS: u64 = 15_000;

/// How often a request is tried again.
pub const MAX_RETRIES: usize = 2;

/// What follows a failed attempt.
pub enum AfterFailure {
    /// Wait this many milliseconds, show this status, and try again.
    Wait(u64, String),
    /// Show this status and give up with this error.
    Stop(String, String),
}

/// How long to wait after the failure of an attempt, counted from one; none to give up. A request is
/// tried again where the rate of requests was exceeded, the time to wait is known and short, and
/// there were few attempts.
pub open spec fn wait_after(attempt: nat, class: Text, retry_after_ms: Option<u64>) -> Option<u64> {
    if class == "rate_limit"@ && attempt <= MAX_RETRIES {
        match retry_after_ms {
            Some(ms) => if ms <= MAX_SHORT_RATE_WAIT_MS {
                Some(ms)
            } else {
                None
            },
            None => None,
        }
    } else {
        None
    }
}

/// What follows a failed attempt.
pub fn after_failure(attempt: usize, failure: &ApiFailure) -> (r: AfterFailure)
    ensures
        match r {
            AfterFailure::Wait(ms, status) => {
                &&& wait_after(attempt as nat, failure.class_name@, failure.retry_after_ms) == Some(
                    ms,
                )
                &&& status@ == text::concat(
                    seq![
                        "DeepSeek制限により"@,
                        text::decimal(((ms + 999) / 1000) as nat),
                        "秒待機しています"@,
                    ],
                )
            },
            AfterFailure::Stop(status, error) => {
                &&& wait_after(attempt as nat, failure.class_name@, failure.retry_after_ms) is None
                &&& status@ == "DeepSeek APIで停止しました: "@ + failure.message@
                &&& error@ == failure.class_name@ + ": "@ + failure.message@
            },
        },
{
    if text::same_text(failure.class_name.as_str(), "rate_limit") && attempt <= MAX_RETRIES {
        if let Some(ms) = failure.retry_after_ms {
            if ms <= MAX_SHORT_RATE_WAIT_MS {
                let seconds = text::decimal_text(((ms + 999) / 1000) as u128);
                let parts: Vec<&str> = vec![
                    "DeepSeek制限により",
                    seconds.as_str(),
                    "秒待機しています",
                ];
                assert(text::views(parts@) =~= seq![
                    "DeepSeek制限により"@,
                    text::decimal(((ms + 999) / 1000) as nat),
                    "秒待機しています"@,
                ]);
                let status = text::concat_all(&parts);
                return AfterFailure::Wait(ms, status);
            }
        }
    }
    let mut status = text::copy_text("DeepSeek APIで停止しました: ");
    status.append(failure.message.as_str());
    let mut error = failure.class_name.clone();
    error.append(": ");
    error.append(failure.message.as_str());
    AfterFailure::Stop(status, error)
}

/// A request is attempted at most three times, and waits only after its rate was exceeded, for a
/// short time.
pub proof fn law_few_attempts(attempt: nat, class: Text, retry_after_ms: Option<u64>)
    ensures
        attempt > MAX_RETRIES ==> wait_after(attempt, class, retry_after_ms) is None,
        match wait_after(attempt, class, retry_after_ms) {
            Some(ms) => class == "rate_limit"@ && ms <= MAX_SHORT_RATE_WAIT_MS,
            None => true,
        },
{
}

/// The error where no key is set.
pub const NO_KEY: &'static str = "DeepSeek API key が未設定です。設定画面で保存してください。";

/// The key for a request: none, but an error, where it is not set or blank.
pub fn key_for_request(settings: &Settings) -> (r: Result<String, String>)
    ensures
        match r {
            Ok(key) => settings.api_key is Some && key@ == settings.api_key.unwrap()@
                && !text::is_blank(key@),
            Err(error) => error@ == NO_KEY@ && (settings.api_key is None || text::is_blank(
                settings.api_key.unwrap()@,
            )),
        },
{
    match &settings.api_key {
        Some(key) => if text::blank(key.as_str()) {
            Err(text::copy_text(NO_KEY))
        } else {
            Ok(key.clone())
        },
        None => Err(text::copy_text(NO_KEY)),
    }
}

/// The status of a request as it is shown.
pub fn api_status(message: &str, attempt: usize, can_cancel: bool) -> (r: (&'static str, String))
    ensures
        r.0@ == if can_cancel {
            "running"@
        } else {
            "stopped"@
        },
        r.1@ == text::concat(seq![message@, " (attempt "@, text::decimal(attempt as nat), ")"@]),
{
    let number = text::decimal_text(attempt as u128);
    let parts: Vec<&str> = vec![message, " (attempt ", number.as_str(), ")"];
    assert(text::views(parts@) =~= seq![
        message@,
        " (attempt "@,
        text::decimal(attempt as nat),
        ")"@,
    ]);
    let status = if can_cancel {
        "running"
    } else {
        "stopped"
    };
    (status, text::concat_all(&parts))
}

// ---------------------------------------------------------------------------------------------
// Laws on replies and failures

/// The content of a reply is that of its first choice, where it is a text; no other choice is read.
pub proof fn law_first_choice(reply: Json, part: Text, message: Json, content: Json, s: Text)
    requires
        json::listed(Some(reply), "choices"@).len() > 0,
        json::listed(Some(reply), "choices"@)[0].field(part) == Some(message),
        message.field("content"@) == Some(content),
    ensures
        first_choice(reply, part) == Some(s) <==> content.text() == Some(s),
{
}

/// What kind of failure a status tells of.
pub proof fn law_failure_classes(status: u16, lower: Text)
    ensures
        status == 401 || status == 403 ==> failure_class(status, lower) == "auth"@,
        status == 429 ==> failure_class(status, lower) == "rate_limit"@,
        status == 413 ==> failure_class(status, lower) == "context_limit"@,
        status == 400 && text::occurs_in("context"@, lower) ==> failure_class(status, lower)
            == "context_limit"@,
        status == 400 && !text::occurs_in("context"@, lower) ==> failure_class(status, lower)
            == "api_error"@,
        500 <= status <= 599 ==> failure_class(status, lower) == "server"@,
        status == 402 || status == 404 || status == 422 || status >= 600 ==> failure_class(
            status,
            lower,
        ) == "api_error"@,
{
}

/// A failure is told in the words of the service where it gives some, otherwise in those of the whole
/// reply, and where that is blank in those of the status.
pub proof fn law_failure_messages(reply: Json, error: Json, s: Text, body: Text, status_text: Text)
    requires
        reply.field("error"@) == Some(error),
        error.field("message"@) is Some,
        error.field("message"@).unwrap().text() == Some(s),
    ensures
        failure_message(Some(reply), body, status_text) == s,
        !text::is_blank(body) ==> failure_message(None, body, status_text) == body,
        text::is_blank(body) ==> failure_message(None, body, status_text) == status_text,
{
}

proof fn lemma_digits_are_number(s: Text)
    requires
        forall|i: int| 0 <= i < s.len() ==> '0' <= #[trigger] s[i] <= '9',
    ensures
        digits_value(s) == text::number_of(s),
    decreases s.len(),
{
    if s.len() > 0 {
        let front = s.drop_last();
        assert forall|i: int| 0 <= i < front.len() implies '0' <= #[trigger] front[i] <= '9' by {
            assert(front[i] == s[i]);
        }
        lemma_digits_are_number(front);
        assert('0' <= s[s.len() - 1] <= '9');
    }
}

/// A number of seconds that is written in digits is read as that number, with or without a plus sign
/// and white space around it, and is waited for in milliseconds.
pub proof fn law_seconds(n: nat)
    requires
        n <= u64::MAX,
    ensures
        seconds_of(text::decimal(n)) == Some(n),
        seconds_of(seq!['+'] + text::decimal(n)) == Some(n),
        seconds_of(seq![' '] + text::decimal(n)) == Some(n),
        wait_of(Some(text::decimal(n))) == Some(1000 * n),
        wait_of(None) is None,
{
    let s = text::decimal(n);
    text::law_decimal(n);
    lemma_digits_are_number(s);
    assert('0' <= s[0] <= '9');
    assert('0' <= s[s.len() - 1] <= '9');
    text::lemma_trimmed_by_ends(s);
    let signed = seq!['+'] + s;
    assert(signed[0] == '+');
    assert(signed.last() == s.last());
    text::lemma_trimmed_by_ends(signed);
    assert(signed.skip(1) =~= s);
    let spaced = seq![' '] + s;
    assert(spaced[0] == ' ');
    assert(spaced.skip(1) =~= s);
    assert(text::trimmed(spaced) == text::trimmed(s));
}

/// What holds anything but digits behind a sign is no number of seconds.
pub proof fn law_no_seconds(raw: Text, k: int)
    requires
        text::trimmed(raw) == raw,
        1 <= k < raw.len(),
        !('0' <= raw[k] <= '9'),
    ensures
        seconds_of(raw) is None,
{
    let digits = unsigned_part(raw);
    if raw[0] == '+' {
        assert(digits[k - 1] == raw[k]);
    } else {
        assert(digits[k] == raw[k]);
    }
}

/// A request is tried again only after a rate limit, at most twice, and only where the wait is known
/// and no longer than fifteen seconds; then it is that long.
pub proof fn law_waits(attempt: nat, class: Text, ms: u64)
    ensures
        wait_after(attempt, class, Some(ms)) == if class == "rate_limit"@ && attempt <= 2 && ms <= 15000 {
            Some(ms)
        } else {
            None
        },
        wait_after(attempt, class, None) is None,
{
}

} // verus!
