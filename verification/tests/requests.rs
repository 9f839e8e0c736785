use mini_lm::api::{
    after_failure, api_status, build_deepseek_body, class_of_failure, classify_api_failure,
    key_for_request, message_of_failure, parse_retry_after_ms, read_reply, reply_content,
    reply_delta, retry_seconds, AfterFailure, ApiFailure, NO_KEY,
};
use mini_lm::json::Json;
use mini_lm::prompts::Message;
use mini_lm::settings::Settings;
use mini_lm::stream::ReplyStream;

fn user_message() -> Vec<Message> {
    vec![Message { role: "user".to_string(), content: "test".to_string() }]
}

fn field<'a>(value: &'a Json, outer: &str, inner: &str) -> Option<&'a str> {
    value.get(outer).and_then(|v| v.get(inner)).and_then(|v| v.as_str())
}

fn failure(class: &str, retry: Option<u64>) -> ApiFailure {
    ApiFailure { class_name: class.to_string(), message: "slow down".to_string(), retry_after_ms: retry }
}

fn choice(part: &str, content: &str) -> Json {
    Json::Object(vec![(
        "choices".to_string(),
        Json::List(vec![Json::Object(vec![(
            part.to_string(),
            Json::Object(vec![("content".to_string(), Json::Text(content.to_string()))]),
        )])]),
    )])
}

#[test]
fn deepseek_body_omits_reasoning_effort_when_thinking_is_disabled() {
    let settings = Settings {
        thinking_enabled: false,
        reasoning_effort: "high".to_string(),
        ..Settings::default()
    };
    let body = build_deepseek_body(&settings, &user_message(), 100, false, false);

    assert_eq!(field(&body, "thinking", "type"), Some("disabled"));
    assert!(body.get("reasoning_effort").is_none());
}

#[test]
fn deepseek_body_sets_reasoning_effort_when_thinking_is_enabled() {
    let settings = Settings {
        thinking_enabled: true,
        reasoning_effort: "max".to_string(),
        ..Settings::default()
    };
    let body = build_deepseek_body(&settings, &user_message(), 100, true, true);

    assert_eq!(field(&body, "thinking", "type"), Some("enabled"));
    assert_eq!(body.get("reasoning_effort").and_then(|v| v.as_str()), Some("max"));
    assert_eq!(field(&body, "response_format", "type"), Some("json_object"));
}

fn names(value: &Json) -> Vec<&str> {
    match value {
        Json::Object(fields) => fields.iter().map(|(name, _)| name.as_str()).collect(),
        _ => panic!("no object"),
    }
}

#[test]
fn bodies_name_every_field_once() {
    let mut settings = Settings::default();
    let plain = build_deepseek_body(&settings, &user_message(), 100, false, false);
    assert_eq!(names(&plain), vec!["model", "messages", "max_tokens", "stream", "thinking"]);
    settings.thinking_enabled = true;
    let full = build_deepseek_body(&settings, &user_message(), 100, true, false);
    let more = ["reasoning_effort", "response_format"];
    assert_eq!(names(&full)[5..], more);
    assert_eq!(names(full.get("thinking").unwrap()), vec!["type"]);
    let messages = full.get("messages").unwrap().as_array().unwrap();
    assert_eq!(names(&messages[0]), vec!["role", "content"]);
}

#[test]
fn bodies_carry_the_messages() {
    let settings = Settings::default();
    let body = build_deepseek_body(&settings, &user_message(), 800, false, true);
    assert_eq!(body.get("model").unwrap().as_str(), Some("deepseek-v4-flash"));
    assert_eq!(body.get("max_tokens").unwrap().as_i64(), Some(800));
    assert_eq!(body.get("stream").unwrap().as_bool(), Some(true));
    assert!(body.get("response_format").is_none());
    let messages = body.get("messages").unwrap().as_array().unwrap();
    assert_eq!(messages.len(), 1);
    assert_eq!(messages[0].get("role").unwrap().as_str(), Some("user"));
    assert_eq!(messages[0].get("content").unwrap().as_str(), Some("test"));
}

#[test]
fn waiting_times_are_given_in_seconds() {
    assert_eq!(parse_retry_after_ms(" 12 "), Some(12_000));
    assert_eq!(parse_retry_after_ms("+3"), Some(3_000));
    assert_eq!(parse_retry_after_ms("0"), Some(0));
    for bad in ["", " ", "+", "-1", "1.5", "soon", "1 2", "18446744073709551616"] {
        assert_eq!(parse_retry_after_ms(bad), None, "{}", bad);
        assert_eq!(bad.trim().parse::<u64>().ok(), None);
    }
    assert_eq!(retry_seconds("18446744073709551615"), Some(u64::MAX));
}

#[test]
fn failures_are_classified_by_status() {
    let class = |status: u16, body: &str| classify_api_failure(status, "x", None, body).class_name;
    assert_eq!(class(401, ""), "auth");
    assert_eq!(class(403, ""), "auth");
    assert_eq!(class(429, ""), "rate_limit");
    assert_eq!(class(400, "maximum CONTEXT length"), "context_limit");
    assert_eq!(class(400, "bad field"), "api_error");
    assert_eq!(class(413, ""), "context_limit");
    assert_eq!(class(500, ""), "server");
    assert_eq!(class(599, ""), "server");
    assert_eq!(class(404, ""), "api_error");
    assert_eq!(class_of_failure(400, "context"), "context_limit");
}

#[test]
fn failures_speak_through_their_body() {
    let body = r#"{"error":{"message":"Rate limited"}}"#;
    let failed = classify_api_failure(429, "429 Too Many Requests", Some("2"), body);
    assert_eq!(failed.message, "Rate limited");
    assert_eq!(failed.retry_after_ms, Some(2_000));
    let plain = classify_api_failure(500, "500 Internal Server Error", Some("later"), "boom");
    assert_eq!(plain.message, "boom");
    assert_eq!(plain.retry_after_ms, None);
    let silent = classify_api_failure(502, "502 Bad Gateway", None, " \n");
    assert_eq!(silent.message, "502 Bad Gateway");
    assert_eq!(message_of_failure(&Some(Json::Null), "b", "s"), "b");
}

#[test]
fn short_rate_limits_are_waited_for() {
    match after_failure(1, &failure("rate_limit", Some(1_500))) {
        AfterFailure::Wait(ms, status) => {
            assert_eq!(ms, 1_500);
            assert_eq!(status, "DeepSeek制限により2秒待機しています");
        }
        AfterFailure::Stop(_, _) => panic!("should wait"),
    }
    assert!(matches!(after_failure(2, &failure("rate_limit", Some(15_000))), AfterFailure::Wait(15_000, _)));
}

#[test]
fn other_failures_stop_the_request() {
    for (attempt, class, retry) in [
        (3, "rate_limit", Some(10)),
        (1, "rate_limit", Some(15_001)),
        (1, "rate_limit", None),
        (1, "server", Some(10)),
    ] {
        match after_failure(attempt, &failure(class, retry)) {
            AfterFailure::Stop(status, error) => {
                assert_eq!(status, "DeepSeek APIで停止しました: slow down");
                assert_eq!(error, format!("{}: slow down", class));
            }
            AfterFailure::Wait(_, _) => panic!("should stop"),
        }
    }
}

#[test]
fn requests_need_a_key() {
    let mut settings = Settings::default();
    assert_eq!(key_for_request(&settings), Err(NO_KEY.to_string()));
    settings.api_key = Some("  ".to_string());
    assert_eq!(key_for_request(&settings), Err(NO_KEY.to_string()));
    settings.api_key = Some(" k ".to_string());
    assert_eq!(key_for_request(&settings), Ok(" k ".to_string()));
}

#[test]
fn statuses_count_attempts() {
    assert_eq!(api_status("送信", 2, true), ("running", "送信 (attempt 2)".to_string()));
    assert_eq!(api_status("停止", 1, false).0, "stopped");
}

#[test]
fn replies_are_read_from_the_first_choice() {
    assert_eq!(reply_content(&choice("message", "答え")), "答え");
    assert_eq!(reply_content(&choice("delta", "答え")), "");
    assert_eq!(reply_content(&Json::Object(vec![("choices".to_string(), Json::List(vec![]))])), "");
    assert_eq!(reply_delta(&choice("delta", "答")), Some("答"));
    let body = r#"{"choices":[{"message":{"content":"答え"}}]}"#;
    assert_eq!(read_reply(body), Some("答え".to_string()));
    assert_eq!(read_reply("{}"), Some(String::new()));
    assert_eq!(read_reply("<html>"), None);
    assert_eq!(reply_delta(&Json::Null), None);
}

const STREAM: &str = "data: {\"choices\":[{\"delta\":{\"content\":\"扶養\"}}]}\r\n\n: comment\ndata:{\"choices\":[{\"delta\":{\"content\":\"手当\"}}]}\ndata: {broken\ndata: [DONE]\ndata: {\"choices\":[{\"delta\":{\"content\":\"late\"}}]}\n";

#[test]
fn streams_add_up_to_the_answer() {
    let mut stream = ReplyStream::new();
    let added = stream.feed(STREAM);
    assert_eq!(added, vec!["扶養", "手当"]);
    assert_eq!(stream.answer(), "扶養手当");
    assert!(stream.is_done());
    assert!(stream.feed("data: {\"choices\":[{\"delta\":{\"content\":\"x\"}}]}\n").is_empty());
    assert_eq!(stream.answer(), "扶養手当");
}

#[test]
fn streams_may_be_cut_anywhere() {
    let chars: Vec<char> = STREAM.chars().collect();
    for cut in 0..=chars.len() {
        let first: String = chars[..cut].iter().collect();
        let second: String = chars[cut..].iter().collect();
        let mut stream = ReplyStream::new();
        let mut added = stream.feed(&first);
        added.extend(stream.feed(&second));
        assert_eq!(added, vec!["扶養", "手当"]);
        assert_eq!(stream.answer(), "扶養手当");
        assert!(stream.is_done());
    }
}

#[test]
fn streams_give_one_piece_for_each_delta() {
    let delta = |s: &str| format!("data: {{\"choices\":[{{\"delta\":{{\"content\":\"{}\"}}}}]}}\n", s);
    let mut stream = ReplyStream::new();
    let lines = format!("{}: keep-alive\n{}data: {{}}\n{}", delta("一"), delta(""), delta("二"));
    assert_eq!(stream.feed(&lines), vec!["一", "", "二"]);
    assert!(stream.feed("data: ").is_empty());
}

#[test]
fn streams_end_without_a_mark_too() {
    let mut stream = ReplyStream::new();
    stream.feed_bytes("data: {\"choices\":[{\"delta\":{\"content\":\"扶\"}}]}\ndata: {\"cho".as_bytes());
    assert_eq!(stream.answer(), "扶");
    assert!(!stream.is_done());
}
