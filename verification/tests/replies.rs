use cairn::double::Double;
use cairn::json::{from_value, parse, Json};
use cairn::llm::content::{coerce_message_content, coerce_message_from_openai_choice};
use cairn::llm::health::{ping, ping_opts, HealthCheck, Probe};
use cairn::llm::openai::{
    after_reading_models, after_reading_reply, chat_request, chat_response, embed, embed_many,
    embed_many_request, embed_request, first_chars, list_models, model_is_thinking, network_error, plain_name_is_thinking, post_json, with_retry,
    OpenAiCompatibleClient, RetryStep,
};
use cairn::llm::{user_message, ChatOpts, HealthStatus, Message};

fn doc(text: &str) -> Json {
    from_value(serde_json::from_str::<serde_json::Value>(text).unwrap())
}

fn bits(x: f64) -> u64 {
    x.to_bits()
}

#[test]
fn coerce_message_content_accepts_string() {
    assert_eq!(coerce_message_content(&doc(r#""hello""#)), "hello");
}

#[test]
fn coerce_message_content_accepts_array_parts() {
    let v = doc(r#"[
        { "type": "text", "text": "Hello " },
        { "type": "text", "text": "world" }
    ]"#);
    assert_eq!(coerce_message_content(&v), "Hello world");
}

#[test]
fn coerce_message_content_accepts_object_text() {
    assert_eq!(coerce_message_content(&doc(r#"{ "text": "hi" }"#)), "hi");
}

#[test]
fn coerce_message_content_accepts_object_content() {
    assert_eq!(coerce_message_content(&doc(r#"{ "content": "yo" }"#)), "yo");
}

#[test]
fn coerce_message_content_recurses_into_nested_shapes() {
    let v = doc(r#"{
        "parts": [
            { "text": { "value": "Hello" } },
            { "text": " " },
            { "nested": { "output_text": "world" } }
        ]
    }"#);
    assert_eq!(coerce_message_content(&v), "Hello world");
}

#[test]
fn coerce_message_from_choice_prefers_message_content() {
    let choice = doc(r#"{ "message": { "content": "hi" } }"#);
    assert_eq!(coerce_message_from_openai_choice(&choice), "hi");
}

#[test]
fn coerce_message_from_choice_reads_tool_calls_arguments() {
    let choice = doc(r#"{
        "message": {
            "content": "",
            "tool_calls": [
                { "type": "function", "function": { "name": "emit", "arguments": "{\"topics\":[]}" } }
            ]
        }
    }"#);
    assert_eq!(coerce_message_from_openai_choice(&choice), "{\"topics\":[]}");
}

#[test]
fn coerce_message_from_choice_falls_back_to_message_parts() {
    let choice = doc(r#"{
        "message": {
            "role": "assistant",
            "parts": [
                { "text": "Hello" },
                { "text": " world" }
            ]
        }
    }"#);
    assert_eq!(coerce_message_from_openai_choice(&choice), "Hello world");
}

#[test]
fn coerce_message_from_choice_reads_function_call_arguments() {
    let choice = doc(r#"{
        "message": {
            "content": "",
            "function_call": { "name": "emit", "arguments": "{\"entities\":[]}" }
        }
    }"#);
    assert_eq!(coerce_message_from_openai_choice(&choice), "{\"entities\":[]}");
}

#[test]
fn coerce_message_from_choice_falls_back_to_text() {
    assert_eq!(coerce_message_from_openai_choice(&doc(r#"{ "text": "legacy" }"#)), "legacy");
}

#[test]
fn client_drops_trailing_slashes_and_knows_ollama() {
    let c = OpenAiCompatibleClient::new("http://localhost:11434/v1//".to_string(), "k".to_string());
    assert_eq!(c.base_url, "http://localhost:11434/v1");
    assert_eq!(c.api_key, "k");
    assert!(c.is_ollama);
    assert_eq!(c.url("/models"), "http://localhost:11434/v1/models");
    let d = OpenAiCompatibleClient::new("https://api.example.com/v1".to_string(), String::new());
    assert!(!d.is_ollama);
    assert!(OpenAiCompatibleClient::new("http://10.0.0.2:11434".to_string(), String::new()).is_ollama);
    assert!(OpenAiCompatibleClient::new("http://127.0.0.1:8080/".to_string(), String::new()).is_ollama);
}

#[test]
fn thinking_models_are_known_by_name() {
    assert!(model_is_thinking("models/Gemini-2.5-Pro-preview"));
    assert!(model_is_thinking("O1"));
    assert!(model_is_thinking("o3-mini"));
    assert!(model_is_thinking("qwen-Thinking"));
    assert!(!model_is_thinking("gemini-2.5-flash"));
    assert!(!model_is_thinking("o10"));
    assert!(plain_name_is_thinking("o4-x"));
    assert!(!plain_name_is_thinking("gpt-4o"));
}

#[test]
fn failures_are_retried_after_one_and_three_seconds() {
    assert_eq!(with_retry(0, false), RetryStep::Wait(1));
    assert_eq!(with_retry(1, false), RetryStep::Wait(3));
    assert_eq!(with_retry(2, false), RetryStep::GiveUp);
    assert_eq!(with_retry(2, true), RetryStep::Return);
}

fn opts(json_mode: bool, max_tokens: Option<u32>) -> ChatOpts {
    ChatOpts { temperature: Double { bits: bits(0.5) }, json_mode, max_tokens }
}

fn hello() -> Vec<Message> {
    vec![Message { role: "user".to_string(), content: "hi".to_string() }]
}

#[test]
fn chat_requests_carry_what_the_endpoint_takes() {
    let r = chat_request("o1", &hello(), opts(true, Some(300)), false);
    assert_eq!(r.str_at("model"), Some("o1"));
    assert_eq!(r.get("messages").unwrap().as_array().unwrap()[0].str_at("content"), Some("hi"));
    assert_eq!(r.get("temperature").unwrap().as_double().unwrap().bits, bits(0.5));
    assert!(r.get("keep_alive").is_none());
    assert_eq!(r.get("response_format").unwrap().str_at("type"), Some("json_object"));
    assert_eq!(r.get("max_tokens").unwrap().as_i64(), Some(8000));

    let r = chat_request("o1", &hello(), opts(false, Some(300)), true);
    assert_eq!(r.str_at("keep_alive"), Some("10m"));
    assert!(r.get("response_format").is_none());
    assert_eq!(r.get("max_tokens").unwrap().as_i64(), Some(300));

    let r = chat_request("gpt", &hello(), opts(false, None), false);
    assert!(r.get("max_tokens").is_none());
}

#[test]
fn chat_replies_are_read() {
    let r = chat_response(&doc(r#"{"choices":[{"message":{"role":"tool","content":"x"}}]}"#));
    assert_eq!(r.message.role, "tool");
    assert_eq!(r.message.content, "x");
    let r = chat_response(&doc(r#"{"choices":[]}"#));
    assert_eq!(r.message.role, "assistant");
    assert_eq!(r.message.content, "");
}

#[test]
fn embeddings_are_read() {
    assert_eq!(embed_request("m", "t").str_at("input"), Some("t"));
    assert!(embed_many_request("m", &Vec::new()).is_none());
    let many = embed_many_request("m", &vec!["a".to_string(), "b".to_string()]).unwrap();
    assert_eq!(many.get("input").unwrap().as_array().unwrap()[1].as_str(), Some("b"));
    let v = embed(&doc(r#"{"data":[{"embedding":[0.5,"x",2]}]}"#)).unwrap();
    assert_eq!(v.iter().map(|d| d.bits).collect::<Vec<_>>(), vec![bits(0.5), 0, bits(2.0)]);
    assert_eq!(embed(&doc(r#"{"data":[]}"#)).unwrap_err(), "Invalid embedding response format");
    let v = embed_many(&doc(r#"{"data":[{"embedding":[1]},{"embedding":[]}]}"#)).unwrap();
    assert_eq!(v.len(), 2);
    assert_eq!(v[0][0].bits, bits(1.0));
    assert_eq!(embed_many(&doc("{}")).unwrap_err(), "Invalid batch embedding response");
    assert_eq!(
        embed_many(&doc(r#"{"data":[{"embedding":[1]},{}]}"#)).unwrap_err(),
        "Missing embedding in batch response"
    );
}

#[test]
fn model_lists_are_read() {
    let ids = list_models("u", true, "200 OK", r#"{"data":[{"id":"a"},{"x":1},{"id":"b"}]}"#).unwrap();
    assert_eq!(ids, vec!["a".to_string(), "b".to_string()]);
    let e = list_models("u", false, "500 Oops", &"x".repeat(400)).unwrap_err();
    assert_eq!(e, format!("HTTP 500 Oops from u: {}", "x".repeat(300)));
    let e = list_models("u", true, "200 OK", "nope").unwrap_err();
    assert!(e.starts_with("non-JSON response from u: "));
    assert!(e.ends_with(" (body: nope)"));
    assert_eq!(
        list_models("u", true, "200 OK", "{}").unwrap_err(),
        "unexpected models response shape (no `data` array): {}"
    );
    assert_eq!(network_error("u", "down"), "network error reaching u: down");
    assert_eq!(first_chars("h\u{e9}llo", 2), "h\u{e9}");
}

#[test]
fn replies_to_posts_are_read() {
    assert_eq!(post_json(false, "404 Not Found", "gone").unwrap_err(), "HTTP 404 Not Found: gone");
    assert!(post_json(true, "200 OK", "{").unwrap_err().starts_with("Invalid JSON from endpoint: "));
    assert_eq!(post_json(true, "200 OK", r#"{"a":"b"}"#).unwrap().str_at("a"), Some("b"));
}

#[test]
fn numbers_keep_their_value() {
    let v = parse(r#"[-3, 18446744073709551615, 0.1]"#).unwrap();
    let items = v.as_array().unwrap();
    assert_eq!(items[0].as_i64(), Some(-3));
    assert_eq!(items[1].as_i64(), None);
    assert_eq!(items[2].as_double().unwrap().bits, bits(0.1));
    assert!(parse("[1,]").is_err());
}

#[test]
fn a_healthy_endpoint_has_no_errors() {
    let mut c = HealthCheck::new();
    assert!(matches!(c.probe, Probe::Models));
    c.models_listed(Ok(vec!["Nomic-EMBED".to_string(), "llama".to_string()]));
    match &c.probe {
        Probe::Chat { model, json_mode } => {
            assert_eq!(model, "Nomic-EMBED");
            assert!(*json_mode);
        }
        _ => panic!("a chat comes next"),
    }
    c.chatted(true, Ok(()));
    match &c.probe {
        Probe::Embed { model } => assert_eq!(model, "Nomic-EMBED"),
        _ => panic!("an embedding comes next"),
    }
    c.embedded(Ok(()));
    assert!(matches!(c.probe, Probe::Done));
    assert!(c.status.chat && c.status.embeddings && c.status.models && c.status.json_mode);
    assert!(c.status.models_error.is_none());
}

#[test]
fn every_denied_capability_says_why() {
    let mut c = HealthCheck::new();
    c.models_listed(Err("down".to_string()));
    c.chatted(true, Err("no json".to_string()));
    match &c.probe {
        Probe::Chat { model, json_mode } => {
            assert_eq!(model, "default");
            assert!(!*json_mode);
        }
        _ => panic!("a plain chat comes next"),
    }
    c.chatted(false, Err("no chat".to_string()));
    assert!(matches!(c.probe, Probe::Done));
    assert_eq!(c.status.models_error.as_deref(), Some("down"));
    assert_eq!(c.status.chat_error.as_deref(), Some("json_mode: no json; plain: no chat"));
    assert!(c.status.embeddings_error.unwrap().starts_with("Endpoint didn't advertise any embedding model"));

    let mut c = HealthCheck::new();
    c.models_listed(Ok(vec![]));
    assert!(!c.status.models);
    assert_eq!(c.status.models_error.as_deref(), Some("Provider returned an empty model list."));
    let d = HealthStatus::default();
    assert!(!d.chat && d.chat_error.is_none());
}

#[test]
fn a_ping_is_short() {
    assert_eq!(ping(), "ping");
    assert_eq!(ping_opts(true).max_tokens, Some(20));
    assert!(ping_opts(true).json_mode && !ping_opts(false).json_mode);
    assert_eq!(ping_opts(false).temperature.bits, bits(0.0));
    let m = user_message("hi".to_string());
    assert_eq!((m.role.as_str(), m.content.as_str()), ("user", "hi"));
    let o = ChatOpts::default();
    assert!(!o.json_mode && o.max_tokens.is_none() && o.temperature.bits == 0);
}

#[test]
fn what_was_read_of_a_reply_is_passed_on() {
    assert_eq!(after_reading_reply(Ok(doc("[1]"))).unwrap().as_array().unwrap().len(), 1);
    assert_eq!(
        after_reading_reply(Err("bad".to_string())).unwrap_err(),
        "Invalid JSON from endpoint: bad"
    );
    assert_eq!(
        after_reading_models("u", "b", Err("bad".to_string())).unwrap_err(),
        "non-JSON response from u: bad (body: b)"
    );
    assert_eq!(
        after_reading_models("u", "b", Ok(doc(r#"{"data":[{"id":"a"}]}"#))).unwrap(),
        vec!["a".to_string()]
    );
    assert_eq!(
        after_reading_models("u", "b", Ok(doc("[]"))).unwrap_err(),
        "unexpected models response shape (no `data` array): b"
    );
}
