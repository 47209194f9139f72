use cairn::double::Double;
use cairn::ingest::messages::{
    chunk_messages, no_messages, plan_extraction, single_pass_summary, sort_messages, Plan,
    StoredUserMessage,
};
use cairn::ingest::naming::{canonical_edge_type, derivation, normalize_name, parked, tier_for};
use cairn::ingest::prompt::{
    after_answer, default_extraction_prompt, fill_prompt, limit_summary, map_opts, map_prompt, map_reduce_summary, reduce_answer,
    reduce_opts, reduce_prompt, ReduceStep,
};
use cairn::ingest::proposal::{
    decide, embed_plan, find_merge_candidate, lookup_for, parse_proposal, propose,
    spread_embeddings, vec_bytes, vec_of_bytes, Lookup,
};
use cairn::ingest::run::{Action, Candidate, Run, Stage};
use cairn::ingest::repair::{
    close_unbalanced_json, extract_balanced_json_object, extract_balanced_json_value,
    parse_json_response, repair_common_json_mistakes,
};
use cairn::json::{from_value, Json};
use cairn::kg::extraction::{
    coerce_items, get_array, invalid_root_message, sanitize_extraction_output, validate_subtype,
    ExtractOutput,
};

fn doc(text: &str) -> Json {
    from_value(serde_json::from_str::<serde_json::Value>(text).unwrap())
}

fn d(x: f64) -> Double {
    Double { bits: x.to_bits() }
}

fn sanitized(text: &str) -> ExtractOutput {
    sanitize_extraction_output(doc(text)).unwrap()
}

#[test]
fn parse_json_response_accepts_fenced_json() {
    let parsed = parse_json_response(
        "Here you go:\n```json\n{\"topics\":[],\"entities\":[],\"concepts\":[],\"prompt_patterns\":[]}\n```",
    )
    .expect("fenced json should parse");
    assert!(parsed.get("topics").is_some());
}

#[test]
fn parse_json_response_extracts_balanced_object_from_prose() {
    let parsed = parse_json_response(
        "Answer first, then JSON: {\"topics\":[],\"entities\":[],\"concepts\":[{\"name\":\"x\"}],\"prompt_patterns\":[]} trailing note",
    )
    .expect("embedded object should parse");
    assert_eq!(parsed.get("concepts").unwrap().as_array().unwrap()[0].str_at("name"), Some("x"));
}

#[test]
fn parse_json_response_accepts_top_level_array() {
    let parsed = parse_json_response(
        "Here you go:\n```json\n[{\"name\":\"x\"},{\"name\":\"y\"}]\n```",
    )
    .expect("array json should parse");
    assert!(parsed.as_array().is_some());
    assert_eq!(parsed.as_array().unwrap()[0].str_at("name"), Some("x"));
}

#[test]
fn broken_answers_are_mended() {
    assert_eq!(extract_balanced_json_value("x [1, {\"a\": \"}\"}] y").unwrap(), "{\"a\": \"}\"}");
    assert_eq!(extract_balanced_json_value("x [1, 2] y").unwrap(), "[1, 2]");
    assert!(extract_balanced_json_value("{ never closed").is_none());
    assert_eq!(repair_common_json_mistakes("{\u{201c}a\u{201d}: [1, ]}"), "{\"a\": [1 ]}");
    assert_eq!(close_unbalanced_json("{\"a\": [\"b"), "{\"a\": [\"b\"]}");
    let v = parse_json_response("{\"a\": [1, 2,], \"b\": \"c\",}").unwrap();
    assert_eq!(v.str_at("b"), Some("c"));
    let v = parse_json_response("{\"a\": \"b\", \"c\": \"d").unwrap();
    assert_eq!(v.str_at("c"), Some("d"));
    let v = parse_json_response("{\"a\": [1, 2,], \"b\": \"c").unwrap();
    assert_eq!(v.as_array().unwrap().len(), 2);
    assert_eq!(
        parse_json_response("no data at all").unwrap_err(),
        "no parseable JSON object in model response"
    );
}

#[test]
fn sanitizes_missing_keys_to_empty() {
    let out = sanitized(r#"{"topics":[{"name":"x"}]}"#);
    assert_eq!(out.topics.len(), 1);
    assert_eq!(out.entities.len(), 0);
    assert_eq!(out.concepts.len(), 0);
    assert_eq!(out.sources.len(), 0);
}

#[test]
fn legacy_prompt_patterns_fold_into_concepts_with_subtype() {
    let out = sanitized(r#"{"promptPatterns":[{"name":"p"}]}"#);
    assert_eq!(out.concepts.len(), 1);
    assert_eq!(out.concepts[0].subtype.as_deref(), Some("pattern"));
}

#[test]
fn accepts_root_array_as_concepts() {
    let out = sanitized(r#"[{"name":"c"}]"#);
    assert_eq!(out.concepts.len(), 1);
}

#[test]
fn parses_entity_subtype_from_taxonomy_whitelist() {
    let out = sanitized(
        r#"{"entities":[{"name":"ada","subtype":"person"},{"name":"weirdthing","subtype":"alien"}]}"#,
    );
    assert_eq!(out.entities[0].subtype.as_deref(), Some("person"));
    assert_eq!(out.entities[1].subtype, None);
}

#[test]
fn parses_source_subtype_from_taxonomy_whitelist() {
    let out = sanitized(
        r#"{"sources":[{"name":"ssg","subtype":"book"},{"name":"kant","subtype":"treatise"}]}"#,
    );
    assert_eq!(out.sources[0].subtype.as_deref(), Some("book"));
    assert_eq!(out.sources[1].subtype, None);
}

#[test]
fn legacy_entity_type_field_is_read_as_subtype() {
    let out = sanitized(r#"{"entities":[{"name":"ada","type":"person"}]}"#);
    assert_eq!(out.entities[0].subtype.as_deref(), Some("person"));
}

#[test]
fn items_are_read_with_all_their_fields() {
    let out = sanitized(
        r#"{"entity":[{"name":"  Ada ","type":" Person ","description":" d ","confidence":0.75,"message_ids":["m1",2,"m2"]},{"name":" "},"x"]}"#,
    );
    assert_eq!(out.entities.len(), 1);
    let i = &out.entities[0];
    assert_eq!(i.name, "Ada");
    assert_eq!(i.subtype.as_deref(), Some("person"));
    assert_eq!(i.item_type.as_deref(), Some("Person"));
    assert_eq!(i.description.as_deref(), Some("d"));
    assert_eq!(i.confidence, d(0.75));
    assert_eq!(i.message_ids, vec!["m1".to_string(), "m2".to_string()]);
    assert_eq!(i.raw.str_at("name"), Some("  Ada "));
}

#[test]
fn other_roots_are_handed_back() {
    let root = sanitize_extraction_output(doc("true")).unwrap_err();
    assert!(matches!(root, Json::Bool(true)));
    assert_eq!(
        invalid_root_message("true"),
        "invalid extraction JSON root (expected object/array), got true"
    );
}

#[test]
fn names_are_made_of_letters_digits_and_single_dashes() {
    assert_eq!(normalize_name("  Research  Ops! "), "research-ops");
    assert_eq!(normalize_name("--A--b--"), "a-b");
    assert_eq!(normalize_name("\u{c9}t\u{e9} 2"), "\u{e9}t\u{e9}-2");
    assert_eq!(normalize_name("!!"), "");
}

#[test]
fn confidence_decides_the_tier() {
    assert!(parked(d(0.59)));
    assert!(!parked(d(0.60)));
    assert_eq!(tier_for(d(0.849)), "amber");
    assert_eq!(tier_for(d(0.85)), "solid");
    assert_eq!(canonical_edge_type("topic"), "belongs_to");
    assert_eq!(canonical_edge_type("entity"), "mentions");
    assert_eq!(canonical_edge_type("concept"), "discusses");
    assert_eq!(canonical_edge_type("pattern"), "uses_pattern");
    assert_eq!(canonical_edge_type("source"), "relates_to");
    assert!(derivation("mentions"));
    assert!(!derivation("relates_to"));
}

fn message(id: &str, time: f64, visible: bool, text: &str) -> StoredUserMessage {
    StoredUserMessage {
        message_id: id.to_string(),
        create_time: d(time),
        on_visible_path: visible,
        text: text.to_string(),
    }
}

#[test]
fn messages_are_sorted_by_time_then_name() {
    let v = sort_messages(vec![
        message("b", 2.0, true, ""),
        message("c", 1.0, true, ""),
        message("a", 2.0, true, ""),
        message("z", -1.0, true, ""),
    ]);
    let ids: Vec<&str> = v.iter().map(|m| m.message_id.as_str()).collect();
    assert_eq!(ids, vec!["z", "c", "a", "b"]);
}

#[test]
fn messages_are_cut_into_chunks() {
    let v = vec![
        message("a", 1.0, true, "hi"),
        message("b", 2.0, false, "unseen"),
        message("c", 3.0, true, &"x".repeat(2500)),
    ];
    let chunks = chunk_messages(&v);
    assert_eq!(chunks.len(), 1);
    assert_eq!(
        chunks[0],
        format!("[a] user:\nhi\n\n[c] user:\n{}\u{2026}\n\n", "x".repeat(2000))
    );
    let many: Vec<StoredUserMessage> =
        (0..7).map(|i| message("m", i as f64, true, &"y".repeat(1990))).collect();
    let chunks = chunk_messages(&many);
    assert_eq!(chunks.len(), 2);
    assert_eq!(chunks[0].len(), 5 * 2002);
    assert_eq!(single_pass_summary(&chunks).len(), 7 * 2002);
}

#[test]
fn the_length_decides_how_a_conversation_is_extracted() {
    assert_eq!(plan_extraction(&vec![]), Plan::NoMessages);
    assert_eq!(plan_extraction(&vec!["  \n".to_string()]), Plan::NoMessages);
    assert_eq!(plan_extraction(&vec!["x".repeat(279)]), Plan::Trivial);
    assert_eq!(plan_extraction(&vec!["x".repeat(280)]), Plan::SinglePass);
    assert_eq!(plan_extraction(&vec!["x".to_string(), "y".to_string()]), Plan::SinglePass);
    assert_eq!(plan_extraction(&vec!["x".repeat(30000), "y".repeat(14999)]), Plan::SinglePass);
    assert_eq!(plan_extraction(&vec!["x".repeat(30000), "y".repeat(15000)]), Plan::MapReduce);
    assert_eq!(no_messages(), "No messages to extract from");
}

#[test]
fn prompts_are_filled() {
    assert!(map_prompt("SN").ends_with("SNIPPET:\nSN"));
    assert_eq!(map_opts().max_tokens, Some(300));
    assert_eq!(map_opts().temperature, d(0.1f32 as f64));
    assert_eq!(reduce_opts().temperature, d(0.2f32 as f64));
    assert!(reduce_opts().json_mode);
    assert_eq!(map_reduce_summary(&vec!["a".to_string(), "b".to_string()]), "a\n\n---\n\nb");
    assert_eq!(limit_summary("short".to_string()), "short");
    let long = limit_summary("z".repeat(15001));
    assert_eq!(long, format!("{}\n... [Snippet Truncated to 15000 Chars Limit]", "z".repeat(15000)));
    assert_eq!(
        fill_prompt(Some("{{title}}|{{created}}|{{messages_with_ids}}|{{title}}"), "T", "C", "M"),
        "T|C|M|T"
    );
    let p = fill_prompt(None, "T", "C", "M");
    assert!(p.starts_with("Extract a knowledge graph from this conversation as JSON.\n\nFields:\n"));
    assert!(p.contains("\nTitle: T\nDate: C\nMessages:\nM\n\nJSON only, no prose:\n{\"topics\":["));
    assert!(p.ends_with("\"message_ids\":[]}]}"));
    assert_eq!(reduce_prompt("p", 0), "p");
    assert_eq!(reduce_prompt("p", 2), "p\n\nReturn ONLY valid JSON, no prose, no markdown.");
}

#[test]
fn answers_without_json_are_asked_for_again() {
    assert!(matches!(reduce_answer(0, "no"), ReduceStep::Again));
    assert!(matches!(reduce_answer(1, "no"), ReduceStep::Again));
    match reduce_answer(2, "say \"no\"") {
        ReduceStep::Failed(m) => assert_eq!(
            m,
            "LLM did not return valid JSON after 3 attempts: no parseable JSON object in model response (response_len=8, prefix=\"say \\\"no\\\"\", suffix=\"say \\\"no\\\"\")"
        ),
        _ => panic!("the third answer is the last"),
    }
    let long = format!("a{}b", "\u{e9}".repeat(300));
    match reduce_answer(2, &long) {
        ReduceStep::Failed(m) => {
            assert!(m.contains("response_len=602"));
            assert!(m.contains(&format!("prefix=\"a{}\"", "\u{e9}".repeat(199))));
            assert!(m.contains(&format!("suffix=\"{}b\"", "\u{e9}".repeat(199))));
        }
        _ => panic!("the third answer is the last"),
    }
    assert!(matches!(reduce_answer(2, "{\"topics\":[]}"), ReduceStep::Parsed(_)));
}

#[test]
fn proposals_are_read_from_documents() {
    let p = parse_proposal(
        "topic",
        doc(r#"{"name":"Research Ops","description":"coordination","message_ids":["m1"]}"#),
        d(0.42),
    )
    .unwrap();
    assert_eq!(p.kind, "topic");
    assert_eq!(p.name, "research-ops");
    assert_eq!(p.description.as_deref(), Some("coordination"));
    assert_eq!(p.confidence, d(0.42));
    assert_eq!(p.message_ids, vec!["m1".to_string()]);
    let p = parse_proposal("topic", doc(r#"{"name":"x","description":"  ","confidence":0.7}"#), d(0.1));
    let p = p.unwrap();
    assert_eq!(p.description, None);
    assert_eq!(p.confidence, d(0.7));
    let e = parse_proposal("topic", doc(r#"{"name":"!!"}"#), d(0.1)).unwrap_err();
    assert_eq!(e, "proposal missing name");
}

#[test]
fn an_extraction_proposes_topics_entities_concepts_and_patterns() {
    let out = sanitized(
        r#"{"topics":[{"name":"T"}],"entities":[{"name":"E"}],
            "concepts":[{"name":"P1","subtype":"pattern"},{"name":"C"}],
            "prompt_patterns":[{"name":"P2"}],"sources":[{"name":"S"}]}"#,
    );
    let v = propose(out).unwrap();
    let got: Vec<(&str, &str)> = v.iter().map(|p| (p.kind.as_str(), p.name.as_str())).collect();
    assert_eq!(
        got,
        vec![("topic", "t"), ("entity", "e"), ("concept", "c"), ("pattern", "p1"), ("pattern", "p2")]
    );
    let bad = sanitized(r#"{"topics":[{"name":"T"}],"concepts":[{"name":"!"}]}"#);
    assert_eq!(propose(bad).unwrap_err(), "proposal missing name");
}

#[test]
fn embeddings_go_to_those_that_need_them() {
    let out = sanitized(
        r#"{"topics":[{"name":"low","confidence":0.3},{"name":"high","confidence":0.9,"description":"x y"}],
            "concepts":[{"name":"mid","confidence":0.6},{"name":"pat","subtype":"pattern","confidence":0.9}]}"#,
    );
    let v = propose(out).unwrap();
    let (at, inputs) = embed_plan(&v);
    assert_eq!(at, vec![1, 2]);
    assert_eq!(inputs, vec!["high: x y".to_string(), "mid".to_string()]);
    let slots = spread_embeddings(4, &at, vec![vec![7], vec![8], vec![9]]);
    assert_eq!(slots, vec![None, Some(vec![7]), Some(vec![8]), None]);
    let slots = spread_embeddings(4, &at, vec![vec![7]]);
    assert_eq!(slots, vec![None, Some(vec![7]), None, None]);
    assert_eq!(lookup_for(&v[0], true), Lookup::Nowhere);
    assert_eq!(lookup_for(&v[1], true), Lookup::Nearest);
    assert_eq!(lookup_for(&v[1], false), Lookup::Nowhere);
    assert_eq!(lookup_for(&v[3], false), Lookup::PatternByName);
}

#[test]
fn decisions_keep_what_they_need() {
    let p = |name: &str, kind: &str, c: f64| {
        parse_proposal(kind, doc(&format!(r#"{{"name":"{}"}}"#, name)), d(c)).unwrap()
    };
    let x = decide(p("a", "topic", 0.1), Some(vec![1]), Some("n".to_string()));
    assert!(x.merge_into.is_none() && x.embedding.is_none());
    let x = decide(p("a", "pattern", 0.9), Some(vec![1]), Some("n".to_string()));
    assert_eq!(x.merge_into.as_deref(), Some("n"));
    assert!(x.embedding.is_none());
    let x = decide(p("a", "concept", 0.9), Some(vec![1]), Some("n".to_string()));
    assert_eq!(x.merge_into.as_deref(), Some("n"));
    assert_eq!(x.embedding, Some(vec![1]));
    let x = decide(p("a", "concept", 0.9), None, Some("n".to_string()));
    assert!(x.merge_into.is_none() && x.embedding.is_none());
}

fn dist_for_cos(cos: f32) -> f32 {
    (2.0 * (1.0 - cos)).max(0.0).sqrt()
}

#[test]
fn near_enough_nodes_are_merged() {
    let near = |kind: &str, dist: f32| {
        find_merge_candidate(kind, Some(("n".to_string(), d(dist as f64)))).is_some()
    };
    let topic = dist_for_cos(0.88);
    let other = dist_for_cos(0.92);
    assert!(near("topic", topic));
    assert!(!near("topic", f32::from_bits(topic.to_bits() + 1)));
    assert!(near("concept", other));
    assert!(!near("concept", f32::from_bits(other.to_bits() + 1)));
    assert!(!near("entity", f32::NAN));
    assert!(find_merge_candidate("topic", None).is_none());
}

#[test]
fn embeddings_are_stored_in_little_endian_order() {
    assert_eq!(vec_bytes(&vec![0x0403_0201, 1.0f32.to_bits()]), vec![1, 2, 3, 4, 0, 0, 0x80, 0x3f]);
}

fn chunks(n: usize) -> Vec<String> {
    vec!["x".repeat(n)]
}

fn begin(chunks: &Vec<String>) -> (Run, Action) {
    Run::start("Title".to_string(), "2024-05-01".to_string(), None, chunks)
}

#[test]
fn runs_end_where_there_is_nothing_to_ask() {
    let (run, action) = begin(&Vec::new());
    assert!(matches!(run.stage, Stage::Over));
    match action {
        Action::Fail(m) => assert_eq!(m, "No messages to extract from"),
        _ => panic!("there are no messages"),
    }
    let (run, action) = begin(&chunks(10));
    assert!(matches!(run.stage, Stage::Over));
    assert!(matches!(action, Action::Finish));
}

#[test]
fn long_conversations_are_summarised_first() {
    let parts: Vec<String> = vec!["a".repeat(30000), "b".repeat(30000)];
    let (mut run, action) = begin(&parts);
    match action {
        Action::Summarise(questions) => {
            assert_eq!(questions, vec![map_prompt(&parts[0]), map_prompt(&parts[1])])
        }
        _ => panic!("there are two chunks"),
    }
    let summaries = vec!["- one".to_string(), "- two".to_string()];
    match run.summarised(&summaries) {
        Action::Ask(p) => assert_eq!(
            p,
            fill_prompt(None, "Title", "2024-05-01", "- one\n\n---\n\n- two")
        ),
        _ => panic!("the summaries are shown"),
    }
}

#[test]
fn a_model_is_asked_three_times_for_json() {
    let (mut run, action) = begin(&chunks(1000));
    let prompt = fill_prompt(None, "Title", "2024-05-01", &"x".repeat(1000));
    match action {
        Action::Ask(p) => assert_eq!(p, prompt),
        _ => panic!("the model is asked"),
    }
    for _ in 0..2 {
        match run.answered("no") {
            Action::Ask(p) => {
                assert_eq!(p, prompt.clone() + "\n\nReturn ONLY valid JSON, no prose, no markdown.")
            }
            _ => panic!("the model is asked again"),
        }
    }
    match run.answered("no") {
        Action::Fail(m) => assert!(m.starts_with("LLM did not return valid JSON after 3 attempts: ")),
        _ => panic!("the third answer is the last"),
    }
    assert!(matches!(run.stage, Stage::Over));
}

#[test]
fn answers_that_cannot_be_used_end_a_run() {
    let (mut run, _) = begin(&chunks(1000));
    match run.after_reading_answer("7", Ok(doc("7"))) {
        Action::Reject(v) => assert_eq!(v.as_i64(), Some(7)),
        _ => panic!("a number is no graph"),
    }
    let (mut run, _) = begin(&chunks(1000));
    let nameless = doc(r#"{"topics":[{"name":"!!","confidence":0.9}]}"#);
    match run.after_reading_answer("", Ok(nameless)) {
        Action::Fail(m) => assert_eq!(m, "proposal missing name"),
        _ => panic!("the name has no letter"),
    }
    let (mut run, _) = begin(&chunks(1000));
    assert!(matches!(
        run.after_reading_answer("no", Err("broken".to_string())),
        Action::Ask(_)
    ));
}

#[test]
fn runs_decide_on_every_proposal() {
    let (mut run, _) = begin(&chunks(1000));
    let answer = r#"{"topics":[{"name":"A","confidence":0.9},{"name":"B","confidence":0.3}],
        "entities":[{"name":"C","confidence":0.9}],
        "prompt_patterns":[{"name":"D","confidence":0.9}]}"#;
    match run.answered(answer) {
        Action::Embed(inputs) => assert_eq!(inputs, vec!["a".to_string(), "c".to_string()]),
        _ => panic!("two proposals need an embedding"),
    }
    match run.embedded(vec![vec![1], vec![2]]) {
        Action::Find(lookups) => assert_eq!(
            lookups,
            vec![Lookup::Nearest, Lookup::Nowhere, Lookup::Nearest, Lookup::PatternByName]
        ),
        _ => panic!("nodes are looked for"),
    }
    let found = vec![
        Candidate::Near("t1".to_string(), d(0.1)),
        Candidate::Nothing,
        Candidate::Near("e1".to_string(), d(0.9)),
        Candidate::Named("p1".to_string()),
    ];
    match run.found(found) {
        Action::Apply(decisions) => {
            let into: Vec<Option<String>> =
                decisions.iter().map(|x| x.merge_into.clone()).collect();
            assert_eq!(into, vec![Some("t1".to_string()), None, None, Some("p1".to_string())]);
            let vectors: Vec<Option<Vec<u32>>> =
                decisions.iter().map(|x| x.embedding.clone()).collect();
            assert_eq!(vectors, vec![Some(vec![1]), None, Some(vec![2]), None]);
        }
        _ => panic!("the decisions are made"),
    }
    assert!(matches!(run.stage, Stage::Over));
}

#[test]
fn nothing_is_embedded_for_doubtful_items() {
    let (mut run, _) = begin(&chunks(1000));
    match run.answered(r#"{"topics":[{"name":"B","confidence":0.3}]}"#) {
        Action::Find(lookups) => assert_eq!(lookups, vec![Lookup::Nowhere]),
        _ => panic!("nothing is embedded"),
    }
    match run.found(vec![Candidate::Nothing]) {
        Action::Apply(decisions) => assert_eq!(decisions.len(), 1),
        _ => panic!("the decision is made"),
    }
}

#[test]
fn names_of_names_are_the_same() {
    for s in ["  Research  Ops! ", "A_b-C", "7 wonders", "!!"] {
        let name = normalize_name(s);
        assert_eq!(normalize_name(&name), name);
    }
}

#[test]
fn subtypes_are_those_of_their_kind() {
    assert_eq!(validate_subtype("entity", Some(" Tool ")), Some("tool".to_string()));
    assert_eq!(validate_subtype("entity", Some("book")), None);
    assert_eq!(validate_subtype("source", Some("book")), Some("book".to_string()));
    assert_eq!(validate_subtype("concept", Some("PATTERN")), Some("pattern".to_string()));
    assert_eq!(validate_subtype("topic", Some("tool")), None);
    assert_eq!(validate_subtype("entity", None), None);
}

#[test]
fn items_are_found_under_the_first_key_that_holds_a_list() {
    let none: Vec<Json> = Vec::new();
    let v = doc(r#"{"topic":[{"name":"a"},{"name":"b"}],"topics":7}"#);
    assert_eq!(get_array(&v, &vec!["topics", "topic"], &none).len(), 2);
    assert_eq!(get_array(&v, &vec!["topics"], &none).len(), 0);
    let items = coerce_items("topic", get_array(&v, &vec!["topic"], &none));
    assert_eq!(items[1].name, "b");
}

#[test]
fn objects_are_cut_out_of_prose() {
    assert_eq!(extract_balanced_json_object("a {\"b\":\"}\"} c"), Some("{\"b\":\"}\"}"));
    assert_eq!(extract_balanced_json_object("a {{} c"), None);
    assert_eq!(extract_balanced_json_object("[1]"), None);
}

#[test]
fn the_standard_question_names_the_conversation() {
    let q = default_extraction_prompt("T", "D", "M");
    assert!(q.starts_with("Extract a knowledge graph from this conversation as JSON.\n"));
    assert!(q.contains("\nTitle: T\nDate: D\nMessages:\nM\n\nJSON only, no prose:\n{\"topics\":["));
    assert_eq!(fill_prompt(None, "T", "D", "M"), q);
    assert!(matches!(after_answer(2, "x", Ok(doc("1"))), ReduceStep::Parsed(_)));
    assert!(matches!(after_answer(1, "x", Err("e".to_string())), ReduceStep::Again));
}

#[test]
fn repairs_touch_quotes_and_commas_alone() {
    assert_eq!(repair_common_json_mistakes("{\"a\":\"\u{e9}\",}"), "{\"a\":\"\u{e9}\"}");
    assert_eq!(repair_common_json_mistakes("[\"\u{4e16},]\", 1]"), "[\"\u{4e16},]\", 1]");
    let v = parse_json_response("{\"a\":\"\u{e9}\",}").unwrap();
    assert_eq!(v.str_at("a"), Some("\u{e9}"));
}

#[test]
fn escapes_that_were_cut_off_are_dropped() {
    assert_eq!(close_unbalanced_json("{\"a\":\"b\\"), "{\"a\":\"b\"}");
    assert_eq!(close_unbalanced_json("{\"a\":\"b\\\\"), "{\"a\":\"b\\\\\"}");
    let v = parse_json_response("{\"a\":\"b\\").unwrap();
    assert_eq!(v.str_at("a"), Some("b"));
}

#[test]
fn texts_are_cut_between_characters() {
    let text = "x".to_string() + &"\u{e9}".repeat(1500);
    let chunks = chunk_messages(&vec![message("a", 1.0, true, &text)]);
    assert_eq!(chunks[0], format!("[a] user:\nx{}\u{2026}\n\n", "\u{e9}".repeat(999)));
    let long = "x".to_string() + &"\u{20ac}".repeat(6000);
    assert_eq!(
        limit_summary(long),
        format!("x{}\n... [Snippet Truncated to 15000 Chars Limit]", "\u{20ac}".repeat(4999))
    );
}

#[test]
fn stored_embeddings_come_back() {
    let v = vec![0x0403_0201, 1.0f32.to_bits(), 0];
    assert_eq!(vec_of_bytes(&vec_bytes(&v)), v);
    assert_eq!(vec_of_bytes(&vec![1, 0, 0, 0, 9]), vec![1]);
}
