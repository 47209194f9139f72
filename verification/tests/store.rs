use cairn::double::Double;
use cairn::ingest::messages::{chunk_messages, StoredUserMessage};
use cairn::ingest::proposal::{
    approval_embeds, approval_lookup, approve, parse_proposal, Decision, Lookup,
};
use cairn::ingest::run::{take_candidate, Action, Candidate, Run, Stage};
use cairn::json::{parse, Json};
use cairn::store::derive::StoreError;
use cairn::store::edges::{edge_messages, find_again, find_first};
use cairn::store::queue::{
    begin_extraction, conclude_extraction, enqueue, finish_extraction, list_failed_extractions,
    list_pending_extractions, record_extraction_failure, reset_stuck_processing,
    retry_all_failed_extractions_impl, retry_extraction, skip_extraction, ExtractionRow,
};
use cairn::store::rebuild::{rebuild_knowledge_graph, KgRebuildScope};
use cairn::store::{EdgeRow, NodeRow, ParkedRow, Store};

const NOW: &str = "2024-05-01T00:00:00+00:00";

fn d(x: f64) -> Double {
    Double { bits: x.to_bits() }
}

fn doc(text: &str) -> Json {
    parse(text).unwrap()
}

fn node(id: &str, kind: &str, name: &str) -> NodeRow {
    NodeRow {
        id: id.to_string(),
        kind: kind.to_string(),
        name: name.to_string(),
        props: doc("{}"),
        created: NOW.to_string(),
        updated: NOW.to_string(),
    }
}

fn edge(src: &str, dst: &str, kind: &str) -> EdgeRow {
    EdgeRow {
        src: src.to_string(),
        dst: dst.to_string(),
        kind: kind.to_string(),
        props: doc(r#"{"count":1,"message_ids":[]}"#),
    }
}

fn count(e: &EdgeRow) -> Option<i64> {
    e.props.get("count").and_then(|c| c.as_i64())
}

fn row(id: &str, status: &str, error: Option<&str>) -> ExtractionRow {
    ExtractionRow {
        conversation_id: id.to_string(),
        status: status.to_string(),
        content_hash: "h".to_string(),
        prompt_version: "1".to_string(),
        model_used: None,
        started_at: None,
        completed_at: None,
        error: error.map(|e| e.to_string()),
    }
}

fn with_status(rows: &Vec<ExtractionRow>, status: &str) -> usize {
    rows.iter().filter(|r| r.status == status).count()
}

#[test]
fn retry_all_failed_moves_failed_rows_back_to_pending() {
    let mut rows = vec![
        row("failed-1", "failed", Some("bad json")),
        row("failed-2", "failed", Some("timeout")),
        row("done-1", "done", None),
    ];
    let retried = retry_all_failed_extractions_impl(&mut rows);
    assert_eq!(retried, 2);
    assert_eq!(with_status(&rows, "pending"), 2);
    assert_eq!(with_status(&rows, "failed"), 0);
    assert!(rows.iter().all(|r| r.error.is_none()));
}

fn embedding_for(input: &str) -> Vec<u32> {
    let mut v = vec![0.0f32.to_bits(); 768];
    let slot = match input {
        s if s.contains("old-concept") => 0,
        s if s.contains("old-topic") => 1,
        s if s.contains("new-concept") => 2,
        s if s.contains("research-ops") => 3,
        _ => 4,
    };
    v[slot] = 1.0f32.to_bits();
    v
}

fn distance(a: &Vec<u32>, b: &Vec<u32>) -> f64 {
    let sum: f32 = a
        .iter()
        .zip(b.iter())
        .map(|(x, y)| (f32::from_bits(*x) - f32::from_bits(*y)).powi(2))
        .sum();
    sum.sqrt() as f64
}

fn nearest(store: &Store, kind: &str, e: &Vec<u32>) -> Option<(String, Double)> {
    store
        .vectors
        .iter()
        .filter(|v| store.nodes.iter().any(|n| n.id == v.node_id && n.kind == kind))
        .map(|v| (v.node_id.clone(), distance(&v.embedding, e)))
        .min_by(|a, b| a.1.total_cmp(&b.1))
        .map(|(id, x)| (id, d(x)))
}

fn extract(store: Store, conversation: &str, text: &str, answer: &str) -> Store {
    let (title, created) = store.conversation_head(conversation).unwrap();
    let messages = vec![StoredUserMessage {
        message_id: "m1".to_string(),
        create_time: d(1.0),
        on_visible_path: true,
        text: text.to_string(),
    }];
    let (mut run, mut action) = Run::start(title, created, None, &chunk_messages(&messages));
    loop {
        action = match action {
            Action::Ask(prompt) => {
                assert!(prompt.contains(text), "the messages are shown");
                run.answered(answer)
            }
            Action::Embed(inputs) => {
                run.embedded(inputs.iter().map(|s| embedding_for(s)).collect())
            }
            Action::Find(lookups) => {
                let mut found: Vec<Candidate> = Vec::new();
                if let Stage::Finding { proposals, embeddings } = &run.stage {
                    for i in 0..proposals.len() {
                        found.push(match (lookups[i], &embeddings[i]) {
                            (Lookup::PatternByName, _) => store
                                .pattern_named(&proposals[i].name)
                                .map_or(Candidate::Nothing, Candidate::Named),
                            (Lookup::Nearest, Some(e)) => nearest(&store, &proposals[i].kind, e)
                                .map_or(Candidate::Nothing, |(id, x)| Candidate::Near(id, x)),
                            _ => Candidate::Nothing,
                        });
                    }
                }
                run.found(found)
            }
            Action::Apply(decisions) => {
                return store.apply_extraction(conversation, decisions, NOW).unwrap()
            }
            _ => panic!("the answer is JSON"),
        };
    }
}

fn seeded(id: &str, title: &str) -> Store {
    let mut s = Store::new();
    s.seed_conversation(id, title, &doc("{}"), NOW);
    s
}

#[test]
fn re_extract_replaces_previous_graph_state() {
    let store = seeded("conv-reextract", "Reextract Conversation");
    let store = extract(
        store,
        "conv-reextract",
        &"a".repeat(400),
        r#"{
        "topics":[{"name":"Old Topic","confidence":0.9,"message_ids":["m1"]}],
        "entities":[],
        "concepts":[{"name":"Old Concept","description":"first pass","confidence":0.9,"message_ids":["m1"]}],
        "prompt_patterns":[]
    }"#,
    );
    assert_eq!(store.nodes.len(), 3);
    let store = extract(
        store,
        "conv-reextract",
        &"a".repeat(400),
        r#"{
        "topics":[],
        "entities":[],
        "concepts":[{"name":"New Concept","description":"second pass","confidence":0.95,"message_ids":["m1"]}],
        "prompt_patterns":[]
    }"#,
    );
    let derived: Vec<String> =
        store.nodes.iter().filter(|n| n.kind != "conversation").map(|n| n.name.clone()).collect();
    assert_eq!(derived, vec!["new-concept".to_string()]);
    assert_eq!(
        store.edges.iter().filter(|e| e.src == "conv-reextract").count(),
        1,
        "old edges should be cleared before re-insert"
    );
    assert_eq!(store.vectors.len(), 1, "orphaned embeddings should be removed");
    assert_eq!(store.words.len(), 1, "orphaned FTS rows should be removed");
    assert!(store.is_sound());
}

#[test]
fn approving_parked_item_uses_canonical_graph_rules() {
    let mut store = seeded("conv-workbench", "Workbench Conversation");
    let payload =
        r#"{"name":"Research Ops","description":"coordination","confidence":0.42,"message_ids":["m1"]}"#;
    store.parked.push(ParkedRow {
        id: 1,
        conversation_id: "conv-workbench".to_string(),
        kind: "topic".to_string(),
        payload: doc(payload),
        confidence: d(0.42),
        created_at: NOW.to_string(),
    });
    store.next_parked = 2;
    assert!(store.is_sound());

    let (conversation, proposal) = store.parked_proposal(1).unwrap();
    assert_eq!(conversation, "conv-workbench");
    let e = embedding_for("research-ops: coordination");
    assert!(approval_embeds(&proposal));
    assert_eq!(approval_lookup(&proposal, true), Lookup::Nearest);
    let found = nearest(&store, &proposal.kind, &e)
        .map_or(Candidate::Nothing, |(id, x)| Candidate::Near(id, x));
    let node = take_candidate(&proposal.kind, found);
    let decision = approve(proposal, Some(e), node);
    store.approve_parked(1, &conversation, decision, NOW).unwrap();

    let n = store.nodes.iter().find(|n| n.name == "research-ops").unwrap();
    let link = store.edges.iter().find(|e| e.src == "conv-workbench" && e.dst == n.id).unwrap();
    assert_eq!(link.kind, "belongs_to");
    assert!(n.created.contains('T'), "approved nodes should keep RFC3339-style timestamps");
    assert_eq!(n.props.str_at("tier"), Some("solid"));
    assert!(matches!(n.props.get("approved"), Some(Json::Bool(true))));
    assert_eq!(store.parked.len(), 0);
    assert_eq!(store.vectors.len(), 1, "approved nodes should be indexed for vector search");
    assert_eq!(store.words.len(), 1, "approved nodes should be indexed for FTS");
    assert_eq!(store.parked_proposal(1).unwrap_err(), "Parked extraction not found");
}

fn decision(kind: &str, name: &str, confidence: f64, into: Option<&str>) -> Decision {
    let raw = doc(&format!(r#"{{"name":"{}","description":"about","message_ids":["m"]}}"#, name));
    Decision {
        proposal: parse_proposal(kind, raw, d(confidence)).unwrap(),
        merge_into: into.map(|s| s.to_string()),
        embedding: None,
    }
}

#[test]
fn new_nodes_are_described_and_linked() {
    let mut s = seeded("c", "C");
    s.upsert_decision_as("c", decision("entity", "Ada", 0.7, None), "n1", NOW, false, false).unwrap();
    let n = &s.nodes[1];
    assert_eq!((n.id.as_str(), n.kind.as_str(), n.name.as_str()), ("n1", "entity", "ada"));
    assert_eq!(n.props.str_at("tier"), Some("amber"));
    assert_eq!(n.props.str_at("description"), Some("about"));
    assert_eq!(n.props.get("confidence").unwrap().as_double(), Some(d(0.7)));
    assert!(matches!(n.props.get("approved"), Some(Json::Bool(false))));
    assert_eq!(s.words[0].description, "about");
    assert_eq!(s.edges[0].kind, "mentions");
    assert_eq!(count(&s.edges[0]), Some(1));
    assert_eq!(edge_messages(&s.edges[0].props), vec!["m".to_string()]);
    s.upsert_decision("c", decision("topic", "T", 0.9, None), NOW, false, false).unwrap();
    assert_eq!(s.nodes[2].id.len(), 36);
    assert_eq!(s.nodes[2].props.str_at("tier"), Some("solid"));
}

#[test]
fn merged_nodes_are_touched_and_their_links_counted() {
    let mut s = seeded("c", "C");
    s.upsert_decision_as("c", decision("entity", "Ada", 0.7, None), "n1", NOW, false, false).unwrap();
    for i in 0..25 {
        let raw = doc(&format!(r#"{{"name":"Ada","message_ids":["x{}"]}}"#, i));
        let again = Decision {
            proposal: parse_proposal("entity", raw, d(0.9)).unwrap(),
            merge_into: Some("n1".to_string()),
            embedding: None,
        };
        s.upsert_decision_as("c", again, "unused", "later", false, false).unwrap();
    }
    assert_eq!(s.nodes.len(), 2);
    assert_eq!(s.nodes[1].updated, "later");
    assert_eq!(s.edges.len(), 1);
    assert_eq!(count(&s.edges[0]), Some(26));
    let ids = edge_messages(&s.edges[0].props);
    assert_eq!(ids.len(), 20);
    assert_eq!(ids[0], "m");
    assert_eq!(ids[1], "x0");
}

#[test]
fn doubtful_items_are_parked_and_can_be_rejected() {
    let mut s = seeded("c", "C");
    s.upsert_decision_as("c", decision("topic", "T", 0.59, None), "n1", NOW, false, false).unwrap();
    assert_eq!(s.nodes.len(), 1);
    assert_eq!(s.parked.len(), 1);
    assert_eq!(s.parked[0].kind, "topic");
    assert_eq!(s.parked[0].payload.str_at("name"), Some("T"));
    let id = s.parked[0].id;
    s.reject_parked(id);
    assert_eq!(s.parked.len(), 0);
    s.upsert_decision_as("c", decision("topic", "T", 0.1, None), "n1", NOW, true, true).unwrap();
    assert_eq!(s.nodes[1].props.str_at("tier"), Some("solid"));
}

#[test]
fn decisions_that_do_not_fit_are_refused() {
    let mut s = seeded("c", "C");
    let e = s.upsert_decision_as("d", decision("topic", "T", 0.9, None), "n1", NOW, false, false);
    assert_eq!(e, Err(StoreError::MissingNode));
    let e = s.upsert_decision_as("c", decision("topic", "T", 0.9, None), "c", NOW, false, false);
    assert_eq!(e, Err(StoreError::NodeExists));
    let e = s.upsert_decision_as("c", decision("topic", "T", 0.9, Some("gone")), "n1", NOW, false, false);
    assert_eq!(e, Err(StoreError::MissingNode));
    assert_eq!(StoreError::MissingNode.message(), "FOREIGN KEY constraint failed");
    assert_eq!(StoreError::NodeExists.message(), "UNIQUE constraint failed: node.id");
    assert_eq!(StoreError::NoConversation.message(), "Query returned no rows");
    let e = seeded("c", "C").apply_extraction("d", vec![], NOW);
    assert!(matches!(e, Err(StoreError::NoConversation)));
    let s = seeded("c", "C");
    let e = s.apply_extraction("c", vec![decision("topic", "T", 0.9, Some("gone"))], NOW);
    assert!(matches!(e, Err(StoreError::MissingNode)));
}

fn shared() -> Store {
    let mut s = seeded("c1", "C1");
    s.seed_conversation("c2", "C2", &doc("{}"), NOW);
    s.nodes.push(node("t", "topic", "shared"));
    s.nodes.push(node("k", "concept", "own"));
    s.edges.push(edge("c1", "t", "belongs_to"));
    s.edges.push(edge("c2", "t", "belongs_to"));
    s.edges.push(edge("c1", "k", "discusses"));
    s
}

#[test]
fn clearing_leaves_what_others_hold() {
    let mut s = shared();
    s.clear_conversation_derivations("c1");
    let ids: Vec<&str> = s.nodes.iter().map(|n| n.id.as_str()).collect();
    assert_eq!(ids, vec!["c1", "c2", "t"]);
    assert_eq!(s.edges.len(), 1);
    assert_eq!(s.edges[0].src, "c2");
    assert!(s.is_sound());
}

#[test]
fn other_links_keep_a_node_when_a_conversation_is_cleared() {
    let mut s = shared();
    s.edges.push(edge("c1", "k", "relates_to"));
    s.clear_conversation_derivations("c1");
    assert!(s.contains_node("k"));
    assert_eq!(s.edges.len(), 2);
}

#[test]
fn rows_that_point_nowhere_are_not_sound() {
    let mut s = shared();
    assert!(s.is_sound());
    s.edges.push(edge("c1", "gone", "mentions"));
    assert!(!s.is_sound());
    let mut s = shared();
    s.nodes.push(node("t", "topic", "twice"));
    assert!(!s.is_sound());
}

#[test]
fn nodes_are_looked_up() {
    let mut s = shared();
    s.nodes.push(node("p", "pattern", "ask"));
    assert_eq!(s.pattern_named("ask").as_deref(), Some("p"));
    assert_eq!(s.pattern_named("shared"), None);
    assert_eq!(s.conversation_head("c1"), Some(("C1".to_string(), NOW.to_string())));
    assert_eq!(s.conversation_head("t"), None);
    assert!(s.contains_conversation("c2") && !s.contains_conversation("t"));
    s.touch_node("t", "later");
    assert_eq!(s.nodes[2].updated, "later");
}

#[test]
fn orphans_are_marked() {
    let mut s = shared();
    s.nodes[3].props = doc(r#"{"tier":"solid","orphan_state":"archived"}"#);
    s.orphan_promote("k");
    assert_eq!(s.nodes[3].props.str_at("orphan_state"), Some("promoted"));
    assert_eq!(s.nodes[3].props.str_at("tier"), Some("solid"));
    s.orphan_archive("t");
    assert_eq!(s.nodes[2].props.str_at("orphan_state"), Some("archived"));
    assert!(s.nodes[0].props.str_at("orphan_state").is_none());
}

#[test]
fn an_extraction_goes_through_its_states() {
    let mut rows: Vec<ExtractionRow> = vec![];
    enqueue(&mut rows, "a", "h1");
    assert_eq!(rows[0].status, "pending");
    begin_extraction(&mut rows, "a", "m", "t1");
    assert_eq!(rows[0].status, "processing");
    assert_eq!(rows[0].model_used.as_deref(), Some("m"));
    assert_eq!(rows[0].started_at.as_deref(), Some("t1"));
    record_extraction_failure(&mut rows, "a", "broken", "t2");
    assert_eq!(rows[0].status, "failed");
    assert_eq!(rows[0].error.as_deref(), Some("broken"));
    assert_eq!(rows[0].completed_at.as_deref(), Some("t2"));
    retry_extraction(&mut rows, "a");
    assert_eq!(rows[0].status, "pending");
    assert_eq!(rows[0].error, None);
    begin_extraction(&mut rows, "b", "m", "t3");
    assert_eq!(rows[1].status, "processing");
    assert_eq!(rows[1].content_hash, "");
    assert_eq!(rows[1].prompt_version, "1");
    assert_eq!(reset_stuck_processing(&mut rows), 1);
    assert_eq!(rows[1].status, "pending");
    assert_eq!(rows[1].started_at, None);
    begin_extraction(&mut rows, "a", "m", "t4");
    finish_extraction(&mut rows, "a", "t5");
    assert_eq!(rows[0].status, "done");
    enqueue(&mut rows, "a", "h1");
    assert_eq!(rows[0].status, "done");
    enqueue(&mut rows, "a", "h2");
    assert_eq!(rows[0].status, "stale");
    skip_extraction(&mut rows, "b");
    assert_eq!(rows[1].status, "skipped");
}

#[test]
fn short_and_recent_conversations_wait_first() {
    let rows = vec![
        row("long", "pending", None),
        row("old", "stale", None),
        row("new", "failed", Some("x")),
        row("gone", "pending", None),
        row("also-new", "pending", None),
        row("skipped", "skipped", None),
        row("done", "done", None),
    ];
    let mut nodes = vec![
        node("long", "conversation", "L"),
        node("old", "conversation", "O"),
        node("new", "conversation", "N"),
        node("also-new", "conversation", "A"),
    ];
    nodes[0].props = doc(r#"{"turn_count":9,"chatgpt_updated":50.0}"#);
    nodes[1].props = doc(r#"{"turn_count":2,"chatgpt_updated":10.0}"#);
    nodes[2].props = doc(r#"{"turn_count":2,"chatgpt_updated":20.0}"#);
    nodes[3].props = doc(r#"{"turn_count":2,"chatgpt_updated":20.0}"#);
    let waiting = list_pending_extractions(&rows, &nodes);
    let ids: Vec<&str> = waiting.iter().map(|w| w.id.as_str()).collect();
    assert_eq!(ids, vec!["also-new", "new", "old", "long", "gone"]);
    assert_eq!(waiting[4].turns, 999999);
}

#[test]
fn turns_are_read_as_integers() {
    let told = [
        ("7", 7),
        ("-2", -2),
        ("2.9", 2),
        ("-2.9", -2),
        ("0.5", 0),
        ("1e3", 1000),
        ("2251799813685249.5", 2251799813685249),
        ("9007199254740994.0", 9007199254740994),
        ("1e300", i64::MAX),
        ("-1e300", i64::MIN),
        ("-9223372036854775808.0", i64::MIN),
        ("18446744073709551615", i64::MAX),
        ("5e-324", 0),
        ("true", 1),
        ("false", 0),
        ("null", 999999),
        ("[3]", 0),
        ("{}", 0),
        (r#""12""#, 12),
        (r#"" \t-12 turns""#, -12),
        (r#""+0007.9""#, 7),
        (r#""1e3""#, 1),
        (r#""many""#, 0),
        (r#""- 3""#, 0),
        (r#""99999999999999999999999""#, i64::MAX),
        (r#""-9223372036854775809""#, i64::MIN),
    ];
    for (text, turns) in told {
        let mut n = node("c", "conversation", "C");
        n.props = doc(&format!(r#"{{"turn_count":{}}}"#, text));
        let waiting = list_pending_extractions(&vec![row("c", "pending", None)], &vec![n]);
        assert_eq!(waiting[0].turns, turns, "{}", text);
    }
}

#[test]
fn recent_conversations_are_told_by_any_value() {
    let told = [
        ("text", r#""2024""#),
        ("early-text", r#""1999""#),
        ("real", "1700000000.5"),
        ("whole", "1700000000"),
        ("equal", "1700000000.0"),
        ("huge", "1e30"),
        ("close", "9007199254740993"),
        ("below-close", "9007199254740992.0"),
        ("yes", "true"),
        ("half", "0.5"),
        ("nothing", "null"),
        ("minus-zero", "-0.0"),
        ("negative", "-0.5"),
        ("more-negative", "-1"),
        ("between", "-1.5"),
        ("list", "[9]"),
    ];
    let mut rows = Vec::new();
    let mut nodes = Vec::new();
    for (id, text) in told {
        rows.push(row(id, "pending", None));
        let mut n = node(id, "conversation", id);
        n.props = doc(&format!(r#"{{"turn_count":1,"chatgpt_updated":{}}}"#, text));
        nodes.push(n);
    }
    let waiting = list_pending_extractions(&rows, &nodes);
    let ids: Vec<&str> = waiting.iter().map(|w| w.id.as_str()).collect();
    assert_eq!(
        ids,
        vec![
            "list",
            "text",
            "early-text",
            "huge",
            "close",
            "below-close",
            "real",
            "equal",
            "whole",
            "yes",
            "half",
            "minus-zero",
            "nothing",
            "negative",
            "more-negative",
            "between",
        ]
    );
}

#[test]
fn failures_are_listed_latest_first() {
    let mut rows = vec![row("a", "failed", Some("x")), row("b", "failed", None), row("c", "done", None)];
    rows[0].completed_at = Some("2024-01-01".to_string());
    rows[1].completed_at = Some("2024-02-01".to_string());
    let listed = list_failed_extractions(&rows, &vec![node("a", "conversation", "A")]);
    assert_eq!(listed.len(), 2);
    assert_eq!((listed[0].id.as_str(), listed[0].title.as_str(), listed[0].error.as_str()), ("b", "(untitled)", ""));
    assert_eq!((listed[1].id.as_str(), listed[1].title.as_str(), listed[1].error.as_str()), ("a", "A", "x"));
    let many: Vec<ExtractionRow> = (0..201).map(|i| row(&format!("f{}", i), "failed", None)).collect();
    assert_eq!(list_failed_extractions(&many, &vec![]).len(), 200);
}

#[test]
fn refreshing_brings_back_what_was_left_behind() {
    let mut s = shared();
    let mut rows = vec![
        row("c1", "failed", Some("x")),
        row("c2", "done", None),
        row("c3", "skipped", None),
        row("c4", "stale", None),
        row("c5", "processing", None),
    ];
    let r = rebuild_knowledge_graph(&mut s, &mut rows, KgRebuildScope::Refresh);
    assert_eq!(r.scope, "refresh");
    assert_eq!(r.conversations_requeued, 3);
    assert_eq!(r.edges_deleted, 0);
    assert_eq!(s.nodes.len(), 4);
    assert_eq!(with_status(&rows, "pending"), 3);
    assert_eq!(with_status(&rows, "processing"), 1);
}

#[test]
fn rebuilding_starts_from_the_conversations() {
    let mut s = shared();
    s.upsert_decision_as("c1", decision("topic", "T", 0.2, None), "n", NOW, false, false).unwrap();
    let mut rows = vec![row("c1", "done", None)];
    let r = rebuild_knowledge_graph(&mut s, &mut rows, KgRebuildScope::RebuildAll);
    assert_eq!(r.scope, "rebuild_all");
    assert_eq!(r.derived_nodes_deleted, 2);
    assert_eq!(r.edges_deleted, 3);
    assert_eq!(r.parked_deleted, 1);
    assert_eq!(r.conversations_requeued, 2);
    assert_eq!(s.nodes.len(), 2);
    assert!(s.edges.is_empty() && s.parked.is_empty());
    assert_eq!(with_status(&rows, "pending"), 2);
    assert_eq!(rows[1].conversation_id, "c2");
}

#[test]
fn a_second_retry_finds_nothing() {
    let mut rows = vec![row("a", "failed", Some("bad")), row("b", "done", None)];
    assert_eq!(retry_all_failed_extractions_impl(&mut rows), 1);
    assert_eq!(retry_all_failed_extractions_impl(&mut rows), 0);
    assert_eq!(with_status(&rows, "pending"), 1);
    assert_eq!(with_status(&rows, "done"), 1);
}

fn linked_from(store: &Store, conversation: &str) -> Vec<(String, String, String)> {
    let mut v: Vec<(String, String, String)> = store
        .edges
        .iter()
        .filter(|e| e.src == conversation)
        .map(|e| {
            let n = store.nodes.iter().find(|n| n.id == e.dst).unwrap();
            (e.kind.clone(), n.kind.clone(), n.name.clone())
        })
        .collect();
    v.sort();
    v
}

#[test]
fn the_same_answers_give_the_same_links_again() {
    let answer = r#"{
        "topics":[{"name":"Old Topic","confidence":0.9,"message_ids":["m1"]}],
        "concepts":[{"name":"Old Concept","description":"first pass","confidence":0.9}],
        "prompt_patterns":[{"name":"Ask Why","confidence":0.8}]
    }"#;
    let text = "a".repeat(400);
    let first = extract(seeded("c", "C"), "c", &text, answer);
    let links = linked_from(&first, "c");
    let ids: Vec<String> = first.nodes.iter().map(|n| n.id.clone()).collect();
    assert_eq!(links.len(), 3);
    let second = extract(first, "c", &text, answer);
    assert_eq!(linked_from(&second, "c"), links);
    let again: Vec<String> = second.nodes.iter().map(|n| n.id.clone()).collect();
    assert_eq!(again, ids);
    assert!(second.is_sound());
    assert_eq!((second.vectors.len(), second.words.len()), (2, 3));
}

#[test]
fn edges_found_again_keep_twenty_messages() {
    let mut s = seeded("c", "C");
    let ids: Vec<String> = (0..30).map(|i| format!("\"m{}\"", i)).collect();
    let raw = doc(&format!(r#"{{"name":"Ada","message_ids":[{}]}}"#, ids.join(",")));
    let many = Decision {
        proposal: parse_proposal("entity", raw, d(0.9)).unwrap(),
        merge_into: None,
        embedding: None,
    };
    s.upsert_decision_as("c", many, "n1", NOW, false, false).unwrap();
    assert_eq!(edge_messages(&s.edges[0].props).len(), 30);
    s.upsert_decision_as("c", decision("entity", "Ada", 0.9, Some("n1")), "x", NOW, false, false)
        .unwrap();
    let kept = edge_messages(&s.edges[0].props);
    assert_eq!(kept.len(), 20);
    assert_eq!(kept[19], "m19");
    assert_eq!(count(&s.edges[0]), Some(2));
}

fn counted_again(props: &str) -> Json {
    let props = find_again(&doc(props), &vec!["m".to_string()]);
    match props.get("count") {
        Some(c) => c.copy(),
        None => Json::Null,
    }
}

#[test]
fn edges_are_counted_from_what_they_tell() {
    let first = find_first(&vec!["x".to_string(), "y".to_string()]);
    assert_eq!(first.get("count").unwrap().as_i64(), Some(1));
    assert_eq!(edge_messages(&first), vec!["x".to_string(), "y".to_string()]);
    assert_eq!(edge_messages(&doc(r#"{"message_ids":["a",3]}"#)), vec!["a".to_string()]);
    assert_eq!(counted_again("{}").as_i64(), Some(1));
    assert_eq!(counted_again("null").as_i64(), Some(1));
    assert_eq!(counted_again(r#"{"count":null}"#).as_i64(), Some(1));
    assert_eq!(counted_again(r#"{"count":7}"#).as_i64(), Some(8));
    assert_eq!(counted_again(r#"{"count":-3}"#).as_i64(), Some(-2));
    assert_eq!(counted_again(r#"{"count":-1}"#).as_i64(), Some(0));
    assert_eq!(counted_again(r#"{"count":true}"#).as_i64(), Some(2));
    assert_eq!(counted_again(r#"{"count":"12 times"}"#).as_i64(), Some(13));
    assert_eq!(counted_again(r#"{"count":[5]}"#).as_i64(), Some(1));
    let pointed = counted_again(r#"{"count":3.0}"#);
    assert_eq!((pointed.as_i64(), pointed.as_double()), (None, Some(d(4.0))));
    let past = counted_again(r#"{"count":9223372036854775807}"#);
    assert_eq!((past.as_i64(), past.as_double()), (None, Some(d(9.22337203685478e18))));
}

#[test]
fn edges_found_again_keep_their_other_properties() {
    let mut s = seeded("c", "C");
    s.nodes.push(node("n1", "entity", "ada"));
    let mut e = edge("c", "n1", "mentions");
    e.props = doc(r#"{"note":"by hand","count":-4,"weight":{"of":2},"message_ids":["a"]}"#);
    s.edges.push(e);
    s.upsert_decision_as("c", decision("entity", "Ada", 0.9, Some("n1")), "x", NOW, false, false)
        .unwrap();
    let props = &s.edges[0].props;
    assert_eq!(s.edges.len(), 1);
    assert_eq!(props.str_at("note"), Some("by hand"));
    assert_eq!(props.get("weight").unwrap().get("of").unwrap().as_i64(), Some(2));
    assert_eq!(count(&s.edges[0]), Some(-3));
    assert_eq!(edge_messages(props), vec!["a".to_string(), "m".to_string()]);
    let odd = find_again(&doc("[1]"), &vec!["m".to_string()]);
    assert_eq!(odd.as_array().unwrap().len(), 1);
}

#[test]
fn extractions_end_done_or_failed() {
    let mut rows = vec![row("a", "pending", None), row("b", "pending", Some("old"))];
    begin_extraction(&mut rows, "a", "m", "t1");
    begin_extraction(&mut rows, "b", "m", "t1");
    assert_eq!(with_status(&rows, "processing"), 2);
    conclude_extraction(&mut rows, "a", &Ok(()), "t2");
    conclude_extraction(&mut rows, "b", &Err("timeout".to_string()), "t2");
    assert_eq!((rows[0].status.as_str(), rows[0].error.as_deref()), ("done", None));
    assert_eq!((rows[1].status.as_str(), rows[1].error.as_deref()), ("failed", Some("timeout")));
    assert_eq!(rows[1].completed_at.as_deref(), Some("t2"));
}
