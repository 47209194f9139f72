use cairn::archive::{content_hash, source_id};
use cairn::double::Double;
use cairn::ingest::import::{after_reading_export, read_export, Workspace};
use cairn::ingest::parser::{
    already_imported, cached_messages, char_count, dates_export, newest_update, plan_import,
    props_for, scan_conversation, scan_export, visible_path, ImportPlan,
};
use cairn::ingest::proposal::{approve, decide, parse_proposal};
use cairn::json::{parse, parse_list, Json};
use cairn::store::queue::{begin_extraction, ExtractionRow};
use cairn::store::rebuild::{rebuild_knowledge_graph, KgRebuildScope};
use cairn::store::sources::SourceLink;
use cairn::store::Store;

const EXPORT: &str = r#"[
  {
    "id": "conv-1", "title": "First", "create_time": 100.0, "update_time": 200.5,
    "current_node": "a3",
    "mapping": {
      "root": {"parent": null, "children": ["a1"]},
      "a1": {"parent": "root", "children": ["a2", "x"],
             "message": {"author": {"role": "user"}, "create_time": 101.0,
                         "content": {"parts": ["hello", {"image": 1}, "there"]}}},
      "a2": {"parent": "a1", "children": ["a3"],
             "message": {"author": {"role": "assistant"}, "create_time": 102.0,
                         "metadata": {"model_slug": "gpt-4"}, "content": {"parts": ["hi"]}}},
      "a3": {"parent": "a2", "children": [],
             "message": {"author": {"role": "user"}, "create_time": 103.0,
                         "metadata": {"model_slug": "unknown"}, "content": {"parts": ["more"]}}},
      "sys": {"parent": "root",
              "message": {"author": {"role": "system"}, "content": {"parts": ["rules"]}}}
    }
  },
  {
    "id": "conv-2", "update_time": 50, "current_node": "b1",
    "mapping": {
      "b1": {"parent": null, "children": [],
             "message": {"author": {"role": "user"}, "content": {"parts": ["only"]}}}
    }
  },
  {"id": "conv-3", "title": "No messages", "current_node": null, "mapping": {}},
  {"id": "conv-4", "current_node": "c1",
   "mapping": {"c1": {"message": {"author": {"role": "assistant"}}}}}
]"#;

fn d(x: f64) -> Double {
    Double { bits: x.to_bits() }
}

fn exported() -> Vec<Json> {
    parse_list(EXPORT.as_bytes()).unwrap()
}

fn workspace() -> Workspace {
    Workspace { store: Store::new(), queue: Vec::<ExtractionRow>::new(), sources: Vec::<SourceLink>::new() }
}

fn stamps() -> Vec<String> {
    vec!["200".to_string(), "50".to_string()]
}

#[test]
fn end_to_end_ingest_populates_tables() {
    let export = read_export(EXPORT.as_bytes()).expect("read_export");
    assert_eq!(export.source_id.len(), 64, "source_id is sha256 hex");
    assert_eq!(export.source_id, source_id(EXPORT.as_bytes()));
    assert_eq!(export.total, 4);
    assert_eq!(export.skipped, 2);

    let mut w = workspace();
    w.import_all(&export.conversations, &export.source_id, &stamps(), "2024-05-01T00:00:00+00:00");

    let conversations = w.store.nodes.iter().filter(|n| n.kind == "conversation").count();
    assert_eq!(conversations, 2, "two conversation nodes");
    let messages: Vec<_> = export.conversations.iter().flat_map(|c| c.messages.iter()).collect();
    assert_eq!(messages.len(), 3, "only user-authored messages are indexed");
    assert_eq!(
        messages.iter().filter(|m| m.on_visible_path).count(),
        3,
        "visible_path should cover the 3 stored user messages"
    );
    assert_eq!(
        messages.iter().filter(|m| m.role != "user").count(),
        0,
        "assistant/system rows are not stored"
    );
    assert_eq!(
        w.queue.iter().filter(|r| r.status == "pending").count(),
        2,
        "both conversations queued for extraction"
    );

    let name = "conversations-1970-01-01-abcdef.json";
    assert!(
        matches!(plan_import(Some(name), false), ImportPlan::Refuse(_)),
        "second ingest of same checksum is rejected"
    );
    assert!(
        matches!(plan_import(Some(name), true), ImportPlan::PurgeThenImport),
        "force=true re-imports after purging"
    );
    w.forget_source(&export.source_id);
    assert!(w.store.nodes.is_empty() && w.queue.is_empty() && w.sources.is_empty());
    w.import_all(&export.conversations, &export.source_id, &stamps(), "2024-05-02T00:00:00+00:00");
    let conversations = w.store.nodes.iter().filter(|n| n.kind == "conversation").count();
    assert_eq!(conversations, 2, "override rebuilds the conversations");
    assert!(w.store.is_sound());
}

#[test]
fn imports_say_when_a_file_was_seen() {
    assert_eq!(
        already_imported("conversations-2024-05-01-ba7816.json"),
        "Already imported on 2024-05-01."
    );
    assert_eq!(already_imported("plain"), "Already imported on a previous date.");
    assert_eq!(already_imported("one-dash"), "Already imported on dash.");
    assert!(matches!(plan_import(None, false), ImportPlan::Import));
    assert!(matches!(plan_import(None, true), ImportPlan::Import));
}

#[test]
fn an_export_is_dated_by_its_newest_conversation() {
    assert_eq!(newest_update(&exported()), d(200.5));
    assert!(dates_export(d(200.5)));
    assert!(!dates_export(newest_update(&Vec::new())));
    assert!(!dates_export(d(-1.0)));
}

#[test]
fn texts_that_are_no_lists_are_no_exports() {
    assert!(read_export(b"{}").unwrap_err().starts_with("Invalid JSON: "));
    assert!(read_export(b"[1").unwrap_err().starts_with("Invalid JSON: "));
}

#[test]
fn lists_of_anything_else_are_no_exports() {
    let refused = "Not a conversations export: every entry needs a mapping and a current_node.";
    assert_eq!(read_export(br#"[{"id":"c1"}]"#).unwrap_err(), refused);
    assert_eq!(read_export(br#"[{"id":"c1","mapping":{}}]"#).unwrap_err(), refused);
    assert_eq!(read_export(br#"[{"mapping":[],"current_node":"a"}]"#).unwrap_err(), refused);
    assert_eq!(read_export(br#"[{"mapping":{},"current_node":"a"},7]"#).unwrap_err(), refused);
    assert_eq!(read_export(b"[]").unwrap().total, 0);
    let all = parse_list(br#"[{"mapping":{},"current_node":"a"}]"#).unwrap();
    assert_eq!(after_reading_export(b"x", all).unwrap().skipped, 1);
}

#[test]
fn what_is_kept_of_a_conversation() {
    let all = exported();
    let c = scan_conversation(&all[0]).unwrap();
    assert_eq!(c.title, "First");
    assert_eq!(c.branch_count, 1);
    assert_eq!(c.models, vec!["gpt-4".to_string()]);
    assert_eq!(c.messages.len(), 2);
    assert_eq!(c.messages[0].message_id, "a1");
    assert_eq!(c.messages[0].text, "hello\nthere\n");
    assert_eq!(c.messages[0].parent_id.as_deref(), Some("root"));
    assert_eq!(c.messages[0].model, "unknown");
    assert_eq!(char_count(&c), 17);
    let cached = cached_messages(&c);
    assert_eq!(cached[1].message_id, "a3");
    assert_eq!(cached[1].create_time, d(103.0));
    let mut path = visible_path(&all[0]);
    path.sort();
    assert_eq!(path, vec!["a1", "a2", "a3", "root"]);

    let c = scan_conversation(&all[1]).unwrap();
    assert_eq!(c.title, "Untitled");
    assert_eq!(c.create_time, d(0.0));
    assert!(scan_conversation(&all[2]).is_none());
    assert!(scan_conversation(&all[3]).is_none());
    assert_eq!(scan_export(&all).1, 2);
}

#[test]
fn paths_that_go_round_end() {
    let conv = parse(
        r#"{"current_node":"p","mapping":{"p":{"parent":"q"},"q":{"parent":"p"}}}"#,
    )
    .unwrap();
    let mut path = visible_path(&conv);
    path.sort();
    assert_eq!(path, vec!["p", "q"]);
}

#[test]
fn properties_describe_the_conversation() {
    let c = scan_conversation(&exported()[0]).unwrap();
    let p = props_for(&c, "h");
    assert_eq!(p.str_at("title"), Some("First"));
    assert_eq!(p.get("chatgpt_created").unwrap().as_double(), Some(d(100.0)));
    assert_eq!(p.get("chatgpt_updated").unwrap().as_double(), Some(d(200.5)));
    assert_eq!(p.get("turn_count").unwrap().as_i64(), Some(2));
    assert_eq!(p.get("branch_count").unwrap().as_i64(), Some(1));
    assert_eq!(p.get("models").unwrap().as_array().unwrap()[0].as_str(), Some("gpt-4"));
    assert_eq!(p.str_at("content_hash"), Some("h"));
}

#[test]
fn a_conversation_in_two_sources_survives_the_loss_of_one() {
    let export = read_export(EXPORT.as_bytes()).unwrap();
    let mut w = workspace();
    w.import_all(&export.conversations, "s1", &stamps(), "t1");
    w.import_conversation(&export.conversations[0], "s2", "200", "t2");
    assert_eq!(w.sources.len(), 3);
    w.forget_source("s1");
    let ids: Vec<&str> = w.store.nodes.iter().map(|n| n.id.as_str()).collect();
    assert_eq!(ids, vec!["conv-1"]);
    assert_eq!(w.queue.len(), 1);
    assert_eq!(w.sources.len(), 1);
    assert_eq!(w.sources[0].source_id, "s2");
}

#[test]
fn changed_contents_are_extracted_again() {
    let export = read_export(EXPORT.as_bytes()).unwrap();
    let mut w = workspace();
    w.import_all(&export.conversations, "s1", &stamps(), "t1");
    assert_eq!(w.queue[0].content_hash, content_hash("conv-1", "200"));
    w.queue[0].status = "done".to_string();
    w.queue[1].status = "done".to_string();
    w.import_all(&export.conversations, "s1", &vec!["201".to_string(), "50".to_string()], "t2");
    assert_eq!(w.queue[0].status, "stale");
    assert_eq!(w.queue[1].status, "done");
    assert_eq!(w.store.nodes.len(), 2);
    assert_eq!(w.store.nodes[0].updated, "t2");
    assert_eq!(w.store.nodes[0].created, "t1");
}

fn is_intact(w: &Workspace) -> bool {
    let conversation = |id: &str| {
        w.store.nodes.iter().any(|n| n.id == id && n.kind == "conversation")
    };
    let rows = w.queue.iter().enumerate().all(|(i, r)| {
        conversation(&r.conversation_id)
            && w.queue[..i].iter().all(|x| x.conversation_id != r.conversation_id)
    });
    let links = w.sources.iter().enumerate().all(|(i, l)| {
        w.sources[..i]
            .iter()
            .all(|x| (&x.conversation_id, &x.source_id) != (&l.conversation_id, &l.source_id))
    });
    w.store.is_sound() && rows && links
}

#[test]
fn every_operation_keeps_the_workspace_intact() {
    let export = read_export(EXPORT.as_bytes()).unwrap();
    let mut w = workspace();
    w.import_all(&export.conversations, "s1", &stamps(), "t1");
    w.import_all(&export.conversations, "s1", &stamps(), "t2");
    w.import_conversation(&export.conversations[0], "s2", "200", "t3");
    assert!(is_intact(&w));
    begin_extraction(&mut w.queue, "conv-1", "m", "t4");
    assert!(is_intact(&w));
    let raw = parse(r#"{"name":"Topic","confidence":0.9}"#).unwrap();
    let doubtful = parse(r#"{"name":"Doubt","confidence":0.1}"#).unwrap();
    let decisions = vec![
        decide(parse_proposal("topic", raw, d(0.9)).unwrap(), Some(vec![1]), None),
        decide(parse_proposal("topic", doubtful, d(0.1)).unwrap(), None, None),
    ];
    let store = std::mem::replace(&mut w.store, Store::new());
    w.store = store.apply_extraction("conv-1", decisions, "t5").unwrap();
    assert_eq!(w.store.nodes.len(), 3);
    assert_eq!(w.store.parked.len(), 1);
    assert!(is_intact(&w));
    let (conversation, proposal) = w.store.parked_proposal(1).unwrap();
    let approved = approve(proposal, None, None);
    w.store.approve_parked(1, &conversation, approved, "t6").unwrap();
    assert_eq!(w.store.nodes.len(), 4);
    assert!(is_intact(&w));
    w.forget_source("s1");
    assert!(is_intact(&w));
    rebuild_knowledge_graph(&mut w.store, &mut w.queue, KgRebuildScope::RebuildAll);
    assert_eq!(w.store.nodes.len(), 1);
    assert_eq!(w.queue.len(), 1);
    assert!(is_intact(&w));
}
