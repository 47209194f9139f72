use cairn::archive::pack_text;
use cairn::ask::{
    after_reading, after_search, ask_opts, ask_prompt, build_context, conversations_to_read,
    read_messages, AskStep, Context, ContextStep, Excerpt, MessageBlob, MessageText, SessionState,
    TurnRecord,
};
use cairn::double::Double;
use cairn::graph::{get_initial_graph, latest_conversations, sorted_names, GraphData};
use cairn::home::{get_home_tiles, get_node_detail, get_workspace_status, growing, HomeTile};
use cairn::json::{parse, Json};
use cairn::lens::{
    bridging_concepts, collect_sources, count_orphans, lens_bridges, lens_drift_data,
    lens_orphans, lens_territory, orphan_concepts, territory_topics, Begun,
};
use cairn::natural::Natural;
use cairn::path::{lens_path, path_strength, resolve, shortest_path, strongest_path};
use cairn::search::{
    fetch_graph_for_nodes, like_pattern, names_once, rrf_fuse, search_nodes, Search, Sought,
};
use cairn::store::queue::ExtractionRow;
use cairn::store::{EdgeRow, NodeRow, ParkedRow, Store};
use cairn::workbench::{
    get_conversation_workbench, parked_items, solid_nodes, workbench_message,
};

fn doc(text: &str) -> Json {
    parse(text).unwrap()
}

fn node(id: &str, kind: &str, name: &str, at: &str) -> NodeRow {
    NodeRow {
        id: id.to_string(),
        kind: kind.to_string(),
        name: name.to_string(),
        props: doc("{}"),
        created: at.to_string(),
        updated: at.to_string(),
    }
}

fn edge(src: &str, dst: &str, kind: &str, count: i64) -> EdgeRow {
    EdgeRow {
        src: src.to_string(),
        dst: dst.to_string(),
        kind: kind.to_string(),
        props: doc(&format!(r#"{{"count":{},"message_ids":[]}}"#, count)),
    }
}

fn names(v: &[&str]) -> Vec<String> {
    v.iter().map(|s| s.to_string()).collect()
}

fn shown(g: &GraphData) -> Vec<String> {
    let mut ids: Vec<String> = g.nodes.iter().map(|n| n.id.clone()).collect();
    ids.sort();
    ids
}

/// Conversations c1..c4, topics t1..t3, concepts k1 and k2.
fn sample() -> Store {
    let mut s = Store::new();
    for (id, at) in [("c1", "2024-01-01"), ("c2", "2024-02-01"), ("c3", "2024-03-01"), ("c4", "2024-04-01")] {
        s.nodes.push(node(id, "conversation", &format!("talk {}", id), at));
    }
    for id in ["t1", "t2", "t3"] {
        s.nodes.push(node(id, "topic", &format!("topic {}", id), "2024-01-01"));
    }
    s.nodes.push(node("k1", "concept", "wide", "2024-01-01"));
    s.nodes.push(node("k2", "concept", "narrow", "2024-01-02"));
    s.edges.push(edge("c1", "t1", "belongs_to", 1));
    s.edges.push(edge("c2", "t1", "belongs_to", 1));
    s.edges.push(edge("c2", "t2", "belongs_to", 2));
    s.edges.push(edge("c3", "t3", "belongs_to", 1));
    s.edges.push(edge("c1", "k1", "discusses", 5));
    s.edges.push(edge("c2", "k1", "discusses", 3));
    s.edges.push(edge("c3", "k1", "discusses", 1));
    s.edges.push(edge("c3", "k2", "discusses", 4));
    s
}

#[test]
fn lens_territory_runs_against_empty_graph() {
    let store = Store::new();
    assert_eq!(territory_topics(&store).len(), 0);
    let g = lens_territory(&store);
    assert!(g.nodes.is_empty() && g.links.is_empty());
}

#[test]
fn topics_are_ranked_by_their_conversations() {
    let s = sample();
    assert_eq!(territory_topics(&s)[0], "t1");
    assert_eq!(territory_topics(&s).len(), 3);
    assert_eq!(collect_sources(&s.edges, "t1", "belongs_to"), names(&["c1", "c2"]));
    let g = lens_territory(&s);
    assert!(shown(&g).contains(&"t1".to_string()));
    let g = growing(&s);
    assert_eq!((g[0].id.as_str(), g[0].kind.as_str()), ("t1", "topic"));
    assert_eq!(g.len(), 3);
}

#[test]
fn bridges_reach_three_topics() {
    let s = sample();
    assert_eq!(bridging_concepts(&s), names(&["k1"]));
    assert!(shown(&lens_bridges(&s)).contains(&"k1".to_string()));
    let mut s = sample();
    s.edges.remove(3);
    assert!(bridging_concepts(&s).is_empty());
}

#[test]
fn orphans_are_old_and_stand_alone() {
    let s = sample();
    assert_eq!(orphan_concepts(&s, "2024-02-01"), names(&["k2"]));
    assert_eq!(count_orphans(&s, "2024-02-01"), 1);
    assert_eq!(count_orphans(&s, "2024-01-02"), 0);
    assert_eq!(shown(&lens_orphans(&s, "2024-02-01")), names(&["c3", "k2"]));
}

#[test]
fn drift_counts_conversations_by_topic_and_month() {
    let s = sample();
    let begun = |c: &str, m: &str| Begun { conversation_id: c.to_string(), month: m.to_string() };
    let cells = lens_drift_data(
        &s,
        &vec![begun("c1", "2024-02"), begun("c2", "2024-01"), begun("c3", "2024-01")],
    );
    let got: Vec<(&str, &str, i64)> =
        cells.iter().map(|c| (c.month.as_str(), c.topic.as_str(), c.vol)).collect();
    assert_eq!(
        got,
        vec![
            ("2024-01", "topic t1", 1),
            ("2024-01", "topic t2", 1),
            ("2024-01", "topic t3", 1),
            ("2024-02", "topic t1", 1),
        ]
    );
    let cells = lens_drift_data(&s, &vec![begun("c1", "2024-01"), begun("c2", "2024-01")]);
    assert_eq!(cells[0].vol, 2);
    assert_eq!(cells.len(), 2);
}

#[test]
fn the_first_view_starts_from_recent_conversations() {
    let s = sample();
    assert_eq!(latest_conversations(&s.nodes, 2), names(&["c4", "c3"]));
    assert_eq!(sorted_names(&names(&["b", "a", "b"])), names(&["a", "b"]));
    let g = get_initial_graph(&s);
    assert_eq!(g.nodes.len(), 9);
    assert_eq!(g.links.len(), 8);
    assert!(g.links.iter().all(|l| l.value == 1));
    assert_eq!(g.links[0].target, "k2");
    let g = get_initial_graph(&Store::new());
    assert!(g.nodes.is_empty() && g.links.is_empty());
}

#[test]
fn first_views_hold_at_most_twelve_seeds_and_their_neighbours() {
    let mut s = Store::new();
    for i in 0..14 {
        s.nodes.push(node(&format!("c{:02}", i), "conversation", "c", &format!("2024-01-{:02}", i + 1)));
    }
    for i in 0..130 {
        let id = format!("k{:03}", i);
        s.nodes.push(node(&id, "concept", "k", "2024-01-01"));
        s.edges.push(edge("c13", &id, "discusses", 1));
    }
    s.nodes.push(node("far", "concept", "k", "2024-01-01"));
    s.edges.push(edge("c00", "far", "discusses", 1));
    let g = get_initial_graph(&s);
    assert_eq!(g.nodes.len(), 132);
    assert_eq!(g.links.len(), 120);
    assert!(!shown(&g).contains(&"far".to_string()));
    assert!(!shown(&g).contains(&"k129".to_string()));
}

#[test]
fn ranks_are_fused() {
    let fused = rrf_fuse(&vec![names(&["a", "b", "c"]), names(&["c", "b"])]);
    assert_eq!(fused[0], "c");
    assert_eq!(fused[1], "b");
    assert_eq!(fused[2], "a");
    let fused = rrf_fuse(&vec![names(&["x"]), names(&["x", "y"])]);
    assert_eq!(fused, names(&["x", "y"]));
    assert!(rrf_fuse(&vec![vec![], vec![]]).is_empty());
    assert_eq!(like_pattern("a b"), "%a b%");
    assert_eq!(names_once(&names(&["a", "b", "a"])), names(&["a", "b"]));
}

#[test]
fn the_graph_around_nodes_is_shown() {
    let s = sample();
    let g = fetch_graph_for_nodes(&s, &names(&["k2"]));
    assert_eq!(shown(&g), names(&["c3", "k2"]));
    assert_eq!(g.links.len(), 1);
    assert_eq!(g.links[0].value, 4);
    assert_eq!(g.links[0].edge_type, "discusses");
    let g = fetch_graph_for_nodes(&s, &vec![]);
    assert!(g.nodes.is_empty());
}

#[test]
fn shown_graphs_stop_at_their_limit() {
    let mut s = Store::new();
    s.nodes.push(node("hub", "topic", "hub", "t"));
    for i in 0..40 {
        let id = format!("c{:02}", i);
        s.nodes.push(node(&id, "conversation", "c", "t"));
        s.edges.push(edge(&id, "hub", "belongs_to", 1));
    }
    let g = fetch_graph_for_nodes(&s, &names(&["hub"]));
    assert_eq!(g.nodes.len(), 25);
    assert_eq!(g.links.len(), 24);
}

#[test]
fn searches_fall_back_to_recent_conversations() {
    let s = sample();
    let g = search_nodes(&s, "  ", vec![], vec![]);
    assert_eq!(g.nodes.len(), 9);
    let g = search_nodes(&s, "narrow", names(&["k2"]), vec![]);
    assert_eq!(shown(&g), names(&["c3", "k2"]));
    let g = search_nodes(&s, "nothing", vec![], vec![]);
    assert!(shown(&g).contains(&"c4".to_string()));
    let g = search_nodes(&Store::new(), "nothing", vec![], vec![]);
    assert!(g.nodes.is_empty());
}

#[test]
fn paths_are_short_and_as_strong_as_their_weakest_link() {
    let s = sample();
    assert_eq!(shortest_path(&s.edges, "t1", "t1"), names(&["t1"]));
    let way = shortest_path(&s.edges, "t1", "k1");
    assert_eq!(way.len(), 3);
    assert_eq!((way[0].as_str(), way[2].as_str()), ("t1", "k1"));
    assert!(way[1] == "c1" || way[1] == "c2");
    assert_eq!(path_strength(&s.edges, &way), 1);
    assert_eq!(path_strength(&s.edges, &names(&["t2", "c2", "k1"])), 2);
    assert_eq!(path_strength(&s.edges, &names(&["t2"])), 0);
    assert!(shortest_path(&s.edges, "t2", "t3").is_empty());
    assert!(shortest_path(&s.edges, "t1", "c4").is_empty());
    assert_eq!(resolve(&s.nodes, "wide").as_deref(), Some("k1"));
    assert_eq!(resolve(&s.nodes, "missing"), None);
    let r = lens_path(&s, Some("narrow"), Some("wide"));
    assert_eq!(r.path, names(&["k2", "c3", "k1"]));
    assert_eq!(r.strength, 1);
    assert!(shown(&r.graph).contains(&"c3".to_string()));
    let r = lens_path(&s, Some("narrow"), None);
    assert!(r.path.is_empty() && r.strength == 0 && r.graph.nodes.is_empty());
    let r = lens_path(&s, Some("narrow"), Some("missing"));
    assert!(r.path.is_empty());
}

#[test]
fn questions_are_answered_from_a_few_conversations() {
    let s = sample();
    match after_search(&GraphData { nodes: vec![], links: vec![] }, &s) {
        AskStep::Answer(t) => assert_eq!(t, "No matches in the archive."),
        _ => panic!("nothing was found"),
    }
    let g = get_initial_graph(&s);
    assert_eq!(conversations_to_read(&g, &s).len(), 3);
    let lone = GraphData {
        nodes: search_nodes(&s, "x", names(&["k2"]), vec![]).nodes.into_iter().filter(|n| n.id == "k2").collect(),
        links: vec![],
    };
    match after_search(&lone, &s) {
        AskStep::Answer(t) => assert_eq!(t, "The archive does not show this."),
        _ => panic!("no conversation was found"),
    }
    let linked = GraphData { nodes: lone.nodes, links: search_nodes(&s, "x", names(&["k2"]), vec![]).links };
    match after_search(&linked, &s) {
        AskStep::Read(ids) => assert_eq!(ids, names(&["c3"])),
        _ => panic!("one conversation is linked"),
    }
}

fn excerpt(id: &str, texts: &[(&str, &str)]) -> Excerpt {
    Excerpt {
        conversation_id: id.to_string(),
        messages: texts
            .iter()
            .map(|(m, t)| MessageText { message_id: m.to_string(), text: t.to_string() })
            .collect(),
    }
}

#[test]
fn contexts_number_what_they_quote() {
    let c = build_context(&vec![
        excerpt("c1", &[("m1", "one"), ("m2", &"y".repeat(900))]),
        excerpt("c2", &[("m3", "three")]),
    ]);
    assert_eq!(
        c.text,
        format!("Conversation c1:\n[1] one\n[2] {}...\n\nConversation c2:\n[3] three\n\n", "y".repeat(800))
    );
    assert_eq!(c.citations, names(&["c1:m1", "c1:m2", "c2:m3"]));
}

#[test]
fn messages_that_cannot_be_read_are_left_out() {
    let v = vec![
        MessageBlob { message_id: "m1".to_string(), blob: pack_text("one") },
        MessageBlob { message_id: "m2".to_string(), blob: vec![1, 2, 3] },
    ];
    let r = read_messages(&v);
    assert_eq!(r.len(), 1);
    assert_eq!((r[0].message_id.as_str(), r[0].text.as_str()), ("m1", "one"));
}

#[test]
fn prompts_hold_frame_summary_turns_and_question() {
    let s = sample();
    let session = Some(SessionState {
        active_frame: names(&["k1", "gone", "k2"]),
        recent_turns: vec![
            TurnRecord { role: "user".to_string(), text: "hi".to_string() },
            TurnRecord { role: "assistant".to_string(), text: "yes".to_string() },
        ],
        summary: Some("so far".to_string()),
    });
    let p = ask_prompt(&s.nodes, &session, "CTX", "why?");
    assert!(p.starts_with("ROLE\nYou answer questions about the user's own past ChatGPT conversations using ONLY\n"));
    assert!(p.contains("looking at):\nwide, narrow\n\nSESSION SUMMARY"));
    assert!(p.contains("compressed):\nso far\n\nLAST 5 TURNS (verbatim):\nuser: hi\nassistant: yes\n\nCONTEXT"));
    assert!(p.contains("question):\nCTX\n\nQUESTION: why?\n\nRULES\n"));
    assert!(p.ends_with("\n\nANSWER:"));
    let p = ask_prompt(&s.nodes, &None, "CTX", "why?");
    assert_eq!(p.matches("(none)").count(), 3);
    assert_eq!(ask_opts().max_tokens, Some(700));
    assert_eq!(ask_opts().temperature, Double { bits: (0.2f32 as f64).to_bits() });
    let none = Context { text: "x".to_string(), citations: vec![] };
    match after_reading(&s.nodes, &None, &none, "q") {
        ContextStep::Answer(t) => assert_eq!(t, "The archive does not show this."),
        _ => panic!("nothing could be quoted"),
    }
    let some = Context { text: "CTX".to_string(), citations: names(&["c:m"]) };
    match after_reading(&s.nodes, &None, &some, "why?") {
        ContextStep::Ask(t) => assert_eq!(t, p),
        _ => panic!("there is something to quote"),
    }
}

#[test]
fn the_workbench_shows_a_conversation() {
    let mut s = sample();
    s.parked.push(ParkedRow {
        id: 4,
        conversation_id: "c2".to_string(),
        kind: "topic".to_string(),
        payload: doc(r#"{"name":"x"}"#),
        confidence: Double { bits: 0.5f64.to_bits() },
        created_at: "t".to_string(),
    });
    let v = solid_nodes(&s, "c2");
    let ids: Vec<(&str, &str)> = v.iter().map(|n| (n.id.as_str(), n.node_type.as_str())).collect();
    assert_eq!(ids, vec![("t1", "topic"), ("t2", "topic"), ("k1", "concept")]);
    let p = parked_items(&s, "c2");
    assert_eq!(p.len(), 1);
    assert_eq!((p[0].id, p[0].kind.as_str()), (4, "topic"));
    assert_eq!(p[0].payload.str_at("name"), Some("x"));
    assert!(parked_items(&s, "c1").is_empty());
    let m = workbench_message("m".to_string(), "user".to_string(), &pack_text("text"));
    assert_eq!((m.message_id.as_str(), m.role.as_str(), m.text.as_str()), ("m", "user", "text"));
    assert_eq!(workbench_message("m".to_string(), "user".to_string(), &[9, 9]).text, "");
    let data = get_conversation_workbench(&s, "c2", vec![m]);
    assert_eq!(
        (data.messages.len(), data.solid_nodes.len(), data.parked_items.len()),
        (1, 3, 1)
    );
}

#[test]
fn the_home_page_sums_up_the_workspace() {
    let s = sample();
    let tile = HomeTile { id: "1".to_string(), name: "snap".to_string(), kind: "snapshot".to_string() };
    let h = get_home_tiles(&s, "2024-02-01", 1_714_521_600, vec![tile]);
    let recent: Vec<&str> = h.recent.iter().map(|t| t.id.as_str()).collect();
    assert_eq!(recent, vec!["k2", "k1"]);
    assert_eq!(h.orphan_count, 1);
    assert_eq!(h.orphan_since, "Feb 2024");
    assert_eq!(h.snapshots[0].name, "snap");
    assert_eq!(h.growing[0].id, "t1");

    let row = |id: &str, status: &str| ExtractionRow {
        conversation_id: id.to_string(),
        status: status.to_string(),
        content_hash: String::new(),
        prompt_version: "1".to_string(),
        model_used: None,
        started_at: None,
        completed_at: None,
        error: None,
    };
    let rows = vec![row("c1", "done"), row("c2", "failed"), row("c3", "pending"), row("c4", "stale")];
    let st = get_workspace_status(&s, &rows, 7);
    assert_eq!((st.conversations, st.messages, st.nodes), (4, 7, 9));
    assert_eq!((st.concepts, st.topics, st.entities), (2, 3, 0));
    assert_eq!((st.pending, st.processing, st.done, st.failed, st.parked), (1, 0, 1, 1, 0));
}

#[test]
fn a_node_is_shown_with_its_neighbours() {
    let mut s = sample();
    s.nodes[7].props = doc(r#"{"description":"d","tier":"solid","confidence":0.75}"#);
    let n = get_node_detail(&s, "k1").unwrap();
    assert_eq!((n.name.as_str(), n.node_type.as_str()), ("wide", "concept"));
    assert_eq!(n.description.as_deref(), Some("d"));
    assert_eq!(n.tier.as_deref(), Some("solid"));
    assert_eq!(n.confidence, Some(Double { bits: 0.75f64.to_bits() }));
    assert_eq!((n.incoming_count, n.outgoing_count), (3, 0));
    let got: Vec<(&str, &str)> = n.neighbors.iter().map(|x| (x.id.as_str(), x.direction)).collect();
    assert_eq!(got, vec![("c3", "incoming"), ("c2", "incoming"), ("c1", "incoming")]);
    let n = get_node_detail(&s, "c2").unwrap();
    assert_eq!((n.incoming_count, n.outgoing_count), (0, 3));
    assert!(n.neighbors.iter().all(|x| x.direction == "outgoing"));
    assert!(get_node_detail(&s, "gone").unwrap_err().starts_with("Node not found: "));
}

#[test]
fn searches_go_from_words_to_names_to_embeddings() {
    let url = Some("u".to_string());
    let model = Some("m".to_string());
    let mut s = Search::new("nar%row".to_string(), &url, &model);
    assert!(matches!(s.sought, Sought::Words));
    s.words_found(vec![]);
    match &s.sought {
        Sought::Names(p) => assert_eq!(p, "%nar%row%"),
        _ => panic!("the names are searched"),
    }
    s.names_found(names(&["k2"]));
    assert!(matches!(s.sought, Sought::Embedding));
    s.embedded(Some(vec![1, 2]));
    match &s.sought {
        Sought::Nearest(e) => assert_eq!(e, &vec![1, 2]),
        _ => panic!("the nearest nodes are searched"),
    }
    s.nearest_found(names(&["k2"]));
    assert!(matches!(s.sought, Sought::Nothing));
    assert_eq!(shown(&s.finish(&sample())), names(&["c3", "k2"]));

    let mut s = Search::new("narrow".to_string(), &url, &None);
    s.words_found(names(&["k2"]));
    assert!(matches!(s.sought, Sought::Nothing));
    let mut s = Search::new("narrow".to_string(), &url, &model);
    s.words_found(names(&["k2"]));
    s.embedded(None);
    assert!(matches!(s.sought, Sought::Nothing));
    let s = Search::new("  ".to_string(), &url, &model);
    assert!(matches!(s.sought, Sought::Nothing));
    assert_eq!(s.finish(&sample()).nodes.len(), 9);
}

#[test]
fn lists_of_any_length_are_fused() {
    let long: Vec<String> = (0..200).map(|i| format!("n{}", i)).collect();
    let fused = rrf_fuse(&vec![long.clone(), names(&["n150"])]);
    assert_eq!(fused[0], "n150");
    assert_eq!(fused[1], "n0");
    assert_eq!(fused.len(), 200);
    assert_eq!(fused[199], "n199");
    let lists: Vec<Vec<String>> = (0..40).map(|_| names(&["a", "b"])).collect();
    assert_eq!(rrf_fuse(&lists), names(&["a", "b"]));
}

#[test]
fn numbers_grow_beyond_their_digits() {
    let mut n = Natural::one();
    for _ in 0..10 {
        n = n.times(0x1_0000_0000);
    }
    assert_eq!(n.digits.len(), 11);
    assert!(n.exceeds(&Natural::one()) && !Natural::zero().exceeds(&n) && !n.exceeds(&n));
    let m = n.plus(&Natural::one());
    assert!(m.exceeds(&n));
    assert_eq!((m.digits[0], m.digits[10]), (1, 1));
    let top = Natural { digits: vec![u32::MAX, u32::MAX] };
    assert_eq!(top.plus(&Natural::one()).digits, vec![0, 0, 1]);
    assert_eq!(top.times(3).digits, vec![u32::MAX - 2, u32::MAX, 2]);
}

#[test]
fn strong_ways_come_before_short_ones() {
    let mut s = Store::new();
    for id in ["a", "b", "c"] {
        s.nodes.push(node(id, "concept", id, "t"));
    }
    s.edges.push(edge("a", "b", "relates_to", 1));
    s.edges.push(edge("a", "c", "relates_to", 5));
    s.edges.push(edge("c", "b", "relates_to", 6));
    assert_eq!(shortest_path(&s.edges, "a", "b"), names(&["a", "b"]));
    assert_eq!(strongest_path(&s.edges, "a", "b"), names(&["a", "c", "b"]));
    let r = lens_path(&s, Some("a"), Some("b"));
    assert_eq!((r.path, r.strength), (names(&["a", "c", "b"]), 5));
    s.edges[0] = edge("a", "b", "relates_to", 5);
    assert_eq!(strongest_path(&s.edges, "a", "b"), names(&["a", "b"]));
    assert_eq!(strongest_path(&s.edges, "a", "a"), names(&["a"]));
    assert!(strongest_path(&s.edges, "a", "x").is_empty());
}

#[test]
fn links_have_the_count_that_is_told() {
    let mut s = Store::new();
    for id in ["a", "b"] {
        s.nodes.push(node(id, "concept", id, "t"));
    }
    let told = [
        (r#"{"count":-3}"#, -3, -3),
        (r#"{"count":4}"#, 4, 4),
        ("{}", 1, 1),
        ("null", 1, 1),
        (r#"{"count":2.0}"#, 1, 1),
        (r#"{"count":"6"}"#, 1, 1),
        (r#"{"count":false}"#, 1, 0),
        (r#"{"count":true}"#, 1, 1),
    ];
    for (props, value, strength) in told {
        let mut e = edge("a", "b", "relates_to", 1);
        e.props = doc(props);
        s.edges = vec![e];
        let g = fetch_graph_for_nodes(&s, &names(&["a", "b"]));
        assert_eq!(g.links[0].value, value, "{}", props);
        assert_eq!(lens_path(&s, Some("a"), Some("b")).strength, strength, "{}", props);
    }
}

#[test]
fn orphans_that_were_put_away_stay_hidden() {
    let mut s = sample();
    s.orphan_promote("k2");
    assert_eq!(count_orphans(&s, "2024-02-01"), 1);
    s.orphan_archive("k2");
    assert_eq!(count_orphans(&s, "2024-02-01"), 0);
    assert!(orphan_concepts(&s, "2024-02-01").is_empty());
}

#[test]
fn quotes_are_cut_between_characters() {
    let text = "x".to_string() + &"\u{e9}".repeat(500);
    let c = build_context(&vec![excerpt("c", &[("m", &text)])]);
    assert!(c.text.contains(&format!("[1] x{}...\n", "\u{e9}".repeat(399))));
}

#[test]
fn a_search_keeps_thirty_results_of_each_way() {
    let many: Vec<String> = (0..40).map(|i| format!("n{}", i)).collect();
    let mut s = Search::new("q".to_string(), &Some("u".to_string()), &Some("m".to_string()));
    s.words_found(many.clone());
    s.embedded(Some(vec![1]));
    s.nearest_found(many);
    assert_eq!((s.words.len(), s.vectors.len()), (30, 30));
    assert_eq!(s.words[29], "n29");
}
