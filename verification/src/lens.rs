//! Ways of looking at the graph: its topics, what bridges them, what lies
//! forgotten, and how topics drift.

use crate::graph::{at_most, GraphData};
use crate::json::{Json, JsonTree};
use crate::search::{fetch_graph_for_nodes, graph_of};
use crate::seqs::{arrange, arranged, kept, lemma_kept_step, Ranked};
use crate::store::{
    is_conversation, lemma_views_push, views, EdgeRow, EdgeView, NodeRow, NodeView, Store,
    StoreView,
};
use crate::text::{contains_text, lex_lt, same, text_lt, texts};
use vstd::prelude::*;

verus! {

// Counting ---------------------------------------------------------------

/// The nodes from which edges of the type lead to the node, each once.
pub open spec fn sources_of(edges: Seq<EdgeView>, dst: Seq<char>, kind: Seq<char>) -> Seq<Seq<char>>
    decreases edges.len(),
{
    if edges.len() == 0 {
        Seq::empty()
    } else {
        let before = sources_of(edges.drop_last(), dst, kind);
        let e = edges.last();
        if e.dst == dst && e.kind == kind && !before.contains(e.src) {
            before.push(e.src)
        } else {
            before
        }
    }
}

/// The nodes from which edges of the type lead to the node, each once.
pub fn collect_sources(edges: &Vec<EdgeRow>, dst: &str, kind: &str) -> (r: Vec<String>)
    ensures
        texts(r@) == sources_of(views(edges@), dst@, kind@),
        r@.len() <= edges@.len(),
{
    let ghost all = views(edges@);
    let mut out: Vec<String> = Vec::new();
    let mut i: usize = 0;
    assert(all.take(0) =~= Seq::<EdgeView>::empty());
    assert(texts(out@) =~= Seq::<Seq<char>>::empty());
    while i < edges.len()
        invariant
            i <= edges@.len(),
            out@.len() <= i,
            all == views(edges@),
            texts(out@) == sources_of(all.take(i as int), dst@, kind@),
        decreases edges@.len() - i,
    {
        assert(all.take(i + 1).drop_last() =~= all.take(i as int));
        assert(all.take(i + 1).last() == edges@[i as int]@);
        if same(edges[i].dst.as_str(), dst) && same(edges[i].kind.as_str(), kind) && !contains_text(
            &out,
            edges[i].src.as_str(),
        ) {
            let id = edges[i].src.clone();
            proof {
                crate::text::lemma_texts_push(out@, id);
            }
            out.push(id);
        }
        i = i + 1;
    }
    assert(all.take(i as int) =~= all);
    out
}

/// A node with a count.
#[derive(Debug)]
pub struct Counted {
    pub id: String,
    pub count: usize,
}

/// The highest count comes first.
impl Ranked for Counted {
    open spec fn ranks_before(self, other: Counted) -> bool {
        self.count > other.count
    }

    proof fn ranking(a: Counted, b: Counted, c: Counted) {
    }

    fn precedes(&self, other: &Counted) -> (r: bool) {
        self.count > other.count
    }
}

/// Whether the entries are those of the nodes, with their counts.
pub open spec fn counts(
    entries: Seq<Counted>,
    nodes: Seq<NodeView>,
    count: spec_fn(NodeView) -> nat,
) -> bool {
    entries.len() == nodes.len() && forall|i: int|
        0 <= i < entries.len() ==> (#[trigger] entries[i]).id@ == nodes[i].id && entries[i].count
            == count(nodes[i])
}

/// The names of the entries.
pub open spec fn counted_names(entries: Seq<Counted>) -> Seq<Seq<char>> {
    entries.map_values(|c: Counted| c.id@)
}

/// Whether the names are those of the nodes, the highest count first, and no more
/// than `n`.
pub open spec fn ranked(
    ids: Seq<Seq<char>>,
    nodes: Seq<NodeView>,
    count: spec_fn(NodeView) -> nat,
    n: int,
) -> bool {
    exists|entries: Seq<Counted>| #[trigger]
        counts(entries, nodes, count) && ids == at_most(counted_names(arranged(entries)), n)
}

/// The names of the entries, the highest count first, and no more than `n`.
fn rank(entries: Vec<Counted>, n: usize) -> (r: Vec<String>)
    ensures
        texts(r@) == at_most(counted_names(arranged(entries@)), n as int),
{
    let sorted = arrange(entries);
    let ghost names = counted_names(sorted@);
    let mut out: Vec<String> = Vec::new();
    let mut k: usize = 0;
    assert(texts(out@) =~= names.take(0));
    while k < sorted.len() && k < n
        invariant
            k <= sorted@.len(),
            k <= n,
            names == counted_names(sorted@),
            texts(out@) == names.take(k as int),
        decreases sorted@.len() - k,
    {
        let id = sorted[k].id.clone();
        proof {
            crate::text::lemma_texts_push(out@, id);
            assert(names.take(k + 1) =~= names.take(k as int).push(id@));
        }
        out.push(id);
        k = k + 1;
    }
    proof {
        if sorted@.len() <= n {
            assert(names.take(k as int) =~= names);
        }
    }
    out
}

// Territory --------------------------------------------------------------

/// How many topics the territory starts from.
pub const TERRITORY_TOPICS: usize = 20;

/// The conversations that belong to the topic.
pub open spec fn belonging(v: StoreView, topic: Seq<char>) -> Seq<Seq<char>> {
    kept(sources_of(v.edges, topic, "belongs_to"@), |s: Seq<char>| is_conversation(v.nodes, s))
}

/// The topics to which conversations belong.
pub open spec fn live_topics(v: StoreView) -> Seq<NodeView> {
    kept(v.nodes, |n: NodeView| n.kind == "topic"@ && belonging(v, n.id).len() > 0)
}

/// Whether the names are those of the topics to which most conversations belong.
pub open spec fn leading_topics(ids: Seq<Seq<char>>, v: StoreView) -> bool {
    ranked(
        ids,
        live_topics(v),
        |n: NodeView| belonging(v, n.id).len(),
        TERRITORY_TOPICS as int,
    )
}

fn count_belonging(store: &Store, topic: &str) -> (r: usize)
    ensures
        r == belonging(store@, topic@).len(),
{
    let sources = collect_sources(&store.edges, topic, "belongs_to");
    let ghost all = texts(sources@);
    let ghost p = |s: Seq<char>| is_conversation(store@.nodes, s);
    let mut n: usize = 0;
    let mut i: usize = 0;
    assert(all.take(0) =~= Seq::<Seq<char>>::empty());
    while i < sources.len()
        invariant
            i <= sources@.len(),
            all == texts(sources@),
            p == (|s: Seq<char>| is_conversation(store@.nodes, s)),
            n == kept(all.take(i as int), p).len(),
            n <= i,
        decreases sources@.len() - i,
    {
        proof {
            lemma_kept_step(all, p, i as int);
            assert(all[i as int] == sources@[i as int]@);
        }
        if store.contains_conversation(sources[i].as_str()) {
            n = n + 1;
        }
        i = i + 1;
    }
    assert(all.take(i as int) =~= all);
    n
}

/// The topics to which most conversations belong, the leading one first.
pub fn territory_topics(store: &Store) -> (r: Vec<String>)
    ensures
        leading_topics(texts(r@), store@),
{
    let ghost v = store@;
    let ghost all = v.nodes;
    let ghost p = |n: NodeView| n.kind == "topic"@ && belonging(v, n.id).len() > 0;
    let ghost f = |n: NodeView| belonging(v, n.id).len();
    let mut entries: Vec<Counted> = Vec::new();
    let mut i: usize = 0;
    assert(all.take(0) =~= Seq::<NodeView>::empty());
    while i < store.nodes.len()
        invariant
            i <= store.nodes@.len(),
            v == store@,
            all == v.nodes,
            p == (|n: NodeView| n.kind == "topic"@ && belonging(v, n.id).len() > 0),
            f == (|n: NodeView| belonging(v, n.id).len()),
            counts(entries@, kept(all.take(i as int), p), f),
        decreases store.nodes@.len() - i,
    {
        proof {
            lemma_kept_step(all, p, i as int);
            assert(all[i as int] == store.nodes@[i as int]@);
        }
        if same(store.nodes[i].kind.as_str(), "topic") {
            let n: usize = count_belonging(store, store.nodes[i].id.as_str());
            if n > 0 {
                entries.push(Counted { id: store.nodes[i].id.clone(), count: n });
            }
        }
        i = i + 1;
    }
    assert(all.take(i as int) =~= all);
    assert(counts(entries@, live_topics(v), f));
    rank(entries, TERRITORY_TOPICS)
}

/// The territory: the leading topics and what is around them.
pub fn lens_territory(store: &Store) -> (r: GraphData)
    ensures
        exists|ids: Seq<Seq<char>>| #[trigger]
            leading_topics(ids, store@) && r@ == graph_of(store@, ids),
{
    let ids = territory_topics(store);
    assert(leading_topics(texts(ids@), store@));
    fetch_graph_for_nodes(store, &ids)
}

// Bridges ----------------------------------------------------------------

/// How many topics a concept joins at least if it is a bridge.
pub const BRIDGE_TOPICS: usize = 3;

/// How many bridges are shown at most.
pub const MAX_BRIDGES: usize = 10;

/// Whether one of the nodes has the name and is a topic.
pub open spec fn is_topic(nodes: Seq<NodeView>, id: Seq<char>) -> bool {
    exists|i: int|
        0 <= i < nodes.len() && (#[trigger] nodes[i]).id == id && nodes[i].kind == "topic"@
}

/// The topics to which conversations belong that discuss the concept, each once.
pub open spec fn bridged(
    edges: Seq<EdgeView>,
    nodes: Seq<NodeView>,
    discussing: Seq<Seq<char>>,
) -> Seq<Seq<char>>
    decreases edges.len(),
{
    if edges.len() == 0 {
        Seq::empty()
    } else {
        let before = bridged(edges.drop_last(), nodes, discussing);
        let e = edges.last();
        if e.kind == "belongs_to"@ && discussing.contains(e.src) && is_topic(nodes, e.dst)
            && !before.contains(e.dst) {
            before.push(e.dst)
        } else {
            before
        }
    }
}

/// The topics that the concept joins.
pub open spec fn joined_topics(v: StoreView, concept: Seq<char>) -> Seq<Seq<char>> {
    bridged(v.edges, v.nodes, sources_of(v.edges, concept, "discusses"@))
}

/// The concepts that join enough topics.
pub open spec fn bridges(v: StoreView) -> Seq<NodeView> {
    kept(
        v.nodes,
        |n: NodeView| n.kind == "concept"@ && joined_topics(v, n.id).len() >= BRIDGE_TOPICS,
    )
}

/// Whether the names are those of the concepts that join most topics.
pub open spec fn leading_bridges(ids: Seq<Seq<char>>, v: StoreView) -> bool {
    ranked(ids, bridges(v), |n: NodeView| joined_topics(v, n.id).len(), MAX_BRIDGES as int)
}

fn topic_there(nodes: &Vec<NodeRow>, id: &str) -> (r: bool)
    ensures
        r == is_topic(views(nodes@), id@),
{
    let mut i: usize = 0;
    while i < nodes.len()
        invariant
            i <= nodes@.len(),
            forall|k: int|
                0 <= k < i ==> !((#[trigger] views(nodes@)[k]).id == id@ && views(nodes@)[k].kind
                    == "topic"@),
        decreases nodes@.len() - i,
    {
        assert(views(nodes@)[i as int] == nodes@[i as int]@);
        if same(nodes[i].id.as_str(), id) && same(nodes[i].kind.as_str(), "topic") {
            return true;
        }
        i = i + 1;
    }
    false
}

fn count_joined(store: &Store, concept: &str) -> (r: usize)
    ensures
        r == joined_topics(store@, concept@).len(),
{
    let discussing = collect_sources(&store.edges, concept, "discusses");
    let ghost all = store@.edges;
    let ghost d = texts(discussing@);
    let mut out: Vec<String> = Vec::new();
    let mut i: usize = 0;
    assert(all.take(0) =~= Seq::<EdgeView>::empty());
    assert(texts(out@) =~= Seq::<Seq<char>>::empty());
    while i < store.edges.len()
        invariant
            i <= store.edges@.len(),
            all == store@.edges,
            d == texts(discussing@),
            texts(out@) == bridged(all.take(i as int), store@.nodes, d),
        decreases store.edges@.len() - i,
    {
        assert(all.take(i + 1).drop_last() =~= all.take(i as int));
        assert(all.take(i + 1).last() == store.edges@[i as int]@);
        if same(store.edges[i].kind.as_str(), "belongs_to") && contains_text(
            &discussing,
            store.edges[i].src.as_str(),
        ) && topic_there(&store.nodes, store.edges[i].dst.as_str()) && !contains_text(
            &out,
            store.edges[i].dst.as_str(),
        ) {
            let id = store.edges[i].dst.clone();
            proof {
                crate::text::lemma_texts_push(out@, id);
            }
            out.push(id);
        }
        i = i + 1;
    }
    assert(all.take(i as int) =~= all);
    assert(texts(out@).len() == out@.len());
    out.len()
}

/// The concepts that join most topics, the leading one first.
pub fn bridging_concepts(store: &Store) -> (r: Vec<String>)
    ensures
        leading_bridges(texts(r@), store@),
{
    let ghost v = store@;
    let ghost all = v.nodes;
    let ghost p = |n: NodeView|
        n.kind == "concept"@ && joined_topics(v, n.id).len() >= BRIDGE_TOPICS;
    let ghost f = |n: NodeView| joined_topics(v, n.id).len();
    let mut entries: Vec<Counted> = Vec::new();
    let mut i: usize = 0;
    assert(all.take(0) =~= Seq::<NodeView>::empty());
    while i < store.nodes.len()
        invariant
            i <= store.nodes@.len(),
            v == store@,
            all == v.nodes,
            p == (|n: NodeView|
                n.kind == "concept"@ && joined_topics(v, n.id).len() >= BRIDGE_TOPICS),
            f == (|n: NodeView| joined_topics(v, n.id).len()),
            counts(entries@, kept(all.take(i as int), p), f),
        decreases store.nodes@.len() - i,
    {
        proof {
            lemma_kept_step(all, p, i as int);
            assert(all[i as int] == store.nodes@[i as int]@);
        }
        if same(store.nodes[i].kind.as_str(), "concept") {
            let n: usize = count_joined(store, store.nodes[i].id.as_str());
            if n >= BRIDGE_TOPICS {
                entries.push(Counted { id: store.nodes[i].id.clone(), count: n });
            }
        }
        i = i + 1;
    }
    assert(all.take(i as int) =~= all);
    assert(counts(entries@, bridges(v), f));
    rank(entries, MAX_BRIDGES)
}

/// The bridges: the concepts that join most topics, and what is around them.
pub fn lens_bridges(store: &Store) -> (r: GraphData)
    ensures
        exists|ids: Seq<Seq<char>>| #[trigger]
            leading_bridges(ids, store@) && r@ == graph_of(store@, ids),
{
    let ids = bridging_concepts(store);
    assert(leading_bridges(texts(ids@), store@));
    fetch_graph_for_nodes(store, &ids)
}

// Orphans ----------------------------------------------------------------

/// How many orphans are shown at most.
pub const MAX_ORPHANS: usize = 20;

/// Whether the node is an orphan: a concept from before the time, which a single
/// conversation discusses and which was not put away.
pub open spec fn is_orphan(v: StoreView, n: NodeView, before: Seq<char>) -> bool {
    n.kind == "concept"@ && lex_lt(n.created, before) && sources_of(
        v.edges,
        n.id,
        "discusses"@,
    ).len() == 1 && n.props.str_at("orphan_state"@) != Some("archived"@)
}

/// The orphans.
pub open spec fn orphans(v: StoreView, before: Seq<char>) -> Seq<NodeView> {
    kept(v.nodes, |n: NodeView| is_orphan(v, n, before))
}

/// A node with the time of its creation.
#[derive(Debug)]
pub struct Created {
    pub id: String,
    pub name: String,
    pub at: String,
}

/// What was created last comes first.
impl Ranked for Created {
    open spec fn ranks_before(self, other: Created) -> bool {
        lex_lt(other.at@, self.at@)
    }

    proof fn ranking(a: Created, b: Created, c: Created) {
        crate::text::lemma_lex_irreflexive(a.at@);
        if lex_lt(b.at@, a.at@) && lex_lt(c.at@, b.at@) {
            crate::text::lemma_lex_transitive(c.at@, b.at@, a.at@);
        }
        crate::text::lemma_lex_total(a.at@, b.at@);
        crate::text::lemma_lex_total(b.at@, c.at@);
        if lex_lt(a.at@, b.at@) && lex_lt(b.at@, c.at@) {
            crate::text::lemma_lex_transitive(a.at@, b.at@, c.at@);
        }
        if lex_lt(a.at@, c.at@) && lex_lt(c.at@, a.at@) {
            crate::text::lemma_lex_transitive(a.at@, c.at@, a.at@);
        }
    }

    fn precedes(&self, other: &Created) -> (r: bool) {
        text_lt(other.at.as_str(), self.at.as_str())
    }
}

/// Whether the entries are those of the nodes, with the time of their creation.
pub open spec fn creations(entries: Seq<Created>, nodes: Seq<NodeView>) -> bool {
    entries.len() == nodes.len() && forall|i: int|
        0 <= i < entries.len() ==> {
            &&& (#[trigger] entries[i]).id@ == nodes[i].id
            &&& entries[i].name@ == nodes[i].name
            &&& entries[i].at@ == nodes[i].created
        }
}

/// The names of the entries.
pub open spec fn created_names(entries: Seq<Created>) -> Seq<Seq<char>> {
    entries.map_values(|c: Created| c.id@)
}

/// Whether the names are those of the orphans that were created last.
pub open spec fn latest_orphans(ids: Seq<Seq<char>>, v: StoreView, before: Seq<char>) -> bool {
    exists|entries: Seq<Created>| #[trigger]
        creations(entries, orphans(v, before)) && ids == at_most(
            created_names(arranged(entries)),
            MAX_ORPHANS as int,
        )
}

fn orphan(store: &Store, n: &NodeRow, before: &str) -> (r: bool)
    ensures
        r == is_orphan(store@, n@, before@),
{
    if !same(n.kind.as_str(), "concept") || !text_lt(n.created.as_str(), before) {
        return false;
    }
    let sources = collect_sources(&store.edges, n.id.as_str(), "discusses");
    assert(texts(sources@).len() == sources@.len());
    sources.len() == 1 && !put_away(&n.props)
}

fn put_away(props: &Json) -> (r: bool)
    ensures
        r == (props@.str_at("orphan_state"@) == Some("archived"@)),
{
    match props.str_at("orphan_state") {
        Some(s) => same(s, "archived"),
        None => false,
    }
}

fn collect_orphans(store: &Store, before: &str) -> (r: Vec<Created>)
    ensures
        creations(r@, orphans(store@, before@)),
{
    let ghost v = store@;
    let ghost all = v.nodes;
    let ghost p = |n: NodeView| is_orphan(v, n, before@);
    let mut entries: Vec<Created> = Vec::new();
    let mut i: usize = 0;
    assert(all.take(0) =~= Seq::<NodeView>::empty());
    while i < store.nodes.len()
        invariant
            i <= store.nodes@.len(),
            v == store@,
            all == v.nodes,
            p == (|n: NodeView| is_orphan(v, n, before@)),
            creations(entries@, kept(all.take(i as int), p)),
        decreases store.nodes@.len() - i,
    {
        proof {
            lemma_kept_step(all, p, i as int);
            assert(all[i as int] == store.nodes@[i as int]@);
        }
        if orphan(store, &store.nodes[i], before) {
            entries.push(
                Created {
                    id: store.nodes[i].id.clone(),
                    name: store.nodes[i].name.clone(),
                    at: store.nodes[i].created.clone(),
                },
            );
        }
        i = i + 1;
    }
    assert(all.take(i as int) =~= all);
    entries
}

/// How many orphans there are.
pub fn count_orphans(store: &Store, before: &str) -> (r: usize)
    ensures
        r == orphans(store@, before@).len(),
{
    let entries = collect_orphans(store, before);
    entries.len()
}

/// The orphans that were created last, the latest first.
pub fn orphan_concepts(store: &Store, before: &str) -> (r: Vec<String>)
    ensures
        latest_orphans(texts(r@), store@, before@),
{
    let entries = collect_orphans(store, before);
    let ghost found = entries@;
    let sorted = arrange(entries);
    let ghost names = created_names(sorted@);
    let mut out: Vec<String> = Vec::new();
    let mut k: usize = 0;
    assert(texts(out@) =~= names.take(0));
    while k < sorted.len() && k < MAX_ORPHANS
        invariant
            k <= sorted@.len(),
            k <= MAX_ORPHANS,
            names == created_names(sorted@),
            texts(out@) == names.take(k as int),
        decreases sorted@.len() - k,
    {
        let id = sorted[k].id.clone();
        proof {
            crate::text::lemma_texts_push(out@, id);
            assert(names.take(k + 1) =~= names.take(k as int).push(id@));
        }
        out.push(id);
        k = k + 1;
    }
    proof {
        if sorted@.len() <= MAX_ORPHANS {
            assert(names.take(k as int) =~= names);
        }
        assert(creations(found, orphans(store@, before@)));
    }
    out
}

/// The orphans and what is around them.
pub fn lens_orphans(store: &Store, before: &str) -> (r: GraphData)
    ensures
        exists|ids: Seq<Seq<char>>| #[trigger]
            latest_orphans(ids, store@, before@) && r@ == graph_of(store@, ids),
{
    let ids = orphan_concepts(store, before);
    assert(latest_orphans(texts(ids@), store@, before@));
    fetch_graph_for_nodes(store, &ids)
}

// Drift ------------------------------------------------------------------

/// How many conversations of a topic fall into a month.
#[derive(Debug)]
pub struct DriftCell {
    pub topic: String,
    pub month: String,
    pub vol: i64,
}

/// Months come in order, and topics by name within each.
impl Ranked for DriftCell {
    open spec fn ranks_before(self, other: DriftCell) -> bool {
        lex_lt(self.month@, other.month@) || (self.month@ == other.month@ && lex_lt(
            self.topic@,
            other.topic@,
        ))
    }

    proof fn ranking(a: DriftCell, b: DriftCell, c: DriftCell) {
        crate::text::lemma_lex_irreflexive(a.month@);
        crate::text::lemma_lex_irreflexive(a.topic@);
        lemma_order(a.month@, b.month@, c.month@);
        lemma_order(a.topic@, b.topic@, c.topic@);
    }

    fn precedes(&self, other: &DriftCell) -> (r: bool) {
        if same(self.month.as_str(), other.month.as_str()) {
            proof {
                crate::text::lemma_lex_irreflexive(self.month@);
            }
            text_lt(self.topic.as_str(), other.topic.as_str())
        } else {
            text_lt(self.month.as_str(), other.month.as_str())
        }
    }
}

proof fn lemma_order(a: Seq<char>, b: Seq<char>, c: Seq<char>)
    ensures
        lex_lt(a, b) && lex_lt(b, c) ==> lex_lt(a, c),
        !lex_lt(a, b) && !lex_lt(b, c) ==> !lex_lt(a, c),
        !lex_lt(a, b) && !lex_lt(b, a) ==> a == b,
        lex_lt(a, b) ==> !lex_lt(b, a),
        !lex_lt(b, c) && !lex_lt(c, b) ==> b == c,
        lex_lt(b, c) ==> !lex_lt(c, b),
{
    crate::text::lemma_lex_irreflexive(a);
    crate::text::lemma_lex_irreflexive(b);
    crate::text::lemma_lex_total(a, b);
    crate::text::lemma_lex_total(b, c);
    if lex_lt(a, b) && lex_lt(b, c) {
        crate::text::lemma_lex_transitive(a, b, c);
    }
    if lex_lt(b, a) && lex_lt(c, b) {
        crate::text::lemma_lex_transitive(c, b, a);
    }
    if lex_lt(a, c) && lex_lt(c, a) {
        crate::text::lemma_lex_transitive(a, c, a);
    }
    if lex_lt(a, b) && lex_lt(b, a) {
        crate::text::lemma_lex_transitive(a, b, a);
    }
    if lex_lt(b, c) && lex_lt(c, b) {
        crate::text::lemma_lex_transitive(b, c, b);
    }
}

/// A conversation with the month in which it was begun.
#[derive(Debug)]
pub struct Begun {
    pub conversation_id: String,
    pub month: String,
}

/// The month in which the conversation was begun, if it is one of those listed.
pub open spec fn month_of(begun: Seq<Begun>, id: Seq<char>) -> Option<Seq<char>>
    decreases begun.len(),
{
    if begun.len() == 0 {
        None
    } else if begun[0].conversation_id@ == id {
        Some(begun[0].month@)
    } else {
        month_of(begun.drop_first(), id)
    }
}

/// How many of the conversations were begun in the month.
pub open spec fn volume(begun: Seq<Begun>, ids: Seq<Seq<char>>, month: Seq<char>) -> nat
    decreases ids.len(),
{
    if ids.len() == 0 {
        0
    } else {
        volume(begun, ids.drop_last(), month) + if month_of(begun, ids.last()) == Some(month) {
            1nat
        } else {
            0nat
        }
    }
}

/// The months in which the conversations were begun, each once.
pub open spec fn months(begun: Seq<Begun>, ids: Seq<Seq<char>>) -> Seq<Seq<char>>
    decreases ids.len(),
{
    if ids.len() == 0 {
        Seq::empty()
    } else {
        let before = months(begun, ids.drop_last());
        match month_of(begun, ids.last()) {
            Some(m) => if before.contains(m) {
                before
            } else {
                before.push(m)
            },
            None => before,
        }
    }
}

/// What a cell holds.
pub ghost struct CellView {
    pub topic: Seq<char>,
    pub month: Seq<char>,
    pub vol: i64,
}

impl View for DriftCell {
    type V = CellView;

    open spec fn view(&self) -> CellView {
        CellView { topic: self.topic@, month: self.month@, vol: self.vol }
    }
}

/// The cells of the topic: one for each month in which a conversation of it was
/// begun.
pub open spec fn topic_cells(v: StoreView, begun: Seq<Begun>, topic: NodeView) -> Seq<CellView> {
    let ids = belonging(v, topic.id);
    months(begun, ids).map_values(
        |m: Seq<char>|
            CellView { topic: topic.name, month: m, vol: volume(begun, ids, m) as i64 },
    )
}

/// The cells of the topics, one topic after the other.
pub open spec fn all_cells(v: StoreView, begun: Seq<Begun>, topics: Seq<NodeView>) -> Seq<CellView>
    decreases topics.len(),
{
    if topics.len() == 0 {
        Seq::empty()
    } else {
        all_cells(v, begun, topics.drop_last()) + topic_cells(v, begun, topics.last())
    }
}

/// Whether the cells are those of the topics.
pub open spec fn drifts(cells: Seq<DriftCell>, v: StoreView, begun: Seq<Begun>) -> bool {
    views(cells) == all_cells(v, begun, topics(v.nodes))
}

/// The topics.
pub open spec fn topics(nodes: Seq<NodeView>) -> Seq<NodeView> {
    kept(nodes, |n: NodeView| n.kind == "topic"@)
}

fn find_month(begun: &Vec<Begun>, id: &str) -> (r: Option<usize>)
    ensures
        match r {
            Some(k) => k < begun@.len() && month_of(begun@, id@) == Some(begun@[k as int].month@),
            None => month_of(begun@, id@) is None,
        },
{
    let mut i: usize = 0;
    assert(begun@.skip(0) =~= begun@);
    while i < begun.len()
        invariant
            i <= begun@.len(),
            month_of(begun@, id@) == month_of(begun@.skip(i as int), id@),
        decreases begun@.len() - i,
    {
        assert(begun@.skip(i as int)[0] == begun@[i as int]);
        if same(begun[i].conversation_id.as_str(), id) {
            return Some(i);
        }
        assert(begun@.skip(i as int).drop_first() =~= begun@.skip(i + 1));
        i = i + 1;
    }
    None
}

fn conversations_of(store: &Store, topic: &str) -> (r: Vec<String>)
    ensures
        texts(r@) == belonging(store@, topic@),
        r@.len() <= store.edges@.len(),
{
    let sources = collect_sources(&store.edges, topic, "belongs_to");
    let ghost all = texts(sources@);
    let ghost p = |s: Seq<char>| is_conversation(store@.nodes, s);
    let mut out: Vec<String> = Vec::new();
    let mut i: usize = 0;
    assert(all.take(0) =~= Seq::<Seq<char>>::empty());
    assert(texts(out@) =~= Seq::<Seq<char>>::empty());
    while i < sources.len()
        invariant
            i <= sources@.len(),
            out@.len() <= i,
            all == texts(sources@),
            p == (|s: Seq<char>| is_conversation(store@.nodes, s)),
            texts(out@) == kept(all.take(i as int), p),
        decreases sources@.len() - i,
    {
        proof {
            lemma_kept_step(all, p, i as int);
            assert(all[i as int] == sources@[i as int]@);
        }
        if store.contains_conversation(sources[i].as_str()) {
            let id = sources[i].clone();
            proof {
                crate::text::lemma_texts_push(out@, id);
            }
            out.push(id);
        }
        i = i + 1;
    }
    assert(all.take(i as int) =~= all);
    out
}

fn months_of(begun: &Vec<Begun>, ids: &Vec<String>) -> (r: Vec<String>)
    ensures
        texts(r@) == months(begun@, texts(ids@)),
{
    let ghost all = texts(ids@);
    let mut out: Vec<String> = Vec::new();
    let mut i: usize = 0;
    assert(all.take(0) =~= Seq::<Seq<char>>::empty());
    assert(texts(out@) =~= Seq::<Seq<char>>::empty());
    while i < ids.len()
        invariant
            i <= ids@.len(),
            all == texts(ids@),
            texts(out@) == months(begun@, all.take(i as int)),
        decreases ids@.len() - i,
    {
        assert(all.take(i + 1).drop_last() =~= all.take(i as int));
        assert(all.take(i + 1).last() == ids@[i as int]@);
        match find_month(begun, ids[i].as_str()) {
            Some(k) => {
                if !contains_text(&out, begun[k].month.as_str()) {
                    let m = begun[k].month.clone();
                    proof {
                        crate::text::lemma_texts_push(out@, m);
                    }
                    out.push(m);
                }
            },
            None => {},
        }
        i = i + 1;
    }
    assert(all.take(i as int) =~= all);
    out
}

fn volume_of(begun: &Vec<Begun>, ids: &Vec<String>, month: &str) -> (r: usize)
    ensures
        r == volume(begun@, texts(ids@), month@),
        r <= ids@.len(),
{
    let ghost all = texts(ids@);
    let mut n: usize = 0;
    let mut i: usize = 0;
    assert(all.take(0) =~= Seq::<Seq<char>>::empty());
    while i < ids.len()
        invariant
            i <= ids@.len(),
            all == texts(ids@),
            n == volume(begun@, all.take(i as int), month@),
            n <= i,
        decreases ids@.len() - i,
    {
        assert(all.take(i + 1).drop_last() =~= all.take(i as int));
        assert(all.take(i + 1).last() == ids@[i as int]@);
        match find_month(begun, ids[i].as_str()) {
            Some(k) => {
                if same(begun[k].month.as_str(), month) {
                    n = n + 1;
                }
            },
            None => {},
        }
        i = i + 1;
    }
    assert(all.take(i as int) =~= all);
    n
}

fn cells_of(store: &Store, begun: &Vec<Begun>, topic: &NodeRow) -> (r: Vec<DriftCell>)
    requires
        store.edges@.len() <= i64::MAX,
    ensures
        views(r@) == topic_cells(store@, begun@, topic@),
{
    let ids = conversations_of(store, topic.id.as_str());
    let list = months_of(begun, &ids);
    let ghost all = texts(list@);
    let ghost cells = topic_cells(store@, begun@, topic@);
    let mut out: Vec<DriftCell> = Vec::new();
    let mut i: usize = 0;
    assert(views(out@) =~= cells.take(0));
    while i < list.len()
        invariant
            i <= list@.len(),
            all == texts(list@),
            store.edges@.len() <= i64::MAX,
            ids@.len() <= store.edges@.len(),
            texts(ids@) == belonging(store@, topic@.id),
            all == months(begun@, texts(ids@)),
            cells == topic_cells(store@, begun@, topic@),
            views(out@) == cells.take(i as int),
        decreases list@.len() - i,
    {
        let n: usize = volume_of(begun, &ids, list[i].as_str());
        let c = DriftCell { topic: topic.name.clone(), month: list[i].clone(), vol: n as i64 };
        proof {
            assert(all[i as int] == list@[i as int]@);
            lemma_views_push(out@, c);
            assert(cells[i as int] == c@);
            assert(cells.take(i + 1) =~= cells.take(i as int).push(c@));
        }
        out.push(c);
        i = i + 1;
    }
    assert(cells.take(i as int) =~= cells);
    out
}

/// How many conversations of each topic were begun in each month, the months in
/// order. Conversations that are not listed in `begun` do not count.
pub fn lens_drift_data(store: &Store, begun: &Vec<Begun>) -> (r: Vec<DriftCell>)
    requires
        store.edges@.len() <= i64::MAX,
    ensures
        exists|cells: Seq<DriftCell>| #[trigger]
            drifts(cells, store@, begun@) && r@ == arranged(cells),
{
    let ghost v = store@;
    let ghost all = v.nodes;
    let ghost p = |n: NodeView| n.kind == "topic"@;
    let mut cells: Vec<DriftCell> = Vec::new();
    let mut i: usize = 0;
    assert(all.take(0) =~= Seq::<NodeView>::empty());
    assert(views(cells@) =~= Seq::<CellView>::empty());
    while i < store.nodes.len()
        invariant
            i <= store.nodes@.len(),
            v == store@,
            all == v.nodes,
            p == (|n: NodeView| n.kind == "topic"@),
            store.edges@.len() <= i64::MAX,
            views(cells@) == all_cells(v, begun@, kept(all.take(i as int), p)),
        decreases store.nodes@.len() - i,
    {
        proof {
            lemma_kept_step(all, p, i as int);
            assert(all[i as int] == store.nodes@[i as int]@);
        }
        if same(store.nodes[i].kind.as_str(), "topic") {
            let ghost before = cells@;
            let ghost done = kept(all.take(i as int), p);
            let mut more = cells_of(store, begun, &store.nodes[i]);
            let ghost added = more@;
            cells.append(&mut more);
            proof {
                assert(cells@ =~= before + added);
                assert(views(cells@) =~= views(before) + views(added));
                assert(done.push(all[i as int]).drop_last() =~= done);
            }
        }
        i = i + 1;
    }
    assert(all.take(i as int) =~= all);
    assert(drifts(cells@, v, begun@));
    arrange(cells)
}

// Laws -------------------------------------------------------------------

/// A conversation is counted once for a topic, however many edges lead from it.
pub proof fn sources_are_counted_once(edges: Seq<EdgeView>, dst: Seq<char>, kind: Seq<char>)
    ensures
        sources_of(edges, dst, kind).no_duplicates(),
        forall|x: Seq<char>| #[trigger]
            sources_of(edges, dst, kind).contains(x) <==> exists|i: int|
                0 <= i < edges.len() && (#[trigger] edges[i]).src == x && edges[i].dst == dst
                    && edges[i].kind == kind,
    decreases edges.len(),
{
    if edges.len() > 0 {
        let rest = edges.drop_last();
        let e = edges.last();
        sources_are_counted_once(rest, dst, kind);
        let before = sources_of(rest, dst, kind);
        let after = sources_of(edges, dst, kind);
        assert forall|i: int, j: int|
            0 <= i < after.len() && 0 <= j < after.len() && i != j implies after[i] != after[j] by {
            if i == before.len() {
                assert(after[j] == before[j]);
                assert(before.contains(before[j]));
            } else if j == before.len() {
                assert(after[i] == before[i]);
                assert(before.contains(before[i]));
            } else {
                assert(after[i] == before[i] && after[j] == before[j]);
            }
        }
        assert forall|x: Seq<char>| #[trigger] after.contains(x) <==> exists|i: int|
            0 <= i < edges.len() && (#[trigger] edges[i]).src == x && edges[i].dst == dst
                && edges[i].kind == kind by {
            if after.contains(x) {
                let k = choose|k: int| 0 <= k < after.len() && after[k] == x;
                if k < before.len() {
                    assert(before[k] == x);
                    assert(before.contains(x));
                    let i = choose|i: int|
                        0 <= i < rest.len() && (#[trigger] rest[i]).src == x && rest[i].dst == dst
                            && rest[i].kind == kind;
                    assert(edges[i] == rest[i]);
                } else {
                    assert(edges[edges.len() - 1].src == x);
                }
            }
            if exists|i: int|
                0 <= i < edges.len() && (#[trigger] edges[i]).src == x && edges[i].dst == dst
                    && edges[i].kind == kind {
                let i = choose|i: int|
                    0 <= i < edges.len() && (#[trigger] edges[i]).src == x && edges[i].dst == dst
                        && edges[i].kind == kind;
                if i < rest.len() {
                    assert(rest[i] == edges[i]);
                    assert(before.contains(x));
                }
                if before.contains(x) {
                    let k = choose|k: int| 0 <= k < before.len() && before[k] == x;
                    assert(after[k] == x);
                } else {
                    assert(after[before.len() as int] == x);
                }
            }
        }
    }
}

/// The topics that a concept joins are listed once each, and they are those that it
/// reaches: a node leads to the concept by `discusses` and to the topic by
/// `belongs_to`.
pub proof fn joined_topics_are_those_reached(v: StoreView, concept: Seq<char>)
    ensures
        joined_topics(v, concept).no_duplicates(),
        forall|t: Seq<char>| #[trigger]
            joined_topics(v, concept).contains(t) <==> (exists|n: int|
                0 <= n < v.nodes.len() && (#[trigger] v.nodes[n]).id == t && v.nodes[n].kind
                    == "topic"@) && exists|i: int, j: int|
                0 <= i < v.edges.len() && 0 <= j < v.edges.len() && (#[trigger] v.edges[i]).dst
                    == concept && v.edges[i].kind == "discusses"@ && (#[trigger] v.edges[j]).dst
                    == t && v.edges[j].kind == "belongs_to"@ && v.edges[i].src == v.edges[j].src,
{
    let d = sources_of(v.edges, concept, "discusses"@);
    sources_are_counted_once(v.edges, concept, "discusses"@);
    lemma_bridged(v.edges, v.nodes, d);
    assert forall|t: Seq<char>| #[trigger] joined_topics(v, concept).contains(t) <==> (exists|
        n: int,
    |
        0 <= n < v.nodes.len() && (#[trigger] v.nodes[n]).id == t && v.nodes[n].kind == "topic"@)
        && exists|i: int, j: int|
        0 <= i < v.edges.len() && 0 <= j < v.edges.len() && (#[trigger] v.edges[i]).dst == concept
            && v.edges[i].kind == "discusses"@ && (#[trigger] v.edges[j]).dst == t
            && v.edges[j].kind == "belongs_to"@ && v.edges[i].src == v.edges[j].src by {
        if joined_topics(v, concept).contains(t) {
            let j = choose|j: int|
                0 <= j < v.edges.len() && (#[trigger] v.edges[j]).dst == t && v.edges[j].kind
                    == "belongs_to"@ && d.contains(v.edges[j].src) && is_topic(v.nodes, t);
            let x = v.edges[j].src;
            assert(d.contains(x));
            let i = choose|i: int|
                0 <= i < v.edges.len() && (#[trigger] v.edges[i]).src == x && v.edges[i].dst
                    == concept && v.edges[i].kind == "discusses"@;
            assert(v.edges[i].src == v.edges[j].src);
        }
        if (exists|n: int|
            0 <= n < v.nodes.len() && (#[trigger] v.nodes[n]).id == t && v.nodes[n].kind
                == "topic"@) && exists|i: int, j: int|
            0 <= i < v.edges.len() && 0 <= j < v.edges.len() && (#[trigger] v.edges[i]).dst
                == concept && v.edges[i].kind == "discusses"@ && (#[trigger] v.edges[j]).dst == t
                && v.edges[j].kind == "belongs_to"@ && v.edges[i].src == v.edges[j].src {
            let (i, j) = choose|i: int, j: int|
                0 <= i < v.edges.len() && 0 <= j < v.edges.len() && (#[trigger] v.edges[i]).dst
                    == concept && v.edges[i].kind == "discusses"@ && (#[trigger] v.edges[j]).dst
                    == t && v.edges[j].kind == "belongs_to"@ && v.edges[i].src == v.edges[j].src;
            assert(d.contains(v.edges[i].src));
            assert(is_topic(v.nodes, t));
            assert(v.edges[j].dst == t);
        }
    }
}

proof fn lemma_bridged(edges: Seq<EdgeView>, nodes: Seq<NodeView>, d: Seq<Seq<char>>)
    ensures
        bridged(edges, nodes, d).no_duplicates(),
        forall|t: Seq<char>| #[trigger]
            bridged(edges, nodes, d).contains(t) <==> exists|j: int|
                0 <= j < edges.len() && (#[trigger] edges[j]).dst == t && edges[j].kind
                    == "belongs_to"@ && d.contains(edges[j].src) && is_topic(nodes, t),
    decreases edges.len(),
{
    if edges.len() > 0 {
        let rest = edges.drop_last();
        lemma_bridged(rest, nodes, d);
        let before = bridged(rest, nodes, d);
        let after = bridged(edges, nodes, d);
        assert forall|i: int, j: int|
            0 <= i < after.len() && 0 <= j < after.len() && i != j implies after[i] != after[j] by {
            if i == before.len() {
                assert(after[j] == before[j]);
                assert(before.contains(before[j]));
            } else if j == before.len() {
                assert(after[i] == before[i]);
                assert(before.contains(before[i]));
            } else {
                assert(after[i] == before[i] && after[j] == before[j]);
            }
        }
        assert forall|t: Seq<char>| #[trigger] after.contains(t) <==> exists|j: int|
            0 <= j < edges.len() && (#[trigger] edges[j]).dst == t && edges[j].kind
                == "belongs_to"@ && d.contains(edges[j].src) && is_topic(nodes, t) by {
            if after.contains(t) {
                let k = choose|k: int| 0 <= k < after.len() && after[k] == t;
                if k < before.len() {
                    assert(before[k] == t);
                    assert(before.contains(t));
                    let j = choose|j: int|
                        0 <= j < rest.len() && (#[trigger] rest[j]).dst == t && rest[j].kind
                            == "belongs_to"@ && d.contains(rest[j].src) && is_topic(nodes, t);
                    assert(edges[j] == rest[j]);
                } else {
                    assert(edges[edges.len() - 1].dst == t);
                }
            }
            if exists|j: int|
                0 <= j < edges.len() && (#[trigger] edges[j]).dst == t && edges[j].kind
                    == "belongs_to"@ && d.contains(edges[j].src) && is_topic(nodes, t) {
                let j = choose|j: int|
                    0 <= j < edges.len() && (#[trigger] edges[j]).dst == t && edges[j].kind
                        == "belongs_to"@ && d.contains(edges[j].src) && is_topic(nodes, t);
                if j < rest.len() {
                    assert(rest[j] == edges[j]);
                    assert(before.contains(t));
                }
                if before.contains(t) {
                    let k = choose|k: int| 0 <= k < before.len() && before[k] == t;
                    assert(after[k] == t);
                } else {
                    assert(after[before.len() as int] == t);
                }
            }
        }
    }
}

/// What is listed by a count, the first `n` at most: nodes of those given, the
/// highest count first; and every node given, unless `n` are listed none of which
/// counts less.
proof fn lemma_ranked(
    ids: Seq<Seq<char>>,
    nodes: Seq<NodeView>,
    count: spec_fn(NodeView) -> nat,
    n: int,
) -> (at: Seq<int>)
    requires
        n >= 0,
        ranked(ids, nodes, count, n),
    ensures
        ids.len() <= n,
        at.len() == ids.len(),
        forall|i: int|
            0 <= i < at.len() ==> 0 <= #[trigger] at[i] < nodes.len() && nodes[at[i]].id == ids[i],
        forall|i: int, j: int|
            0 <= i < j < at.len() ==> count(nodes[#[trigger] at[i]]) >= count(
                nodes[#[trigger] at[j]],
            ),
        forall|k: int|
            0 <= k < nodes.len() ==> ids.contains((#[trigger] nodes[k]).id) || (ids.len() == n
                && forall|i: int|
                0 <= i < at.len() ==> count(nodes[#[trigger] at[i]]) >= count(nodes[k])),
{
    let entries = choose|entries: Seq<Counted>| #[trigger]
        counts(entries, nodes, count) && ids == at_most(counted_names(arranged(entries)), n);
    crate::seqs::arranging_orders(entries);
    let top = at_most(arranged(entries), n);
    crate::seqs::the_first_rank_first(entries, n, top);
    assert(ids =~= counted_names(top));
    let at = Seq::new(
        ids.len(),
        |i: int| choose|k: int| 0 <= k < entries.len() && entries[k] == top[i],
    );
    assert forall|i: int| 0 <= i < at.len() implies 0 <= #[trigger] at[i] < nodes.len()
        && entries[at[i]] == top[i] && nodes[at[i]].id == ids[i] by {
        assert(entries.contains(top[i]));
        let k = choose|k: int| 0 <= k < entries.len() && entries[k] == top[i];
        assert(at[i] == k);
        assert(entries[k].id@ == nodes[k].id);
    }
    assert forall|i: int, j: int| 0 <= i < j < at.len() implies count(nodes[#[trigger] at[i]])
        >= count(nodes[#[trigger] at[j]]) by {
        assert(!top[j].ranks_before(top[i]));
        assert(entries[at[i]].count == count(nodes[at[i]]));
        assert(entries[at[j]].count == count(nodes[at[j]]));
    }
    assert forall|k: int| 0 <= k < nodes.len() implies ids.contains((#[trigger] nodes[k]).id) || (
    ids.len() == n && forall|i: int|
        0 <= i < at.len() ==> count(nodes[#[trigger] at[i]]) >= count(nodes[k])) by {
        let e = entries[k];
        assert(entries.contains(e));
        if top.contains(e) {
            let m = choose|m: int| 0 <= m < top.len() && top[m] == e;
            assert(ids[m] == nodes[k].id);
        } else {
            assert forall|i: int| 0 <= i < at.len() implies count(nodes[#[trigger] at[i]])
                >= count(nodes[k]) by {
                assert(!e.ranks_before(top[i]));
                assert(entries[at[i]].count == count(nodes[at[i]]));
            }
        }
    }
    at
}

/// A sequence without repetitions, all of it in another, is no longer.
proof fn lemma_fits(a: Seq<Seq<char>>, b: Seq<Seq<char>>)
    requires
        a.no_duplicates(),
        forall|x: Seq<char>| a.contains(x) ==> #[trigger] b.contains(x),
    ensures
        a.len() <= b.len(),
{
    assert forall|i: int| 0 <= i < a.len() implies b.contains(#[trigger] a[i]) by {
        assert(a.contains(a[i]));
    }
    crate::ingest::parser::lemma_no_longer(a, b);
}

/// Whether a node leads both to the concept, by `discusses`, and to the topic, by
/// `belongs_to`.
pub open spec fn reaches(v: StoreView, concept: Seq<char>, topic: Seq<char>) -> bool {
    &&& exists|n: int|
        0 <= n < v.nodes.len() && (#[trigger] v.nodes[n]).id == topic && v.nodes[n].kind
            == "topic"@
    &&& exists|i: int, j: int|
        0 <= i < v.edges.len() && 0 <= j < v.edges.len() && (#[trigger] v.edges[i]).dst == concept
            && v.edges[i].kind == "discusses"@ && (#[trigger] v.edges[j]).dst == topic
            && v.edges[j].kind == "belongs_to"@ && v.edges[i].src == v.edges[j].src
}

/// Whether the concept reaches all the topics, which are all different.
pub open spec fn reaches_all(v: StoreView, concept: Seq<char>, topics: Seq<Seq<char>>) -> bool {
    topics.no_duplicates() && forall|m: int|
        0 <= m < topics.len() ==> reaches(v, concept, #[trigger] topics[m])
}

/// Whether the concept reaches as many different topics.
pub open spec fn reaches_as_many(v: StoreView, concept: Seq<char>, n: nat) -> bool {
    exists|topics: Seq<Seq<char>>| #[trigger]
        reaches_all(v, concept, topics) && topics.len() >= n
}

proof fn lemma_joined_is_most(v: StoreView, concept: Seq<char>, n: nat)
    ensures
        reaches_as_many(v, concept, n) <==> n <= joined_topics(v, concept).len(),
{
    joined_topics_are_those_reached(v, concept);
    let joined = joined_topics(v, concept);
    assert forall|m: int| 0 <= m < joined.len() implies reaches(v, concept, #[trigger] joined[m]) by {
        assert(joined.contains(joined[m]));
    }
    assert(reaches_all(v, concept, joined));
    assert forall|ts: Seq<Seq<char>>| #[trigger] reaches_all(v, concept, ts) implies ts.len()
        <= joined.len() by {
        assert forall|t: Seq<char>| ts.contains(t) implies #[trigger] joined.contains(t) by {
            let m = choose|m: int| 0 <= m < ts.len() && ts[m] == t;
            assert(reaches(v, concept, ts[m]));
        }
        lemma_fits(ts, joined);
    }
}

/// Every concept that reaches three or more topics is among the bridges, unless ten
/// are that reach at least as many; only concepts are that reach three topics; and
/// those that reach more come first.
pub proof fn bridges_reach_three_topics(ids: Seq<Seq<char>>, v: StoreView)
    requires
        leading_bridges(ids, v),
    ensures
        ids.len() <= 10,
        forall|i: int|
            0 <= i < ids.len() ==> reaches_as_many(v, #[trigger] ids[i], 3) && exists|n: int|
                0 <= n < v.nodes.len() && (#[trigger] v.nodes[n]).id == ids[i] && v.nodes[n].kind
                    == "concept"@,
        forall|n: int, m: nat|
            0 <= n < v.nodes.len() && v.nodes[n].kind == "concept"@ && m >= 3
                && #[trigger] reaches_as_many(v, v.nodes[n].id, m) ==> ids.contains(v.nodes[n].id)
                || (ids.len() == 10 && forall|i: int|
                0 <= i < ids.len() ==> reaches_as_many(v, #[trigger] ids[i], m)),
        forall|i: int, j: int, m: nat|
            0 <= i < j < ids.len() && reaches_as_many(v, #[trigger] ids[j], m)
                ==> #[trigger] reaches_as_many(v, ids[i], m),
{
    let count = |n: NodeView| joined_topics(v, n.id).len();
    let found = bridges(v);
    let p = |n: NodeView|
        n.kind == "concept"@ && joined_topics(v, n.id).len() >= BRIDGE_TOPICS;
    crate::seqs::lemma_kept_members(v.nodes, p);
    let at = lemma_ranked(ids, found, count, 10);
    assert forall|i: int| 0 <= i < ids.len() implies reaches_as_many(v, #[trigger] ids[i], 3)
        && exists|n: int|
        0 <= n < v.nodes.len() && (#[trigger] v.nodes[n]).id == ids[i] && v.nodes[n].kind
            == "concept"@ by {
        let m = found[at[i]];
        assert(found.contains(m));
        assert(p(m));
        let n = choose|n: int| 0 <= n < v.nodes.len() && v.nodes[n] == m;
        assert(v.nodes[n].id == ids[i]);
        lemma_joined_is_most(v, ids[i], 3);
    }
    assert forall|n: int, m: nat|
        0 <= n < v.nodes.len() && v.nodes[n].kind == "concept"@ && m >= 3
            && #[trigger] reaches_as_many(v, v.nodes[n].id, m) implies ids.contains(v.nodes[n].id)
        || (ids.len() == 10 && forall|i: int|
        0 <= i < ids.len() ==> reaches_as_many(v, #[trigger] ids[i], m)) by {
        let c = v.nodes[n];
        lemma_joined_is_most(v, c.id, m);
        assert(v.nodes.contains(c));
        assert(p(c));
        assert(found.contains(c));
        let k = choose|k: int| 0 <= k < found.len() && found[k] == c;
        if !ids.contains(found[k].id) {
            assert forall|i: int| 0 <= i < ids.len() implies reaches_as_many(
                v,
                #[trigger] ids[i],
                m,
            ) by {
                assert(count(found[at[i]]) >= count(found[k]));
                lemma_joined_is_most(v, ids[i], m);
            }
        }
    }
    assert forall|i: int, j: int, m: nat|
        0 <= i < j < ids.len() && reaches_as_many(
            v,
            #[trigger] ids[j],
            m,
        ) implies #[trigger] reaches_as_many(v, ids[i], m) by {
        assert(count(found[at[i]]) >= count(found[at[j]]));
        lemma_joined_is_most(v, ids[i], m);
        lemma_joined_is_most(v, ids[j], m);
    }
}

// The territory.

/// Whether the conversation belongs to the topic.
pub open spec fn belongs(v: StoreView, conversation: Seq<char>, topic: Seq<char>) -> bool {
    &&& exists|n: int|
        0 <= n < v.nodes.len() && (#[trigger] v.nodes[n]).id == conversation && v.nodes[n].kind
            == "conversation"@
    &&& exists|i: int|
        0 <= i < v.edges.len() && (#[trigger] v.edges[i]).src == conversation && v.edges[i].dst
            == topic && v.edges[i].kind == "belongs_to"@
}

/// Whether as many different conversations belong to the topic.
pub open spec fn as_many_belong(v: StoreView, topic: Seq<char>, n: nat) -> bool {
    exists|cs: Seq<Seq<char>>| #[trigger] all_belong(v, cs, topic) && cs.len() >= n
}

/// Whether the conversations belong to the topic and are all different.
pub open spec fn all_belong(v: StoreView, cs: Seq<Seq<char>>, topic: Seq<char>) -> bool {
    cs.no_duplicates() && forall|m: int| 0 <= m < cs.len() ==> belongs(v, #[trigger] cs[m], topic)
}

/// The conversations of a topic are listed once each, and they are those that belong
/// to it.
pub proof fn those_listed_belong(v: StoreView, topic: Seq<char>)
    ensures
        belonging(v, topic).no_duplicates(),
        forall|c: Seq<char>| #[trigger]
            belonging(v, topic).contains(c) <==> (exists|n: int|
                0 <= n < v.nodes.len() && (#[trigger] v.nodes[n]).id == c && v.nodes[n].kind
                    == "conversation"@) && exists|i: int|
                0 <= i < v.edges.len() && (#[trigger] v.edges[i]).src == c && v.edges[i].dst
                    == topic && v.edges[i].kind == "belongs_to"@,
{
    let all = sources_of(v.edges, topic, "belongs_to"@);
    let p = |s: Seq<char>| is_conversation(v.nodes, s);
    sources_are_counted_once(v.edges, topic, "belongs_to"@);
    crate::seqs::lemma_kept_members(all, p);
    let id = |s: Seq<char>| s;
    assert(crate::seqs::distinct_by(all, id));
    crate::seqs::lemma_kept_distinct(all, p, id);
    let mine = belonging(v, topic);
    assert forall|i: int, j: int| 0 <= i < mine.len() && 0 <= j < mine.len() && i != j implies
        mine[i] != mine[j] by {
        if i < j {
            assert(id(mine[i]) != id(mine[j]));
        } else {
            assert(id(mine[j]) != id(mine[i]));
        }
    }
    assert forall|c: Seq<char>| #[trigger] mine.contains(c) <==> (exists|n: int|
        0 <= n < v.nodes.len() && (#[trigger] v.nodes[n]).id == c && v.nodes[n].kind
            == "conversation"@) && exists|i: int|
        0 <= i < v.edges.len() && (#[trigger] v.edges[i]).src == c && v.edges[i].dst == topic
            && v.edges[i].kind == "belongs_to"@ by {
        assert(mine.contains(c) <==> all.contains(c) && p(c));
    }
}

proof fn lemma_belonging_is_most(v: StoreView, topic: Seq<char>, n: nat)
    ensures
        as_many_belong(v, topic, n) <==> n <= belonging(v, topic).len(),
{
    those_listed_belong(v, topic);
    let mine = belonging(v, topic);
    assert forall|m: int| 0 <= m < mine.len() implies belongs(v, #[trigger] mine[m], topic) by {
        assert(mine.contains(mine[m]));
    }
    assert(all_belong(v, mine, topic));
    assert forall|cs: Seq<Seq<char>>| #[trigger] all_belong(v, cs, topic) implies cs.len()
        <= mine.len() by {
        assert forall|t: Seq<char>| cs.contains(t) implies #[trigger] mine.contains(t) by {
            let m = choose|m: int| 0 <= m < cs.len() && cs[m] == t;
            assert(belongs(v, cs[m], topic));
        }
        lemma_fits(cs, mine);
    }
}

/// Every topic to which a conversation belongs is in the territory, unless twenty are
/// to which at least as many belong; only such topics are; and those to which more
/// belong come first.
pub proof fn the_territory_has_the_leading_topics(ids: Seq<Seq<char>>, v: StoreView)
    requires
        leading_topics(ids, v),
    ensures
        ids.len() <= 20,
        forall|i: int|
            0 <= i < ids.len() ==> as_many_belong(v, #[trigger] ids[i], 1) && exists|n: int|
                0 <= n < v.nodes.len() && (#[trigger] v.nodes[n]).id == ids[i] && v.nodes[n].kind
                    == "topic"@,
        forall|n: int, m: nat|
            0 <= n < v.nodes.len() && v.nodes[n].kind == "topic"@ && m >= 1
                && #[trigger] as_many_belong(v, v.nodes[n].id, m) ==> ids.contains(v.nodes[n].id)
                || (ids.len() == 20 && forall|i: int|
                0 <= i < ids.len() ==> as_many_belong(v, #[trigger] ids[i], m)),
        forall|i: int, j: int, m: nat|
            0 <= i < j < ids.len() && as_many_belong(v, #[trigger] ids[j], m)
                ==> #[trigger] as_many_belong(v, ids[i], m),
{
    let count = |n: NodeView| belonging(v, n.id).len();
    let found = live_topics(v);
    let p = |n: NodeView| n.kind == "topic"@ && belonging(v, n.id).len() > 0;
    crate::seqs::lemma_kept_members(v.nodes, p);
    let at = lemma_ranked(ids, found, count, 20);
    assert forall|i: int| 0 <= i < ids.len() implies as_many_belong(v, #[trigger] ids[i], 1)
        && exists|n: int|
        0 <= n < v.nodes.len() && (#[trigger] v.nodes[n]).id == ids[i] && v.nodes[n].kind
            == "topic"@ by {
        let m = found[at[i]];
        assert(found.contains(m));
        assert(p(m));
        let n = choose|n: int| 0 <= n < v.nodes.len() && v.nodes[n] == m;
        assert(v.nodes[n].id == ids[i]);
        lemma_belonging_is_most(v, ids[i], 1);
    }
    assert forall|n: int, m: nat|
        0 <= n < v.nodes.len() && v.nodes[n].kind == "topic"@ && m >= 1
            && #[trigger] as_many_belong(v, v.nodes[n].id, m) implies ids.contains(v.nodes[n].id)
        || (ids.len() == 20 && forall|i: int|
        0 <= i < ids.len() ==> as_many_belong(v, #[trigger] ids[i], m)) by {
        let c = v.nodes[n];
        lemma_belonging_is_most(v, c.id, m);
        assert(v.nodes.contains(c));
        assert(p(c));
        assert(found.contains(c));
        let k = choose|k: int| 0 <= k < found.len() && found[k] == c;
        if !ids.contains(found[k].id) {
            assert forall|i: int| 0 <= i < ids.len() implies as_many_belong(
                v,
                #[trigger] ids[i],
                m,
            ) by {
                assert(count(found[at[i]]) >= count(found[k]));
                lemma_belonging_is_most(v, ids[i], m);
            }
        }
    }
    assert forall|i: int, j: int, m: nat|
        0 <= i < j < ids.len() && as_many_belong(
            v,
            #[trigger] ids[j],
            m,
        ) implies #[trigger] as_many_belong(v, ids[i], m) by {
        assert(count(found[at[i]]) >= count(found[at[j]]));
        lemma_belonging_is_most(v, ids[i], m);
        lemma_belonging_is_most(v, ids[j], m);
    }
}

// Orphans.

/// The orphans are the concepts from before the time that one single node discusses,
/// by however many edges, and that were not put away.
pub proof fn orphans_have_one_conversation(v: StoreView, before: Seq<char>)
    ensures
        orphans(v, before) == v.nodes.filter(
            |n: NodeView|
                {
                    &&& n.kind == "concept"@
                    &&& lex_lt(n.created, before)
                    &&& n.props.at("orphan_state"@) != JsonTree::Str("archived"@)
                    &&& exists|i: int|
                        0 <= i < v.edges.len() && (#[trigger] v.edges[i]).dst == n.id
                            && v.edges[i].kind == "discusses"@ && forall|j: int|
                            0 <= j < v.edges.len() && (#[trigger] v.edges[j]).dst == n.id
                                && v.edges[j].kind == "discusses"@ ==> v.edges[j].src
                                == v.edges[i].src
                },
        ),
{
    let p = |n: NodeView| is_orphan(v, n, before);
    let q = |n: NodeView|
        {
            &&& n.kind == "concept"@
            &&& lex_lt(n.created, before)
            &&& n.props.at("orphan_state"@) != JsonTree::Str("archived"@)
            &&& exists|i: int|
                0 <= i < v.edges.len() && (#[trigger] v.edges[i]).dst == n.id && v.edges[i].kind
                    == "discusses"@ && forall|j: int|
                    0 <= j < v.edges.len() && (#[trigger] v.edges[j]).dst == n.id && v.edges[j].kind
                        == "discusses"@ ==> v.edges[j].src == v.edges[i].src
        };
    assert forall|k: int| 0 <= k < v.nodes.len() implies p(#[trigger] v.nodes[k]) == q(
        v.nodes[k],
    ) by {
        let n = v.nodes[k];
        let s = sources_of(v.edges, n.id, "discusses"@);
        sources_are_counted_once(v.edges, n.id, "discusses"@);
        if s.len() == 1 {
            assert(s.contains(s[0]));
            let i = choose|i: int|
                0 <= i < v.edges.len() && (#[trigger] v.edges[i]).src == s[0] && v.edges[i].dst
                    == n.id && v.edges[i].kind == "discusses"@;
            assert forall|j: int|
                0 <= j < v.edges.len() && (#[trigger] v.edges[j]).dst == n.id && v.edges[j].kind
                    == "discusses"@ implies v.edges[j].src == v.edges[i].src by {
                assert(s.contains(v.edges[j].src));
            }
            assert(v.edges[i].dst == n.id);
        }
        if q(n) {
            let i = choose|i: int|
                0 <= i < v.edges.len() && (#[trigger] v.edges[i]).dst == n.id && v.edges[i].kind
                    == "discusses"@ && forall|j: int|
                    0 <= j < v.edges.len() && (#[trigger] v.edges[j]).dst == n.id && v.edges[j].kind
                        == "discusses"@ ==> v.edges[j].src == v.edges[i].src;
            assert(s.contains(v.edges[i].src));
            if s.len() > 1 {
                assert(s.contains(s[0]) && s.contains(s[1]));
            }
        }
    }
    crate::seqs::lemma_kept_same(v.nodes, p, q);
    crate::seqs::keeping_is_filtering(v.nodes, q);
}

/// Every orphan is listed, unless twenty are that were not created before it; only
/// orphans are; and those that were created later come first.
pub proof fn the_latest_orphans_are_listed(
    ids: Seq<Seq<char>>,
    v: StoreView,
    before: Seq<char>,
) -> (at: Seq<int>)
    requires
        latest_orphans(ids, v, before),
    ensures
        ids.len() <= 20,
        at.len() == ids.len(),
        forall|i: int|
            0 <= i < at.len() ==> 0 <= #[trigger] at[i] < orphans(v, before).len() && orphans(
                v,
                before,
            )[at[i]].id == ids[i],
        forall|i: int, j: int|
            0 <= i < j < at.len() ==> !lex_lt(
                orphans(v, before)[#[trigger] at[i]].created,
                orphans(v, before)[#[trigger] at[j]].created,
            ),
        forall|k: int|
            0 <= k < orphans(v, before).len() ==> ids.contains(
                (#[trigger] orphans(v, before)[k]).id,
            ) || (ids.len() == 20 && forall|i: int|
                0 <= i < at.len() ==> !lex_lt(
                    orphans(v, before)[#[trigger] at[i]].created,
                    orphans(v, before)[k].created,
                )),
{
    let all = orphans(v, before);
    let entries = choose|entries: Seq<Created>| #[trigger]
        creations(entries, all) && ids == at_most(
            created_names(arranged(entries)),
            MAX_ORPHANS as int,
        );
    crate::seqs::arranging_orders(entries);
    let top = at_most(arranged(entries), 20);
    crate::seqs::the_first_rank_first(entries, 20, top);
    assert(ids =~= created_names(top));
    let at = Seq::new(
        ids.len(),
        |i: int| choose|k: int| 0 <= k < entries.len() && entries[k] == top[i],
    );
    assert forall|i: int| 0 <= i < at.len() implies 0 <= #[trigger] at[i] < all.len()
        && entries[at[i]] == top[i] && all[at[i]].id == ids[i] && all[at[i]].created
        == top[i].at@ by {
        assert(entries.contains(top[i]));
        let k = choose|k: int| 0 <= k < entries.len() && entries[k] == top[i];
        assert(at[i] == k);
        assert(entries[k].id@ == all[k].id);
    }
    assert forall|i: int, j: int| 0 <= i < j < at.len() implies !lex_lt(
        all[#[trigger] at[i]].created,
        all[#[trigger] at[j]].created,
    ) by {
        assert(!top[j].ranks_before(top[i]));
    }
    assert forall|k: int| 0 <= k < all.len() implies ids.contains((#[trigger] all[k]).id) || (
    ids.len() == 20 && forall|i: int|
        0 <= i < at.len() ==> !lex_lt(all[#[trigger] at[i]].created, all[k].created)) by {
        let e = entries[k];
        assert(entries.contains(e));
        if top.contains(e) {
            let m = choose|m: int| 0 <= m < top.len() && top[m] == e;
            assert(ids[m] == all[k].id);
        } else {
            assert forall|i: int| 0 <= i < at.len() implies !lex_lt(
                all[#[trigger] at[i]].created,
                all[k].created,
            ) by {
                assert(!e.ranks_before(top[i]));
            }
        }
    }
    at
}

proof fn lemma_volume(begun: Seq<Begun>, ids: Seq<Seq<char>>, month: Seq<char>)
    ensures
        volume(begun, ids, month) == ids.filter(
            |id: Seq<char>| month_of(begun, id) == Some(month),
        ).len(),
        volume(begun, ids, month) <= ids.len(),
    decreases ids.len(),
{
    reveal(Seq::filter);
    if ids.len() > 0 {
        lemma_volume(begun, ids.drop_last(), month);
    }
}

proof fn lemma_months(begun: Seq<Begun>, ids: Seq<Seq<char>>)
    ensures
        months(begun, ids).no_duplicates(),
        forall|m: Seq<char>| #[trigger]
            months(begun, ids).contains(m) <==> exists|i: int|
                0 <= i < ids.len() && month_of(begun, #[trigger] ids[i]) == Some(m),
    decreases ids.len(),
{
    let all = months(begun, ids);
    if ids.len() > 0 {
        let rest = ids.drop_last();
        let before = months(begun, rest);
        lemma_months(begun, rest);
        assert forall|m: Seq<char>| #[trigger] all.contains(m) <==> exists|i: int|
            0 <= i < ids.len() && month_of(begun, #[trigger] ids[i]) == Some(m) by {
            if all.contains(m) {
                let k = choose|k: int| 0 <= k < all.len() && all[k] == m;
                if k < before.len() {
                    assert(before[k] == m);
                    assert(before.contains(m));
                    let i = choose|i: int|
                        0 <= i < rest.len() && month_of(begun, #[trigger] rest[i]) == Some(m);
                    assert(ids[i] == rest[i]);
                } else {
                    assert(month_of(begun, ids[ids.len() - 1]) == Some(m));
                }
            }
            if exists|i: int| 0 <= i < ids.len() && month_of(begun, #[trigger] ids[i]) == Some(m) {
                let i = choose|i: int|
                    0 <= i < ids.len() && month_of(begun, #[trigger] ids[i]) == Some(m);
                if i < rest.len() {
                    assert(rest[i] == ids[i]);
                    assert(before.contains(m));
                }
                if before.contains(m) {
                    let k = choose|k: int| 0 <= k < before.len() && before[k] == m;
                    assert(all[k] == m);
                } else {
                    assert(all[all.len() - 1] == m);
                }
            }
        }
        assert forall|i: int, j: int| 0 <= i < all.len() && 0 <= j < all.len() && i != j implies
            all[i] != all[j] by {
            if i < before.len() {
                assert(before.contains(before[i]));
            }
            if j < before.len() {
                assert(before.contains(before[j]));
            }
        }
    } else {
        assert forall|m: Seq<char>| #[trigger] all.contains(m) <==> exists|i: int|
            0 <= i < ids.len() && month_of(begun, #[trigger] ids[i]) == Some(m) by {}
    }
}

/// Of a topic there is one cell for every month in which one of its conversations
/// began, and it has as many as began in it.
pub proof fn cells_count_what_began(v: StoreView, begun: Seq<Begun>, topic: NodeView)
    requires
        v.edges.len() <= i64::MAX,
    ensures
        ({
            let cells = topic_cells(v, begun, topic);
            let mine = belonging(v, topic.id);
            &&& forall|i: int|
                0 <= i < cells.len() ==> {
                    let c = #[trigger] cells[i];
                    &&& c.topic == topic.name
                    &&& c.vol == mine.filter(
                        |id: Seq<char>| month_of(begun, id) == Some(c.month),
                    ).len()
                }
            &&& forall|i: int, j: int|
                0 <= i < j < cells.len() ==> (#[trigger] cells[i]).month != (
                #[trigger] cells[j]).month
            &&& forall|m: int|
                0 <= m < mine.len() && month_of(begun, #[trigger] mine[m]) is Some ==> exists|
                    i: int,
                |
                    0 <= i < cells.len() && Some((#[trigger] cells[i]).month) == month_of(
                        begun,
                        mine[m],
                    )
        }),
{
    let cells = topic_cells(v, begun, topic);
    let mine = belonging(v, topic.id);
    let all = months(begun, mine);
    lemma_months(begun, mine);
    lemma_belonging_len(v, topic.id);
    assert forall|i: int| 0 <= i < cells.len() implies ({
        let c = #[trigger] cells[i];
        &&& c.topic == topic.name
        &&& c.vol == mine.filter(|id: Seq<char>| month_of(begun, id) == Some(c.month)).len()
    }) by {
        lemma_volume(begun, mine, all[i]);
    }
    assert forall|m: int|
        0 <= m < mine.len() && month_of(begun, #[trigger] mine[m]) is Some implies exists|i: int|
        0 <= i < cells.len() && Some((#[trigger] cells[i]).month) == month_of(begun, mine[m]) by {
        let month = month_of(begun, mine[m])->0;
        assert(all.contains(month));
        let i = choose|i: int| 0 <= i < all.len() && all[i] == month;
        assert(cells[i].month == month);
    }
}

proof fn lemma_sources_len(edges: Seq<EdgeView>, dst: Seq<char>, kind: Seq<char>)
    ensures
        sources_of(edges, dst, kind).len() <= edges.len(),
    decreases edges.len(),
{
    if edges.len() > 0 {
        lemma_sources_len(edges.drop_last(), dst, kind);
    }
}

proof fn lemma_belonging_len(v: StoreView, topic: Seq<char>)
    ensures
        belonging(v, topic).len() <= v.edges.len(),
{
    let all = sources_of(v.edges, topic, "belongs_to"@);
    let p = |s: Seq<char>| is_conversation(v.nodes, s);
    lemma_sources_len(v.edges, topic, "belongs_to"@);
    crate::seqs::keeping_is_filtering(all, p);
    all.lemma_filter_len(p);
}

/// A conversation began in the month with which it is first noted.
pub proof fn conversations_begin_once(begun: Seq<Begun>, id: Seq<char>)
    ensures
        month_of(begun, id) is None <==> forall|i: int|
            0 <= i < begun.len() ==> (#[trigger] begun[i]).conversation_id@ != id,
        month_of(begun, id) matches Some(m) ==> exists|k: int|
            0 <= k < begun.len() && (#[trigger] begun[k]).conversation_id@ == id && begun[k].month@
                == m && forall|i: int| 0 <= i < k ==> (#[trigger] begun[i]).conversation_id@ != id,
    decreases begun.len(),
{
    if begun.len() > 0 {
        let rest = begun.drop_first();
        if begun[0].conversation_id@ != id {
            conversations_begin_once(rest, id);
            if month_of(rest, id) is None {
                assert forall|i: int| 0 <= i < begun.len() implies (
                #[trigger] begun[i]).conversation_id@ != id by {
                    if i > 0 {
                        assert(rest[i - 1] == begun[i]);
                    }
                }
            } else {
                let m = month_of(rest, id)->0;
                let k = choose|k: int|
                    0 <= k < rest.len() && (#[trigger] rest[k]).conversation_id@ == id
                        && rest[k].month@ == m && forall|i: int|
                        0 <= i < k ==> (#[trigger] rest[i]).conversation_id@ != id;
                assert(begun[k + 1] == rest[k]);
                assert forall|i: int| 0 <= i < k + 1 implies (
                #[trigger] begun[i]).conversation_id@ != id by {
                    if i > 0 {
                        assert(rest[i - 1] == begun[i]);
                    }
                }
            }
        }
    }
}

/// Every topic has its cells, and no other node has any.
pub proof fn every_topic_has_its_cells(v: StoreView, begun: Seq<Begun>)
    ensures
        all_cells(v, begun, topics(v.nodes)) == v.nodes.filter(
            |n: NodeView| n.kind == "topic"@,
        ).map_values(|n: NodeView| topic_cells(v, begun, n)).flatten(),
{
    crate::seqs::keeping_is_filtering(v.nodes, |n: NodeView| n.kind == "topic"@);
    lemma_all_cells(v, begun, topics(v.nodes));
}

proof fn lemma_all_cells(v: StoreView, begun: Seq<Begun>, ts: Seq<NodeView>)
    ensures
        all_cells(v, begun, ts) == ts.map_values(
            |n: NodeView| topic_cells(v, begun, n),
        ).flatten(),
    decreases ts.len(),
{
    let f = |n: NodeView| topic_cells(v, begun, n);
    if ts.len() > 0 {
        let rest = ts.drop_last();
        lemma_all_cells(v, begun, rest);
        assert(ts.map_values(f) =~= rest.map_values(f).push(f(ts.last())));
        rest.map_values(f).lemma_flatten_push(f(ts.last()));
    } else {
        assert(ts.map_values(f) =~= Seq::<Seq<CellView>>::empty());
    }
}

} // verus!
