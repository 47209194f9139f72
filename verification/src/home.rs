//! What the user sees first of a workspace, and of each of its nodes.

use crate::archive::{month_before, orphan_since};
use crate::double::Double;
use crate::graph::at_most;
use crate::lens::{collect_sources, count_orphans, creations, orphans, sources_of, Created};
use crate::seqs::{arrange, arranged, kept, lemma_kept_step, Ranked};
use crate::store::queue::{ExtractionRow, ExtractionView};
use crate::store::{has_node, lemma_views_push, views, EdgeView, NodeRow, NodeView, Store, StoreView};
use crate::text::{lex_lt, same, text_lt, text_opt, texts};
use vstd::prelude::*;

verus! {

// Tiles ------------------------------------------------------------------

/// Something that is shown on the first page.
#[derive(Debug)]
pub struct HomeTile {
    pub id: String,
    pub name: String,
    pub kind: String,
}

/// What a tile holds.
pub ghost struct TileView {
    pub id: Seq<char>,
    pub name: Seq<char>,
    pub kind: Seq<char>,
}

impl View for HomeTile {
    type V = TileView;

    open spec fn view(&self) -> TileView {
        TileView { id: self.id@, name: self.name@, kind: self.kind@ }
    }
}

/// The first page.
#[derive(Debug)]
pub struct HomeData {
    pub recent: Vec<HomeTile>,
    pub orphan_count: usize,
    pub orphan_since: String,
    pub snapshots: Vec<HomeTile>,
    pub growing: Vec<HomeTile>,
}

/// How many recent concepts are shown.
pub const RECENT_CONCEPTS: usize = 5;

/// How many growing topics are shown.
pub const GROWING_TOPICS: usize = 3;

/// The nodes of the kind.
pub open spec fn of_kind(nodes: Seq<NodeView>, kind: Seq<char>) -> Seq<NodeView> {
    kept(nodes, |n: NodeView| n.kind == kind)
}

/// The tiles of concepts.
pub open spec fn concept_tiles(entries: Seq<Created>) -> Seq<TileView> {
    entries.map_values(|c: Created| TileView { id: c.id@, name: c.name@, kind: "concept"@ })
}

/// Whether the tiles are those of the concepts that were created last, the latest
/// first.
pub open spec fn shows_recent(tiles: Seq<TileView>, nodes: Seq<NodeView>) -> bool {
    exists|entries: Seq<Created>| #[trigger]
        creations(entries, of_kind(nodes, "concept"@)) && tiles == at_most(
            concept_tiles(arranged(entries)),
            RECENT_CONCEPTS as int,
        )
}

/// The concepts that were created last, the latest first.
pub fn recent_concepts(nodes: &Vec<NodeRow>) -> (r: Vec<HomeTile>)
    ensures
        shows_recent(views(r@), views(nodes@)),
{
    let ghost all = views(nodes@);
    let ghost p = |n: NodeView| n.kind == "concept"@;
    let mut entries: Vec<Created> = Vec::new();
    let mut i: usize = 0;
    assert(all.take(0) =~= Seq::<NodeView>::empty());
    while i < nodes.len()
        invariant
            i <= nodes@.len(),
            all == views(nodes@),
            p == (|n: NodeView| n.kind == "concept"@),
            creations(entries@, kept(all.take(i as int), p)),
        decreases nodes@.len() - i,
    {
        proof {
            lemma_kept_step(all, p, i as int);
            assert(all[i as int] == nodes@[i as int]@);
        }
        if same(nodes[i].kind.as_str(), "concept") {
            entries.push(
                Created {
                    id: nodes[i].id.clone(),
                    name: nodes[i].name.clone(),
                    at: nodes[i].created.clone(),
                },
            );
        }
        i = i + 1;
    }
    assert(all.take(i as int) =~= all);
    let ghost found = entries@;
    assert(creations(found, of_kind(all, "concept"@)));
    let sorted = arrange(entries);
    let ghost tiles = concept_tiles(sorted@);
    let mut out: Vec<HomeTile> = Vec::new();
    let mut k: usize = 0;
    assert(views(out@) =~= tiles.take(0));
    while k < sorted.len() && k < RECENT_CONCEPTS
        invariant
            k <= sorted@.len(),
            k <= RECENT_CONCEPTS,
            tiles == concept_tiles(sorted@),
            views(out@) == tiles.take(k as int),
        decreases sorted@.len() - k,
    {
        let t = HomeTile {
            id: sorted[k].id.clone(),
            name: sorted[k].name.clone(),
            kind: "concept".to_owned(),
        };
        proof {
            lemma_views_push(out@, t);
            assert(tiles.take(k + 1) =~= tiles.take(k as int).push(t@));
        }
        out.push(t);
        k = k + 1;
    }
    proof {
        if sorted@.len() <= RECENT_CONCEPTS {
            assert(tiles.take(k as int) =~= tiles);
        }
    }
    out
}

/// A topic with the number of nodes that belong to it.
#[derive(Debug)]
pub struct Growing {
    pub id: String,
    pub name: String,
    pub count: usize,
}

/// The topic to which most belongs comes first.
impl Ranked for Growing {
    open spec fn ranks_before(self, other: Growing) -> bool {
        self.count > other.count
    }

    proof fn ranking(a: Growing, b: Growing, c: Growing) {
    }

    fn precedes(&self, other: &Growing) -> (r: bool) {
        self.count > other.count
    }
}

/// How much belongs to the topic.
pub open spec fn growth(v: StoreView, topic: Seq<char>) -> nat {
    sources_of(v.edges, topic, "belongs_to"@).len()
}

/// The topics to which anything belongs.
pub open spec fn growing_topics(v: StoreView) -> Seq<NodeView> {
    kept(v.nodes, |n: NodeView| n.kind == "topic"@ && growth(v, n.id) > 0)
}

/// Whether the entries are those of the nodes.
pub open spec fn grows(entries: Seq<Growing>, v: StoreView, nodes: Seq<NodeView>) -> bool {
    entries.len() == nodes.len() && forall|i: int|
        0 <= i < entries.len() ==> {
            &&& (#[trigger] entries[i]).id@ == nodes[i].id
            &&& entries[i].name@ == nodes[i].name
            &&& entries[i].count == growth(v, nodes[i].id)
        }
}

/// The tiles of topics.
pub open spec fn topic_tiles(entries: Seq<Growing>) -> Seq<TileView> {
    entries.map_values(|g: Growing| TileView { id: g.id@, name: g.name@, kind: "topic"@ })
}

/// Whether the tiles are those of the topics to which most belongs.
pub open spec fn shows_growing(tiles: Seq<TileView>, v: StoreView) -> bool {
    exists|entries: Seq<Growing>| #[trigger]
        grows(entries, v, growing_topics(v)) && tiles == at_most(
            topic_tiles(arranged(entries)),
            GROWING_TOPICS as int,
        )
}

/// The topics to which most belongs.
pub fn growing(store: &Store) -> (r: Vec<HomeTile>)
    ensures
        shows_growing(views(r@), store@),
{
    let ghost v = store@;
    let ghost all = v.nodes;
    let ghost p = |n: NodeView| n.kind == "topic"@ && growth(v, n.id) > 0;
    let mut entries: Vec<Growing> = Vec::new();
    let mut i: usize = 0;
    assert(all.take(0) =~= Seq::<NodeView>::empty());
    while i < store.nodes.len()
        invariant
            i <= store.nodes@.len(),
            v == store@,
            all == v.nodes,
            p == (|n: NodeView| n.kind == "topic"@ && growth(v, n.id) > 0),
            grows(entries@, v, kept(all.take(i as int), p)),
        decreases store.nodes@.len() - i,
    {
        proof {
            lemma_kept_step(all, p, i as int);
            assert(all[i as int] == store.nodes@[i as int]@);
        }
        if same(store.nodes[i].kind.as_str(), "topic") {
            let sources = collect_sources(
                &store.edges,
                store.nodes[i].id.as_str(),
                "belongs_to",
            );
            assert(texts(sources@).len() == sources@.len());
            if sources.len() > 0 {
                entries.push(
                    Growing {
                        id: store.nodes[i].id.clone(),
                        name: store.nodes[i].name.clone(),
                        count: sources.len(),
                    },
                );
            }
        }
        i = i + 1;
    }
    assert(all.take(i as int) =~= all);
    let ghost found = entries@;
    assert(grows(found, v, growing_topics(v)));
    let sorted = arrange(entries);
    let ghost tiles = topic_tiles(sorted@);
    let mut out: Vec<HomeTile> = Vec::new();
    let mut k: usize = 0;
    assert(views(out@) =~= tiles.take(0));
    while k < sorted.len() && k < GROWING_TOPICS
        invariant
            k <= sorted@.len(),
            k <= GROWING_TOPICS,
            tiles == topic_tiles(sorted@),
            views(out@) == tiles.take(k as int),
        decreases sorted@.len() - k,
    {
        let t = HomeTile {
            id: sorted[k].id.clone(),
            name: sorted[k].name.clone(),
            kind: "topic".to_owned(),
        };
        proof {
            lemma_views_push(out@, t);
            assert(tiles.take(k + 1) =~= tiles.take(k as int).push(t@));
        }
        out.push(t);
        k = k + 1;
    }
    proof {
        if sorted@.len() <= GROWING_TOPICS {
            assert(tiles.take(k as int) =~= tiles);
        }
    }
    out
}

/// The first page. `before` is the time ninety days before `now`, printed; the
/// snapshots are given.
pub fn get_home_tiles(
    store: &Store,
    before: &str,
    now: i64,
    snapshots: Vec<HomeTile>,
) -> (r: HomeData)
    ensures
        shows_recent(views(r.recent@), store@.nodes),
        r.orphan_count == orphans(store@, before@).len(),
        r.orphan_since@ == month_before(now),
        r.snapshots == snapshots,
        shows_growing(views(r.growing@), store@),
{
    HomeData {
        recent: recent_concepts(&store.nodes),
        orphan_count: count_orphans(store, before),
        orphan_since: orphan_since(now),
        snapshots,
        growing: growing(store),
    }
}

// Counts -----------------------------------------------------------------

/// How much there is of everything.
#[derive(Debug)]
pub struct WorkspaceStatus {
    pub conversations: usize,
    pub messages: usize,
    pub nodes: usize,
    pub concepts: usize,
    pub topics: usize,
    pub entities: usize,
    pub pending: usize,
    pub processing: usize,
    pub done: usize,
    pub failed: usize,
    pub parked: usize,
}

/// The rows with the status.
pub open spec fn in_status(rows: Seq<ExtractionView>, status: Seq<char>) -> Seq<ExtractionView> {
    kept(rows, |r: ExtractionView| r.status == status)
}

fn count_kind(nodes: &Vec<NodeRow>, kind: &str) -> (r: usize)
    ensures
        r == of_kind(views(nodes@), kind@).len(),
{
    let ghost all = views(nodes@);
    let ghost p = |n: NodeView| n.kind == kind@;
    let mut c: usize = 0;
    let mut i: usize = 0;
    assert(all.take(0) =~= Seq::<NodeView>::empty());
    while i < nodes.len()
        invariant
            i <= nodes@.len(),
            all == views(nodes@),
            p == (|n: NodeView| n.kind == kind@),
            c == kept(all.take(i as int), p).len(),
            c <= i,
        decreases nodes@.len() - i,
    {
        proof {
            lemma_kept_step(all, p, i as int);
            assert(all[i as int] == nodes@[i as int]@);
        }
        if same(nodes[i].kind.as_str(), kind) {
            c = c + 1;
        }
        i = i + 1;
    }
    assert(all.take(i as int) =~= all);
    c
}

fn count_status(rows: &Vec<ExtractionRow>, status: &str) -> (r: usize)
    ensures
        r == in_status(views(rows@), status@).len(),
{
    let ghost all = views(rows@);
    let ghost p = |r: ExtractionView| r.status == status@;
    let mut c: usize = 0;
    let mut i: usize = 0;
    assert(all.take(0) =~= Seq::<ExtractionView>::empty());
    while i < rows.len()
        invariant
            i <= rows@.len(),
            all == views(rows@),
            p == (|r: ExtractionView| r.status == status@),
            c == kept(all.take(i as int), p).len(),
            c <= i,
        decreases rows@.len() - i,
    {
        proof {
            lemma_kept_step(all, p, i as int);
            assert(all[i as int] == rows@[i as int]@);
        }
        if same(rows[i].status.as_str(), status) {
            c = c + 1;
        }
        i = i + 1;
    }
    assert(all.take(i as int) =~= all);
    c
}

/// How much there is of everything; the number of messages is given.
pub fn get_workspace_status(store: &Store, rows: &Vec<ExtractionRow>, messages: usize) -> (r:
    WorkspaceStatus)
    ensures
        r.conversations == of_kind(store@.nodes, "conversation"@).len(),
        r.messages == messages,
        r.nodes == store@.nodes.len(),
        r.concepts == of_kind(store@.nodes, "concept"@).len(),
        r.topics == of_kind(store@.nodes, "topic"@).len(),
        r.entities == of_kind(store@.nodes, "entity"@).len(),
        r.pending == in_status(views(rows@), "pending"@).len(),
        r.processing == in_status(views(rows@), "processing"@).len(),
        r.done == in_status(views(rows@), "done"@).len(),
        r.failed == in_status(views(rows@), "failed"@).len(),
        r.parked == store@.parked.len(),
{
    WorkspaceStatus {
        conversations: count_kind(&store.nodes, "conversation"),
        messages,
        nodes: store.nodes.len(),
        concepts: count_kind(&store.nodes, "concept"),
        topics: count_kind(&store.nodes, "topic"),
        entities: count_kind(&store.nodes, "entity"),
        pending: count_status(rows, "pending"),
        processing: count_status(rows, "processing"),
        done: count_status(rows, "done"),
        failed: count_status(rows, "failed"),
        parked: store.parked.len(),
    }
}

// One node ---------------------------------------------------------------

/// A neighbour of a node, and the edge by which it is one.
#[derive(Debug)]
pub struct NodeNeighbor {
    pub id: String,
    pub name: String,
    pub node_type: String,
    pub edge_type: String,
    /// `incoming` where the edge ends at the node, `outgoing` where it starts.
    pub direction: &'static str,
}

/// What a neighbour holds.
pub ghost struct NeighborView {
    pub id: Seq<char>,
    pub name: Seq<char>,
    pub node_type: Seq<char>,
    pub edge_type: Seq<char>,
    pub direction: Seq<char>,
}

impl View for NodeNeighbor {
    type V = NeighborView;

    open spec fn view(&self) -> NeighborView {
        NeighborView {
            id: self.id@,
            name: self.name@,
            node_type: self.node_type@,
            edge_type: self.edge_type@,
            direction: self.direction@,
        }
    }
}

/// All that is shown of a node.
#[derive(Debug)]
pub struct NodeDetail {
    pub id: String,
    pub name: String,
    pub node_type: String,
    pub description: Option<String>,
    pub tier: Option<String>,
    pub confidence: Option<Double>,
    pub incoming_count: usize,
    pub outgoing_count: usize,
    pub neighbors: Vec<NodeNeighbor>,
}

/// How many neighbours are shown in each direction.
pub const MAX_NEIGHBORS: usize = 50;

/// A neighbour with the time of its last change.
#[derive(Debug)]
pub struct Near {
    pub at: String,
    pub neighbor: NodeNeighbor,
}

/// What changed last comes first.
impl Ranked for Near {
    open spec fn ranks_before(self, other: Near) -> bool {
        lex_lt(other.at@, self.at@)
    }

    proof fn ranking(a: Near, b: Near, c: Near) {
        crate::text::lemma_lex_irreflexive(a.at@);
        if lex_lt(b.at@, a.at@) && lex_lt(c.at@, b.at@) {
            crate::text::lemma_lex_transitive(c.at@, b.at@, a.at@);
        }
        crate::text::lemma_lex_total(a.at@, b.at@);
        crate::text::lemma_lex_total(b.at@, c.at@);
        if lex_lt(a.at@, b.at@) && lex_lt(b.at@, c.at@) {
            crate::text::lemma_lex_transitive(a.at@, b.at@, c.at@);
        }
        if lex_lt(a.at@, c.at@) && lex_lt(c.at@, a.at@) {
            crate::text::lemma_lex_transitive(a.at@, c.at@, a.at@);
        }
    }

    fn precedes(&self, other: &Near) -> (r: bool) {
        text_lt(other.at.as_str(), self.at.as_str())
    }
}

/// The near end of an edge, seen in the direction.
pub open spec fn near_end(e: EdgeView, incoming: bool) -> Seq<char> {
    if incoming {
        e.dst
    } else {
        e.src
    }
}

/// The far end of an edge, seen in the direction.
pub open spec fn far_end(e: EdgeView, incoming: bool) -> Seq<char> {
    if incoming {
        e.src
    } else {
        e.dst
    }
}

/// The name of a direction.
pub open spec fn direction(incoming: bool) -> Seq<char> {
    if incoming {
        "incoming"@
    } else {
        "outgoing"@
    }
}

/// The first node with the name.
pub open spec fn node_with(nodes: Seq<NodeView>, id: Seq<char>) -> Option<NodeView>
    decreases nodes.len(),
{
    if nodes.len() == 0 {
        None
    } else if nodes[0].id == id {
        Some(nodes[0])
    } else {
        node_with(nodes.drop_first(), id)
    }
}

/// The edges at the node in the direction.
pub open spec fn edges_at(edges: Seq<EdgeView>, id: Seq<char>, incoming: bool) -> Seq<EdgeView> {
    kept(edges, |e: EdgeView| near_end(e, incoming) == id)
}

/// The neighbours at the edges, each with the time of its last change.
pub open spec fn neighbours(
    edges: Seq<EdgeView>,
    nodes: Seq<NodeView>,
    incoming: bool,
) -> Seq<(Seq<char>, NeighborView)>
    decreases edges.len(),
{
    if edges.len() == 0 {
        Seq::empty()
    } else {
        let before = neighbours(edges.drop_last(), nodes, incoming);
        let e = edges.last();
        match node_with(nodes, far_end(e, incoming)) {
            Some(n) => before.push(
                (
                    n.updated,
                    NeighborView {
                        id: n.id,
                        name: n.name,
                        node_type: n.kind,
                        edge_type: e.kind,
                        direction: direction(incoming),
                    },
                ),
            ),
            None => before,
        }
    }
}

/// The contents of entries.
pub open spec fn near_pairs(entries: Seq<Near>) -> Seq<(Seq<char>, NeighborView)> {
    entries.map_values(|n: Near| (n.at@, n.neighbor@))
}

/// The neighbours of entries.
pub open spec fn near_views(entries: Seq<Near>) -> Seq<NeighborView> {
    entries.map_values(|n: Near| n.neighbor@)
}

/// Whether the list is that of the neighbours in the direction, those that
/// changed last first.
pub open spec fn lists_neighbours(
    list: Seq<NeighborView>,
    v: StoreView,
    id: Seq<char>,
    incoming: bool,
) -> bool {
    exists|entries: Seq<Near>|
        #![trigger near_pairs(entries)]
        near_pairs(entries) == neighbours(edges_at(v.edges, id, incoming), v.nodes, incoming)
            && list == at_most(near_views(arranged(entries)), MAX_NEIGHBORS as int)
}

fn find_node(nodes: &Vec<NodeRow>, id: &str) -> (r: Option<usize>)
    ensures
        match r {
            Some(k) => k < nodes@.len() && node_with(views(nodes@), id@) == Some(
                nodes@[k as int]@,
            ),
            None => node_with(views(nodes@), id@) is None,
        },
{
    let ghost all = views(nodes@);
    let mut i: usize = 0;
    assert(all.skip(0) =~= all);
    while i < nodes.len()
        invariant
            i <= nodes@.len(),
            all == views(nodes@),
            node_with(all, id@) == node_with(all.skip(i as int), id@),
        decreases nodes@.len() - i,
    {
        assert(all.skip(i as int)[0] == nodes@[i as int]@);
        if same(nodes[i].id.as_str(), id) {
            return Some(i);
        }
        assert(all.skip(i as int).drop_first() =~= all.skip(i + 1));
        i = i + 1;
    }
    None
}

/// The neighbours in the direction, and how many edges there are.
fn look(store: &Store, id: &str, incoming: bool) -> (r: (Vec<NodeNeighbor>, usize))
    ensures
        lists_neighbours(views(r.0@), store@, id@, incoming),
        r.1 == edges_at(store@.edges, id@, incoming).len(),
{
    let ghost all = store@.edges;
    let ghost p = |e: EdgeView| near_end(e, incoming) == id@;
    let mut entries: Vec<Near> = Vec::new();
    let mut count: usize = 0;
    let mut i: usize = 0;
    assert(all.take(0) =~= Seq::<EdgeView>::empty());
    assert(near_pairs(entries@) =~= Seq::<(Seq<char>, NeighborView)>::empty());
    while i < store.edges.len()
        invariant
            i <= store.edges@.len(),
            all == store@.edges,
            p == (|e: EdgeView| near_end(e, incoming) == id@),
            count == kept(all.take(i as int), p).len(),
            count <= i,
            near_pairs(entries@) == neighbours(
                kept(all.take(i as int), p),
                store@.nodes,
                incoming,
            ),
        decreases store.edges@.len() - i,
    {
        let ghost e = all[i as int];
        let ghost before = kept(all.take(i as int), p);
        proof {
            lemma_kept_step(all, p, i as int);
            assert(e == store.edges@[i as int]@);
        }
        let near = if incoming {
            store.edges[i].dst.as_str()
        } else {
            store.edges[i].src.as_str()
        };
        if same(near, id) {
            count = count + 1;
            assert(before.push(e).drop_last() =~= before);
            let far = if incoming {
                store.edges[i].src.as_str()
            } else {
                store.edges[i].dst.as_str()
            };
            match find_node(&store.nodes, far) {
                Some(k) => {
                    let n = Near {
                        at: store.nodes[k].updated.clone(),
                        neighbor: NodeNeighbor {
                            id: store.nodes[k].id.clone(),
                            name: store.nodes[k].name.clone(),
                            node_type: store.nodes[k].kind.clone(),
                            edge_type: store.edges[i].kind.clone(),
                            direction: if incoming {
                                "incoming"
                            } else {
                                "outgoing"
                            },
                        },
                    };
                    assert(near_pairs(entries@.push(n)) =~= near_pairs(entries@).push(
                        (n.at@, n.neighbor@),
                    ));
                    entries.push(n);
                },
                None => {},
            }
        }
        i = i + 1;
    }
    assert(all.take(i as int) =~= all);
    let ghost found = entries@;
    let mut sorted = arrange(entries);
    let ghost full = near_views(sorted@);
    if sorted.len() > MAX_NEIGHBORS {
        sorted.truncate(MAX_NEIGHBORS);
    }
    let ghost cut = sorted@;
    let mut out: Vec<NodeNeighbor> = Vec::new();
    assert(views(out@) =~= near_views(cut).take(0));
    for n in it: sorted
        invariant
            cut == it.seq(),
            views(out@) == near_views(cut).take(it.index() as int),
    {
        proof {
            lemma_views_push(out@, n.neighbor);
            assert(near_views(cut).take(it.index() + 1) =~= near_views(cut).take(
                it.index() as int,
            ).push(n.neighbor@));
        }
        out.push(n.neighbor);
    }
    proof {
        assert(near_views(cut).take(cut.len() as int) =~= near_views(cut));
        assert(near_views(cut) =~= at_most(full, MAX_NEIGHBORS as int));
        assert(near_pairs(found) == neighbours(
            edges_at(store@.edges, id@, incoming),
            store@.nodes,
            incoming,
        ));
    }
    (out, count)
}

/// Whether the detail is that of the node.
pub open spec fn details(d: NodeDetail, v: StoreView, n: NodeView) -> bool {
    &&& d.name@ == n.name
    &&& d.node_type@ == n.kind
    &&& text_opt(d.description) == n.props.str_at("description"@)
    &&& text_opt(d.tier) == n.props.str_at("tier"@)
    &&& d.confidence == n.props.at("confidence"@).as_double()
    &&& d.incoming_count == edges_at(v.edges, n.id, true).len()
    &&& d.outgoing_count == edges_at(v.edges, n.id, false).len()
    &&& exists|a: Seq<NeighborView>, b: Seq<NeighborView>|
        #![trigger lists_neighbours(a, v, n.id, true), lists_neighbours(b, v, n.id, false)]
        lists_neighbours(a, v, n.id, true) && lists_neighbours(b, v, n.id, false) && views(
            d.neighbors@,
        ) == a + b
}

/// All that is shown of the node with the name: what it is, and its neighbours,
/// those from which edges come before those to which edges lead.
pub fn get_node_detail(store: &Store, node_id: &str) -> (r: Result<NodeDetail, String>)
    ensures
        match (r, node_with(store@.nodes, node_id@)) {
            (Ok(d), Some(n)) => d.id@ == node_id@ && n.id == node_id@ && details(d, store@, n),
            (Err(m), None) => m@ == "Node not found: Query returned no rows"@,
            _ => false,
        },
{
    let k: usize = match find_node(&store.nodes, node_id) {
        Some(k) => k,
        None => {
            return Err("Node not found: Query returned no rows".to_owned());
        },
    };
    proof {
        lemma_node_with(store@.nodes, node_id@);
    }
    let n = &store.nodes[k];
    let description = match n.props.str_at("description") {
        Some(s) => Some(s.to_owned()),
        None => None,
    };
    let tier = match n.props.str_at("tier") {
        Some(s) => Some(s.to_owned()),
        None => None,
    };
    let confidence = match n.props.get("confidence") {
        Some(c) => c.as_double(),
        None => None,
    };
    let (incoming, incoming_count) = look(store, node_id, true);
    let (mut outgoing, outgoing_count) = look(store, node_id, false);
    let ghost a = views(incoming@);
    let ghost b = views(outgoing@);
    let mut neighbors = incoming;
    let ghost first = neighbors@;
    let ghost second = outgoing@;
    neighbors.append(&mut outgoing);
    proof {
        assert(neighbors@ =~= first + second);
        assert(views(neighbors@) =~= a + b);
        assert(lists_neighbours(a, store@, node_id@, true));
        assert(lists_neighbours(b, store@, node_id@, false));
    }
    Ok(
        NodeDetail {
            id: node_id.to_owned(),
            name: n.name.clone(),
            node_type: n.kind.clone(),
            description,
            tier,
            confidence,
            incoming_count,
            outgoing_count,
            neighbors,
        },
    )
}

proof fn lemma_node_with(nodes: Seq<NodeView>, id: Seq<char>)
    ensures
        node_with(nodes, id) matches Some(n) ==> n.id == id,
    decreases nodes.len(),
{
    if nodes.len() > 0 {
        lemma_node_with(nodes.drop_first(), id);
    }
}

// Laws -------------------------------------------------------------------

/// Every concept is shown as recent, unless five are that were not created before it;
/// nothing but concepts is; and those that were created later come first.
pub proof fn the_latest_concepts_are_shown(tiles: Seq<TileView>, nodes: Seq<NodeView>) -> (at:
    Seq<int>)
    requires
        shows_recent(tiles, nodes),
    ensures
        tiles.len() <= 5,
        at.len() == tiles.len(),
        forall|i: int|
            0 <= i < at.len() ==> 0 <= #[trigger] at[i] < nodes.len() && nodes[at[i]].id
                == tiles[i].id && nodes[at[i]].name == tiles[i].name && nodes[at[i]].kind
                == "concept"@ && tiles[i].kind == "concept"@,
        forall|i: int, j: int|
            0 <= i < j < at.len() ==> !lex_lt(
                nodes[#[trigger] at[i]].created,
                nodes[#[trigger] at[j]].created,
            ),
        forall|k: int|
            0 <= k < nodes.len() && (#[trigger] nodes[k]).kind == "concept"@ ==> (exists|i: int|
                0 <= i < tiles.len() && (#[trigger] tiles[i]).id == nodes[k].id) || (tiles.len()
                == 5 && forall|i: int|
                0 <= i < at.len() ==> !lex_lt(nodes[#[trigger] at[i]].created, nodes[k].created)),
{
    let all = of_kind(nodes, "concept"@);
    let p = |n: NodeView| n.kind == "concept"@;
    crate::seqs::lemma_kept_members(nodes, p);
    let entries = choose|entries: Seq<Created>| #[trigger]
        creations(entries, all) && tiles == at_most(
            concept_tiles(arranged(entries)),
            RECENT_CONCEPTS as int,
        );
    crate::seqs::arranging_orders(entries);
    let top = at_most(arranged(entries), 5);
    crate::seqs::the_first_rank_first(entries, 5, top);
    assert(tiles =~= concept_tiles(top));
    let at = Seq::new(
        tiles.len(),
        |i: int|
            choose|k: int|
                0 <= k < nodes.len() && nodes[k].id == top[i].id@ && nodes[k].name == top[i].name@
                    && nodes[k].created == top[i].at@ && nodes[k].kind == "concept"@,
    );
    assert forall|i: int| 0 <= i < at.len() implies 0 <= #[trigger] at[i] < nodes.len()
        && nodes[at[i]].id == tiles[i].id && nodes[at[i]].name == tiles[i].name
        && nodes[at[i]].created == top[i].at@ && nodes[at[i]].kind == "concept"@ && tiles[i].kind
        == "concept"@ by {
        assert(entries.contains(top[i]));
        let m = choose|m: int| 0 <= m < entries.len() && entries[m] == top[i];
        assert(entries[m].id@ == all[m].id);
        assert(all.contains(all[m]));
        assert(p(all[m]));
        let k = choose|k: int| 0 <= k < nodes.len() && nodes[k] == all[m];
        assert(nodes[k].id == top[i].id@ && nodes[k].name == top[i].name@);
    }
    assert forall|i: int, j: int| 0 <= i < j < at.len() implies !lex_lt(
        nodes[#[trigger] at[i]].created,
        nodes[#[trigger] at[j]].created,
    ) by {
        assert(!top[j].ranks_before(top[i]));
    }
    assert forall|k: int| 0 <= k < nodes.len() && (#[trigger] nodes[k]).kind == "concept"@ implies (
    exists|i: int| 0 <= i < tiles.len() && (#[trigger] tiles[i]).id == nodes[k].id) || (tiles.len()
        == 5 && forall|i: int|
        0 <= i < at.len() ==> !lex_lt(nodes[#[trigger] at[i]].created, nodes[k].created)) by {
        assert(nodes.contains(nodes[k]));
        assert(p(nodes[k]));
        assert(all.contains(nodes[k]));
        let m = choose|m: int| 0 <= m < all.len() && all[m] == nodes[k];
        let e = entries[m];
        assert(entries.contains(e));
        if top.contains(e) {
            let q = choose|q: int| 0 <= q < top.len() && top[q] == e;
            assert(tiles[q].id == nodes[k].id);
        } else {
            assert forall|i: int| 0 <= i < at.len() implies !lex_lt(
                nodes[#[trigger] at[i]].created,
                nodes[k].created,
            ) by {
                assert(!e.ranks_before(top[i]));
            }
        }
    }
    at
}

/// A topic has grown by as many nodes as belong to it.
pub proof fn growth_counts_what_belongs(v: StoreView, topic: Seq<char>)
    ensures
        growth(v, topic) == v.edges.filter(
            |e: EdgeView| e.dst == topic && e.kind == "belongs_to"@,
        ).map_values(|e: EdgeView| e.src).to_set().len(),
{
    let p = |e: EdgeView| e.dst == topic && e.kind == "belongs_to"@;
    let f = |e: EdgeView| e.src;
    let all = sources_of(v.edges, topic, "belongs_to"@);
    let mine = kept(v.edges, p);
    crate::lens::sources_are_counted_once(v.edges, topic, "belongs_to"@);
    crate::seqs::keeping_is_filtering(v.edges, p);
    crate::seqs::lemma_kept_members(v.edges, p);
    let sources = mine.map_values(f);
    assert forall|x: Seq<char>| #[trigger] all.contains(x) <==> sources.contains(x) by {
        if all.contains(x) {
            let i = choose|i: int|
                0 <= i < v.edges.len() && (#[trigger] v.edges[i]).src == x && v.edges[i].dst
                    == topic && v.edges[i].kind == "belongs_to"@;
            assert(v.edges.contains(v.edges[i]));
            assert(p(v.edges[i]));
            assert(mine.contains(v.edges[i]));
            let m = choose|m: int| 0 <= m < mine.len() && mine[m] == v.edges[i];
            assert(sources[m] == x);
        }
        if sources.contains(x) {
            let m = choose|m: int| 0 <= m < sources.len() && sources[m] == x;
            assert(mine.contains(mine[m]));
            assert(p(mine[m]));
            let i = choose|i: int| 0 <= i < v.edges.len() && v.edges[i] == mine[m];
            assert(v.edges[i].src == x);
        }
    }
    assert(all.to_set() =~= sources.to_set());
    all.unique_seq_to_set();
}

/// Every topic to which something belongs is shown as growing, unless three are to
/// which no less belongs; no other node is; and those come first to which more belongs.
pub proof fn the_most_grown_topics_are_shown(tiles: Seq<TileView>, v: StoreView) -> (at: Seq<int>)
    requires
        shows_growing(tiles, v),
    ensures
        tiles.len() <= 3,
        at.len() == tiles.len(),
        forall|i: int|
            0 <= i < at.len() ==> 0 <= #[trigger] at[i] < v.nodes.len() && v.nodes[at[i]].id
                == tiles[i].id && v.nodes[at[i]].name == tiles[i].name && v.nodes[at[i]].kind
                == "topic"@ && tiles[i].kind == "topic"@ && growth(v, tiles[i].id) > 0,
        forall|i: int, j: int|
            0 <= i < j < tiles.len() ==> growth(v, (#[trigger] tiles[i]).id) >= growth(
                v,
                (#[trigger] tiles[j]).id,
            ),
        forall|k: int|
            0 <= k < v.nodes.len() && (#[trigger] v.nodes[k]).kind == "topic"@ && growth(
                v,
                v.nodes[k].id,
            ) > 0 ==> (exists|i: int|
                0 <= i < tiles.len() && (#[trigger] tiles[i]).id == v.nodes[k].id) || (tiles.len()
                == 3 && forall|i: int|
                0 <= i < tiles.len() ==> growth(v, (#[trigger] tiles[i]).id) >= growth(
                    v,
                    v.nodes[k].id,
                )),
{
    let nodes = v.nodes;
    let all = growing_topics(v);
    let p = |n: NodeView| n.kind == "topic"@ && growth(v, n.id) > 0;
    crate::seqs::lemma_kept_members(nodes, p);
    let entries = choose|entries: Seq<Growing>| #[trigger]
        grows(entries, v, all) && tiles == at_most(
            topic_tiles(arranged(entries)),
            GROWING_TOPICS as int,
        );
    crate::seqs::arranging_orders(entries);
    let top = at_most(arranged(entries), 3);
    crate::seqs::the_first_rank_first(entries, 3, top);
    assert(tiles =~= topic_tiles(top));
    let at = Seq::new(
        tiles.len(),
        |i: int|
            choose|k: int|
                0 <= k < nodes.len() && nodes[k].id == top[i].id@ && nodes[k].name == top[i].name@
                    && nodes[k].kind == "topic"@,
    );
    assert forall|i: int| 0 <= i < at.len() implies 0 <= #[trigger] at[i] < nodes.len()
        && nodes[at[i]].id == tiles[i].id && nodes[at[i]].name == tiles[i].name && nodes[at[i]].kind
        == "topic"@ && tiles[i].kind == "topic"@ && growth(v, tiles[i].id) > 0 && top[i].count
        == growth(v, tiles[i].id) by {
        assert(entries.contains(top[i]));
        let m = choose|m: int| 0 <= m < entries.len() && entries[m] == top[i];
        assert(entries[m].id@ == all[m].id);
        assert(all.contains(all[m]));
        assert(p(all[m]));
        let k = choose|k: int| 0 <= k < nodes.len() && nodes[k] == all[m];
        assert(nodes[k].id == top[i].id@ && nodes[k].name == top[i].name@);
    }
    assert forall|i: int, j: int| 0 <= i < j < tiles.len() implies growth(
        v,
        (#[trigger] tiles[i]).id,
    ) >= growth(v, (#[trigger] tiles[j]).id) by {
        assert(0 <= at[i] && 0 <= at[j]);
        assert(!top[j].ranks_before(top[i]));
    }
    assert forall|k: int|
        0 <= k < nodes.len() && (#[trigger] nodes[k]).kind == "topic"@ && growth(v, nodes[k].id)
            > 0 implies (exists|i: int|
        0 <= i < tiles.len() && (#[trigger] tiles[i]).id == nodes[k].id) || (tiles.len() == 3
        && forall|i: int|
        0 <= i < tiles.len() ==> growth(v, (#[trigger] tiles[i]).id) >= growth(v, nodes[k].id)) by {
        assert(nodes.contains(nodes[k]));
        assert(p(nodes[k]));
        assert(all.contains(nodes[k]));
        let m = choose|m: int| 0 <= m < all.len() && all[m] == nodes[k];
        let e = entries[m];
        assert(entries.contains(e));
        if top.contains(e) {
            let q = choose|q: int| 0 <= q < top.len() && top[q] == e;
            assert(tiles[q].id == nodes[k].id);
        } else {
            assert forall|i: int| 0 <= i < tiles.len() implies growth(v, (#[trigger] tiles[i]).id)
                >= growth(v, nodes[k].id) by {
                assert(0 <= at[i]);
                assert(!e.ranks_before(top[i]));
            }
        }
    }
    at
}

/// Nodes are counted by their kind and rows by their status, one for one.
pub proof fn nodes_and_rows_are_counted(
    nodes: Seq<NodeView>,
    rows: Seq<ExtractionView>,
    kind: Seq<char>,
    status: Seq<char>,
)
    ensures
        of_kind(nodes, kind) == nodes.filter(|n: NodeView| n.kind == kind),
        in_status(rows, status) == rows.filter(|r: ExtractionView| r.status == status),
{
    crate::seqs::keeping_is_filtering(nodes, |n: NodeView| n.kind == kind);
    crate::seqs::keeping_is_filtering(rows, |r: ExtractionView| r.status == status);
}

/// A node is found by its name wherever one has it, and what is found is the first.
pub proof fn nodes_are_found_by_name(nodes: Seq<NodeView>, id: Seq<char>)
    ensures
        node_with(nodes, id) is None <==> forall|i: int|
            0 <= i < nodes.len() ==> (#[trigger] nodes[i]).id != id,
        node_with(nodes, id) matches Some(n) ==> exists|k: int|
            0 <= k < nodes.len() && #[trigger] nodes[k] == n && n.id == id && forall|i: int|
                0 <= i < k ==> (#[trigger] nodes[i]).id != id,
    decreases nodes.len(),
{
    if nodes.len() > 0 {
        let rest = nodes.drop_first();
        if nodes[0].id != id {
            nodes_are_found_by_name(rest, id);
            if node_with(rest, id) is None {
                assert forall|i: int| 0 <= i < nodes.len() implies (#[trigger] nodes[i]).id
                    != id by {
                    if i > 0 {
                        assert(rest[i - 1] == nodes[i]);
                    }
                }
            } else {
                let n = node_with(rest, id)->0;
                let k = choose|k: int|
                    0 <= k < rest.len() && #[trigger] rest[k] == n && n.id == id && forall|i: int|
                        0 <= i < k ==> (#[trigger] rest[i]).id != id;
                assert(nodes[k + 1] == n);
                assert forall|i: int| 0 <= i < k + 1 implies (#[trigger] nodes[i]).id != id by {
                    if i > 0 {
                        assert(rest[i - 1] == nodes[i]);
                    }
                }
            }
        } else {
            assert(nodes[0] == node_with(nodes, id)->0);
        }
    }
}

/// Whether the neighbour is what the edge leads to from the node, or what it comes
/// from.
pub open spec fn across(n: NeighborView, e: EdgeView, incoming: bool, nodes: Seq<NodeView>) -> bool {
    &&& incoming ==> n.id == e.src && n.direction == "incoming"@
    &&& !incoming ==> n.id == e.dst && n.direction == "outgoing"@
    &&& n.edge_type == e.kind
    &&& exists|k: int|
        0 <= k < nodes.len() && (#[trigger] nodes[k]).id == n.id && nodes[k].name == n.name
            && nodes[k].kind == n.node_type
}

/// Whether the neighbour is at the other end of some edge at the node.
pub open spec fn comes_from_an_edge(
    n: NeighborView,
    v: StoreView,
    id: Seq<char>,
    incoming: bool,
) -> bool {
    exists|i: int|
        0 <= i < v.edges.len() && (incoming ==> (#[trigger] v.edges[i]).dst == id) && (!incoming
            ==> v.edges[i].src == id) && across(n, v.edges[i], incoming, v.nodes)
}

proof fn lemma_neighbours(edges: Seq<EdgeView>, nodes: Seq<NodeView>, incoming: bool)
    ensures
        forall|i: int|
            0 <= i < edges.len() && node_with(
                nodes,
                far_end(#[trigger] edges[i], incoming),
            ) is Some ==> exists|m: int|
                0 <= m < neighbours(edges, nodes, incoming).len() && across(
                    (#[trigger] neighbours(edges, nodes, incoming)[m]).1,
                    edges[i],
                    incoming,
                    nodes,
                ),
        forall|m: int|
            0 <= m < neighbours(edges, nodes, incoming).len() ==> exists|i: int|
                0 <= i < edges.len() && across(
                    (#[trigger] neighbours(edges, nodes, incoming)[m]).1,
                    #[trigger] edges[i],
                    incoming,
                    nodes,
                ),
    decreases edges.len(),
{
    let all = neighbours(edges, nodes, incoming);
    if edges.len() > 0 {
        let rest = edges.drop_last();
        let e = edges.last();
        let before = neighbours(rest, nodes, incoming);
        lemma_neighbours(rest, nodes, incoming);
        nodes_are_found_by_name(nodes, far_end(e, incoming));
        assert forall|m: int| 0 <= m < before.len() implies #[trigger] all[m] == before[m] by {}
        assert(node_with(nodes, far_end(e, incoming)) is Some ==> across(
            all[all.len() - 1].1,
            e,
            incoming,
            nodes,
        ));
        assert forall|i: int|
            0 <= i < edges.len() && node_with(
                nodes,
                far_end(#[trigger] edges[i], incoming),
            ) is Some implies exists|m: int|
            0 <= m < all.len() && across((#[trigger] all[m]).1, edges[i], incoming, nodes) by {
            if i < rest.len() {
                assert(rest[i] == edges[i]);
                let m = choose|m: int|
                    0 <= m < before.len() && across(
                        (#[trigger] before[m]).1,
                        rest[i],
                        incoming,
                        nodes,
                    );
                assert(all[m] == before[m]);
            } else {
                assert(across(all[all.len() - 1].1, edges[i], incoming, nodes));
            }
        }
        assert forall|m: int| 0 <= m < all.len() implies exists|i: int|
            0 <= i < edges.len() && across(
                (#[trigger] all[m]).1,
                #[trigger] edges[i],
                incoming,
                nodes,
            ) by {
            if m < before.len() {
                assert(all[m] == before[m]);
                let i = choose|i: int|
                    0 <= i < rest.len() && across(
                        before[m].1,
                        #[trigger] rest[i],
                        incoming,
                        nodes,
                    );
                assert(edges[i] == rest[i]);
            } else {
                assert(edges[edges.len() - 1] == e);
            }
        }
    }
}

/// Every edge at a node, whatever its type, is told by the neighbour at its other end,
/// unless fifty neighbours are told or there is no such node; and nothing else is.
pub proof fn every_neighbour_is_told(
    list: Seq<NeighborView>,
    v: StoreView,
    id: Seq<char>,
    incoming: bool,
)
    requires
        lists_neighbours(list, v, id, incoming),
    ensures
        list.len() <= 50,
        forall|i: int|
            0 <= i < v.edges.len() && (incoming ==> (#[trigger] v.edges[i]).dst == id) && (!incoming
                ==> v.edges[i].src == id) && has_node(
                v.nodes,
                if incoming {
                    v.edges[i].src
                } else {
                    v.edges[i].dst
                },
            ) ==> list.len() == 50 || exists|j: int|
                0 <= j < list.len() && across(#[trigger] list[j], v.edges[i], incoming, v.nodes),
        forall|j: int|
            0 <= j < list.len() ==> comes_from_an_edge(#[trigger] list[j], v, id, incoming),
        edges_at(v.edges, id, incoming) == v.edges.filter(
            |e: EdgeView|
                if incoming {
                    e.dst == id
                } else {
                    e.src == id
                },
        ),
{
    let entries = choose|entries: Seq<Near>|
        #![trigger near_pairs(entries)]
        near_pairs(entries) == neighbours(edges_at(v.edges, id, incoming), v.nodes, incoming)
            && list == at_most(near_views(arranged(entries)), MAX_NEIGHBORS as int);
    let p = |e: EdgeView| near_end(e, incoming) == id;
    let q = |e: EdgeView|
        if incoming {
            e.dst == id
        } else {
            e.src == id
        };
    crate::seqs::lemma_kept_same(v.edges, p, q);
    crate::seqs::keeping_is_filtering(v.edges, q);
    crate::seqs::lemma_kept_members(v.edges, p);
    let mine = edges_at(v.edges, id, incoming);
    let all = neighbours(mine, v.nodes, incoming);
    lemma_neighbours(mine, v.nodes, incoming);
    let top = at_most(arranged(entries), 50);
    crate::seqs::arranging_orders(entries);
    crate::seqs::the_first_rank_first(entries, 50, top);
    assert(list =~= near_views(top));
    assert forall|i: int|
        0 <= i < v.edges.len() && (incoming ==> (#[trigger] v.edges[i]).dst == id) && (!incoming
            ==> v.edges[i].src == id) && has_node(
            v.nodes,
            if incoming {
                v.edges[i].src
            } else {
                v.edges[i].dst
            },
        ) implies list.len() == 50 || exists|j: int|
        0 <= j < list.len() && across(#[trigger] list[j], v.edges[i], incoming, v.nodes) by {
        let e = v.edges[i];
        assert(v.edges.contains(e));
        assert(p(e));
        assert(mine.contains(e));
        let a = choose|a: int| 0 <= a < mine.len() && mine[a] == e;
        nodes_are_found_by_name(v.nodes, far_end(e, incoming));
        let n = choose|n: int|
            0 <= n < v.nodes.len() && (#[trigger] v.nodes[n]).id == far_end(e, incoming);
        assert(v.nodes[n].id == far_end(e, incoming));
        assert(node_with(v.nodes, far_end(mine[a], incoming)) is Some);
        let m = choose|m: int|
            0 <= m < all.len() && across((#[trigger] all[m]).1, mine[a], incoming, v.nodes);
        assert(near_pairs(entries)[m] == all[m]);
        let x = entries[m];
        assert(x.neighbor@ == all[m].1);
        assert(entries.contains(x));
        if top.contains(x) {
            let j = choose|j: int| 0 <= j < top.len() && top[j] == x;
            assert(list[j] == x.neighbor@);
        }
    }
    assert forall|j: int| 0 <= j < list.len() implies comes_from_an_edge(
        #[trigger] list[j],
        v,
        id,
        incoming,
    ) by {
        assert(entries.contains(top[j]));
        let m = choose|m: int| 0 <= m < entries.len() && entries[m] == top[j];
        assert(near_pairs(entries)[m] == all[m]);
        assert(list[j] == all[m].1);
        let a = choose|a: int|
            0 <= a < mine.len() && across(all[m].1, #[trigger] mine[a], incoming, v.nodes);
        assert(mine.contains(mine[a]));
        assert(p(mine[a]));
        let i = choose|i: int| 0 <= i < v.edges.len() && v.edges[i] == mine[a];
        assert(across(list[j], v.edges[i], incoming, v.nodes));
    }
}

proof fn lemma_neighbours_dated(edges: Seq<EdgeView>, nodes: Seq<NodeView>, incoming: bool)
    ensures
        forall|m: int|
            0 <= m < neighbours(edges, nodes, incoming).len() ==> {
                let n = #[trigger] neighbours(edges, nodes, incoming)[m];
                node_with(nodes, n.1.id) matches Some(x) && x.updated == n.0
            },
    decreases edges.len(),
{
    if edges.len() > 0 {
        lemma_neighbours_dated(edges.drop_last(), nodes, incoming);
        lemma_node_with(nodes, far_end(edges.last(), incoming));
    }
}

/// The neighbours that changed last are told first.
pub proof fn the_latest_neighbours_are_told_first(
    list: Seq<NeighborView>,
    v: StoreView,
    id: Seq<char>,
    incoming: bool,
    i: int,
    j: int,
)
    requires
        lists_neighbours(list, v, id, incoming),
        0 <= i < j < list.len(),
    ensures
        node_with(v.nodes, list[i].id) is Some,
        node_with(v.nodes, list[j].id) is Some,
        !lex_lt(
            node_with(v.nodes, list[i].id)->0.updated,
            node_with(v.nodes, list[j].id)->0.updated,
        ),
{
    let entries = choose|entries: Seq<Near>|
        #![trigger near_pairs(entries)]
        near_pairs(entries) == neighbours(edges_at(v.edges, id, incoming), v.nodes, incoming)
            && list == at_most(near_views(arranged(entries)), MAX_NEIGHBORS as int);
    let mine = edges_at(v.edges, id, incoming);
    let all = neighbours(mine, v.nodes, incoming);
    lemma_neighbours_dated(mine, v.nodes, incoming);
    let sorted = arranged(entries);
    crate::seqs::arranging_orders(entries);
    assert forall|k: int| 0 <= k < sorted.len() implies ({
        let n = #[trigger] sorted[k];
        node_with(v.nodes, n.neighbor@.id) matches Some(x) && x.updated == n.at@
    }) by {
        assert(sorted.contains(sorted[k]));
        assert(entries.contains(sorted[k]));
        let m = choose|m: int| 0 <= m < entries.len() && entries[m] == sorted[k];
        assert(near_pairs(entries)[m] == all[m]);
    }
    assert(list[i] == sorted[i].neighbor@);
    assert(list[j] == sorted[j].neighbor@);
    assert(!sorted[j].ranks_before(sorted[i]));
}

} // verus!
