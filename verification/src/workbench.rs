//! One conversation at a time: its messages, what was found in it, and what is
//! parked.

use crate::archive::{text_in, unpack_text_or_empty};
use crate::double::Double;
use crate::json::{Json, JsonTree};
use crate::seqs::{kept, lemma_kept_step};
use crate::store::{lemma_views_push, views, EdgeView, NodeRow, NodeView, ParkedView, Store};
use crate::text::same;
use vstd::prelude::*;

verus! {

/// A message of the conversation.
#[derive(Debug)]
pub struct WorkbenchMessage {
    pub message_id: String,
    pub role: String,
    pub text: String,
}

/// A node that was found in the conversation.
#[derive(Debug)]
pub struct WorkbenchNode {
    pub id: String,
    pub node_type: String,
    pub name: String,
}

/// Something that is parked from the conversation.
#[derive(Debug)]
pub struct WorkbenchParkedItem {
    pub id: u64,
    pub kind: String,
    pub payload: Json,
    pub confidence: Double,
}

/// All that is known of the conversation.
#[derive(Debug)]
pub struct WorkbenchData {
    pub messages: Vec<WorkbenchMessage>,
    pub solid_nodes: Vec<WorkbenchNode>,
    pub parked_items: Vec<WorkbenchParkedItem>,
}

/// What a found node holds.
pub ghost struct FoundView {
    pub id: Seq<char>,
    pub node_type: Seq<char>,
    pub name: Seq<char>,
}

impl View for WorkbenchNode {
    type V = FoundView;

    open spec fn view(&self) -> FoundView {
        FoundView { id: self.id@, node_type: self.node_type@, name: self.name@ }
    }
}

/// What a parked item holds.
pub ghost struct ItemView {
    pub id: u64,
    pub kind: Seq<char>,
    pub payload: JsonTree,
    pub confidence: Double,
}

impl View for WorkbenchParkedItem {
    type V = ItemView;

    open spec fn view(&self) -> ItemView {
        ItemView {
            id: self.id,
            kind: self.kind@,
            payload: self.payload@,
            confidence: self.confidence,
        }
    }
}

/// A message as the user sees it; the text of one that cannot be read is empty.
pub fn workbench_message(message_id: String, role: String, blob: &[u8]) -> (r: WorkbenchMessage)
    ensures
        r.message_id@ == message_id@,
        r.role@ == role@,
        r.text@ == match text_in(blob@) {
            Some(t) => t,
            None => Seq::<char>::empty(),
        },
{
    WorkbenchMessage { message_id, role, text: unpack_text_or_empty(blob) }
}

/// The nodes with the name, as they are listed.
pub open spec fn listed(nodes: Seq<NodeView>, id: Seq<char>) -> Seq<FoundView> {
    kept(nodes, |n: NodeView| n.id == id).map_values(
        |n: NodeView| FoundView { id: n.id, node_type: n.kind, name: n.name },
    )
}

/// The nodes to which the conversation leads.
pub open spec fn found_in(
    edges: Seq<EdgeView>,
    nodes: Seq<NodeView>,
    conversation: Seq<char>,
) -> Seq<FoundView>
    decreases edges.len(),
{
    if edges.len() == 0 {
        Seq::empty()
    } else {
        let before = found_in(edges.drop_last(), nodes, conversation);
        if edges.last().src == conversation {
            before + listed(nodes, edges.last().dst)
        } else {
            before
        }
    }
}

fn list_nodes(nodes: &Vec<NodeRow>, id: &str, out: &mut Vec<WorkbenchNode>)
    ensures
        views(final(out)@) == views(old(out)@) + listed(views(nodes@), id@),
{
    let ghost all = views(nodes@);
    let ghost start = views(out@);
    let ghost p = |n: NodeView| n.id == id@;
    let ghost f = |n: NodeView| FoundView { id: n.id, node_type: n.kind, name: n.name };
    let mut i: usize = 0;
    assert(all.take(0) =~= Seq::<NodeView>::empty());
    assert(start + kept(all.take(0), p).map_values(f) =~= start);
    while i < nodes.len()
        invariant
            i <= nodes@.len(),
            all == views(nodes@),
            p == (|n: NodeView| n.id == id@),
            f == (|n: NodeView| FoundView { id: n.id, node_type: n.kind, name: n.name }),
            views(out@) == start + kept(all.take(i as int), p).map_values(f),
        decreases nodes@.len() - i,
    {
        proof {
            lemma_kept_step(all, p, i as int);
            assert(all[i as int] == nodes@[i as int]@);
        }
        if same(nodes[i].id.as_str(), id) {
            let n = WorkbenchNode {
                id: nodes[i].id.clone(),
                node_type: nodes[i].kind.clone(),
                name: nodes[i].name.clone(),
            };
            proof {
                lemma_views_push(out@, n);
                assert(start + kept(all.take(i as int), p).push(all[i as int]).map_values(f) =~= (
                start + kept(all.take(i as int), p).map_values(f)).push(n@));
            }
            out.push(n);
        }
        i = i + 1;
    }
    assert(all.take(i as int) =~= all);
}

/// The nodes to which the conversation leads.
pub fn solid_nodes(store: &Store, conversation_id: &str) -> (r: Vec<WorkbenchNode>)
    ensures
        views(r@) == found_in(store@.edges, store@.nodes, conversation_id@),
{
    let ghost all = store@.edges;
    let mut out: Vec<WorkbenchNode> = Vec::new();
    let mut i: usize = 0;
    assert(all.take(0) =~= Seq::<EdgeView>::empty());
    assert(views(out@) =~= Seq::<FoundView>::empty());
    while i < store.edges.len()
        invariant
            i <= store.edges@.len(),
            all == store@.edges,
            views(out@) == found_in(all.take(i as int), store@.nodes, conversation_id@),
        decreases store.edges@.len() - i,
    {
        assert(all.take(i + 1).drop_last() =~= all.take(i as int));
        assert(all.take(i + 1).last() == store.edges@[i as int]@);
        if same(store.edges[i].src.as_str(), conversation_id) {
            list_nodes(&store.nodes, store.edges[i].dst.as_str(), &mut out);
        }
        i = i + 1;
    }
    assert(all.take(i as int) =~= all);
    out
}

/// What is parked from the conversation, as it is listed.
pub open spec fn parked_from(parked: Seq<ParkedView>, conversation: Seq<char>) -> Seq<ItemView> {
    kept(parked, |p: ParkedView| p.conversation_id == conversation).map_values(
        |p: ParkedView|
            ItemView { id: p.id, kind: p.kind, payload: p.payload, confidence: p.confidence },
    )
}

/// What is parked from the conversation.
pub fn parked_items(store: &Store, conversation_id: &str) -> (r: Vec<WorkbenchParkedItem>)
    ensures
        views(r@) == parked_from(store@.parked, conversation_id@),
{
    let ghost all = store@.parked;
    let ghost p = |p: ParkedView| p.conversation_id == conversation_id@;
    let ghost f = |p: ParkedView|
        ItemView { id: p.id, kind: p.kind, payload: p.payload, confidence: p.confidence };
    let mut out: Vec<WorkbenchParkedItem> = Vec::new();
    let mut i: usize = 0;
    assert(all.take(0) =~= Seq::<ParkedView>::empty());
    assert(views(out@) =~= kept(all.take(0), p).map_values(f));
    while i < store.parked.len()
        invariant
            i <= store.parked@.len(),
            all == store@.parked,
            p == (|p: ParkedView| p.conversation_id == conversation_id@),
            f == (|p: ParkedView|
                ItemView { id: p.id, kind: p.kind, payload: p.payload, confidence: p.confidence }),
            views(out@) == kept(all.take(i as int), p).map_values(f),
        decreases store.parked@.len() - i,
    {
        proof {
            lemma_kept_step(all, p, i as int);
            assert(all[i as int] == store.parked@[i as int]@);
        }
        if same(store.parked[i].conversation_id.as_str(), conversation_id) {
            let item = WorkbenchParkedItem {
                id: store.parked[i].id,
                kind: store.parked[i].kind.clone(),
                payload: store.parked[i].payload.copy(),
                confidence: store.parked[i].confidence,
            };
            proof {
                lemma_views_push(out@, item);
                assert(kept(all.take(i as int), p).push(all[i as int]).map_values(f) =~= kept(
                    all.take(i as int),
                    p,
                ).map_values(f).push(item@));
            }
            out.push(item);
        }
        i = i + 1;
    }
    assert(all.take(i as int) =~= all);
    out
}

/// A conversation with what was found in it and what is parked from it.
pub fn get_conversation_workbench(
    store: &Store,
    conversation_id: &str,
    messages: Vec<WorkbenchMessage>,
) -> (r: WorkbenchData)
    ensures
        r.messages == messages,
        views(r.solid_nodes@) == found_in(store@.edges, store@.nodes, conversation_id@),
        views(r.parked_items@) == parked_from(store@.parked, conversation_id@),
{
    WorkbenchData {
        messages,
        solid_nodes: solid_nodes(store, conversation_id),
        parked_items: parked_items(store, conversation_id),
    }
}

proof fn lemma_found_in(
    edges: Seq<EdgeView>,
    nodes: Seq<NodeView>,
    conversation: Seq<char>,
    f: FoundView,
)
    ensures
        found_in(edges, nodes, conversation).contains(f) <==> exists|i: int, k: int|
            0 <= i < edges.len() && 0 <= k < nodes.len() && (#[trigger] edges[i]).src
                == conversation && edges[i].dst == f.id && (#[trigger] nodes[k]).id == f.id
                && nodes[k].kind == f.node_type && nodes[k].name == f.name,
    decreases edges.len(),
{
    let all = found_in(edges, nodes, conversation);
    if edges.len() > 0 {
        let rest = edges.drop_last();
        let e = edges.last();
        lemma_found_in(rest, nodes, conversation, f);
        let before = found_in(rest, nodes, conversation);
        let p = |n: NodeView| n.id == e.dst;
        let g = |n: NodeView| FoundView { id: n.id, node_type: n.kind, name: n.name };
        crate::seqs::lemma_kept_members(nodes, p);
        let more = listed(nodes, e.dst);
        if all.contains(f) {
            let m = choose|m: int| 0 <= m < all.len() && all[m] == f;
            if m < before.len() {
                assert(before[m] == f);
                assert(before.contains(f));
                let (i, k) = choose|i: int, k: int|
                    0 <= i < rest.len() && 0 <= k < nodes.len() && (#[trigger] rest[i]).src
                        == conversation && rest[i].dst == f.id && (#[trigger] nodes[k]).id == f.id
                        && nodes[k].kind == f.node_type && nodes[k].name == f.name;
                assert(edges[i] == rest[i]);
            } else {
                let n = kept(nodes, p)[m - before.len()];
                assert(more[m - before.len()] == g(n));
                assert(kept(nodes, p).contains(n));
                assert(p(n));
                let k = choose|k: int| 0 <= k < nodes.len() && nodes[k] == n;
                assert(edges[edges.len() - 1].src == conversation);
                assert(nodes[k].id == f.id);
            }
        }
        if exists|i: int, k: int|
            0 <= i < edges.len() && 0 <= k < nodes.len() && (#[trigger] edges[i]).src
                == conversation && edges[i].dst == f.id && (#[trigger] nodes[k]).id == f.id
                && nodes[k].kind == f.node_type && nodes[k].name == f.name {
            let (i, k) = choose|i: int, k: int|
                0 <= i < edges.len() && 0 <= k < nodes.len() && (#[trigger] edges[i]).src
                    == conversation && edges[i].dst == f.id && (#[trigger] nodes[k]).id == f.id
                    && nodes[k].kind == f.node_type && nodes[k].name == f.name;
            if i < rest.len() {
                assert(rest[i] == edges[i]);
                assert(before.contains(f));
                let m = choose|m: int| 0 <= m < before.len() && before[m] == f;
                assert(all[m] == f);
            } else {
                assert(p(nodes[k]));
                assert(nodes.contains(nodes[k]));
                assert(kept(nodes, p).contains(nodes[k]));
                let m = choose|m: int| 0 <= m < kept(nodes, p).len() && kept(nodes, p)[m]
                    == nodes[k];
                assert(more[m] == f);
                assert(all[before.len() + m] == f);
            }
        }
    }
}

/// The workbench of a conversation lists every node to which an edge leads from it,
/// whatever the edge's type, and no other; and everything that is parked from it, in
/// order.
pub proof fn workbenches_list_what_was_found(
    edges: Seq<EdgeView>,
    nodes: Seq<NodeView>,
    parked: Seq<ParkedView>,
    conversation: Seq<char>,
)
    ensures
        forall|f: FoundView| #[trigger]
            found_in(edges, nodes, conversation).contains(f) <==> exists|i: int, k: int|
                0 <= i < edges.len() && 0 <= k < nodes.len() && (#[trigger] edges[i]).src
                    == conversation && edges[i].dst == f.id && (#[trigger] nodes[k]).id == f.id
                    && nodes[k].kind == f.node_type && nodes[k].name == f.name,
        parked_from(parked, conversation) == parked.filter(
            |p: ParkedView| p.conversation_id == conversation,
        ).map_values(
            |p: ParkedView|
                ItemView { id: p.id, kind: p.kind, payload: p.payload, confidence: p.confidence },
        ),
{
    assert forall|f: FoundView| #[trigger]
        found_in(edges, nodes, conversation).contains(f) <==> exists|i: int, k: int|
            0 <= i < edges.len() && 0 <= k < nodes.len() && (#[trigger] edges[i]).src
                == conversation && edges[i].dst == f.id && (#[trigger] nodes[k]).id == f.id
                && nodes[k].kind == f.node_type && nodes[k].name == f.name by {
        lemma_found_in(edges, nodes, conversation, f);
    }
    crate::seqs::keeping_is_filtering(parked, |p: ParkedView| p.conversation_id == conversation);
}

} // verus!
