//! Starting the graph anew.

use super::queue::{
    changed, every_row, left_behind, missing_rows, requeue_everything, requeue_left_behind,
    requeued, restarted, with_status, ExtractionRow, ExtractionView,
};
use super::{
    edge_key, edges_without, has_node, lemma_kept_views, lemma_views_push, sound, views, without,
    EdgeRow, EdgeView, NodeRow, NodeView, ParkedView, Store, StoreView, TextRow, TextView,
    VectorRow, VectorView,
};
use crate::seqs::{kept, lemma_kept_distinct, lemma_kept_members, lemma_kept_step};
use crate::text::{same, texts};
use vstd::prelude::*;

verus! {

/// How much is done anew.
#[derive(Clone, Copy, Debug, PartialEq, Eq, Structural)]
pub enum KgRebuildScope {
    /// What was not extracted yet is queued again.
    Refresh,
    /// Everything that was derived is wiped, and every conversation is queued
    /// again. Conversations and their messages stay.
    RebuildAll,
}

/// What was done.
#[derive(Debug)]
pub struct KgRebuildResult {
    pub scope: &'static str,
    pub derived_nodes_deleted: i64,
    pub edges_deleted: i64,
    pub parked_deleted: i64,
    pub conversations_requeued: i64,
}

/// Whether a node has the name and is no conversation.
pub open spec fn is_derived(nodes: Seq<NodeView>, id: Seq<char>) -> bool {
    exists|i: int|
        0 <= i < nodes.len() && (#[trigger] nodes[i]).id == id && nodes[i].kind
            != "conversation"@
}

/// The store without anything that was derived.
pub open spec fn wiped(v: StoreView) -> StoreView {
    StoreView {
        nodes: kept(v.nodes, |n: NodeView| n.kind == "conversation"@),
        edges: kept(
            v.edges,
            |e: EdgeView| !is_derived(v.nodes, e.src) && !is_derived(v.nodes, e.dst),
        ),
        parked: Seq::empty(),
        vectors: kept(v.vectors, |x: VectorView| !is_derived(v.nodes, x.node_id)),
        words: kept(v.words, |x: TextView| !is_derived(v.nodes, x.node_id)),
        next_parked: v.next_parked,
    }
}

/// The names of the nodes that are no conversations.
fn derived_ids(nodes: &Vec<NodeRow>) -> (r: Vec<String>)
    ensures
        forall|id: Seq<char>| #[trigger]
            texts(r@).contains(id) <==> is_derived(views(nodes@), id),
{
    let ghost all = views(nodes@);
    let mut out: Vec<String> = Vec::new();
    let mut i: usize = 0;
    while i < nodes.len()
        invariant
            i <= nodes@.len(),
            all == views(nodes@),
            forall|id: Seq<char>| #[trigger]
                texts(out@).contains(id) <==> is_derived(all.take(i as int), id),
        decreases nodes@.len() - i,
    {
        let ghost before = texts(out@);
        let ghost n = all[i as int];
        assert(n == nodes@[i as int]@);
        if !same(nodes[i].kind.as_str(), "conversation") {
            let id = nodes[i].id.clone();
            proof {
                crate::text::lemma_texts_push(out@, id);
            }
            out.push(id);
        }
        proof {
            let first = all.take(i as int);
            let next = all.take(i + 1);
            assert forall|id: Seq<char>| #[trigger] texts(out@).contains(id) <==> is_derived(
                next,
                id,
            ) by {
                if is_derived(next, id) {
                    let k = choose|k: int|
                        0 <= k < next.len() && (#[trigger] next[k]).id == id && next[k].kind
                            != "conversation"@;
                    if k < i {
                        assert(first[k] == next[k]);
                        assert(is_derived(first, id));
                        assert(before.contains(id));
                        let m = choose|m: int| 0 <= m < before.len() && before[m] == id;
                        assert(texts(out@)[m] == id);
                    } else {
                        assert(texts(out@)[before.len() as int] == id);
                    }
                }
                if texts(out@).contains(id) {
                    let m = choose|m: int| 0 <= m < texts(out@).len() && texts(out@)[m] == id;
                    if m < before.len() {
                        assert(before[m] == id);
                        assert(before.contains(id));
                        let k = choose|k: int|
                            0 <= k < first.len() && (#[trigger] first[k]).id == id
                                && first[k].kind != "conversation"@;
                        assert(next[k] == first[k]);
                    } else {
                        assert(next[i as int] == n);
                    }
                }
            }
        }
        i = i + 1;
    }
    assert(all.take(i as int) =~= all);
    out
}

fn only_conversations(nodes: Vec<NodeRow>) -> (r: Vec<NodeRow>)
    ensures
        views(r@) == kept(views(nodes@), |n: NodeView| n.kind == "conversation"@),
        r@.len() <= nodes@.len(),
{
    let ghost whole = nodes@;
    let ghost all = views(whole);
    let ghost p = |n: NodeView| n.kind == "conversation"@;
    let mut out: Vec<NodeRow> = Vec::new();
    assert(all.take(0) =~= Seq::<NodeView>::empty());
    assert(views(out@) =~= Seq::<NodeView>::empty());
    for row in it: nodes
        invariant
            whole == it.seq(),
            all == views(whole),
            p == (|n: NodeView| n.kind == "conversation"@),
            views(out@) == kept(all.take(it.index() as int), p),
    {
        proof {
            lemma_kept_step(all, p, it.index() as int);
            lemma_views_push(out@, row);
        }
        if same(row.kind.as_str(), "conversation") {
            out.push(row);
        }
    }
    proof {
        assert(all.take(whole.len() as int) =~= all);
        lemma_kept_members(all, p);
        assert(views(out@).len() == out@.len());
    }
    out
}

impl Store {
    /// Wipes everything that was derived. Returns how many nodes, edges and
    /// parked items went.
    pub fn wipe_derived(&mut self) -> (r: (usize, usize, usize))
        ensures
            final(self)@ == wiped(old(self)@),
            r.0 == old(self)@.nodes.len() - wiped(old(self)@).nodes.len(),
            r.1 == old(self)@.edges.len() - wiped(old(self)@).edges.len(),
            r.2 == old(self)@.parked.len(),
    {
        let ghost v = self@;
        let gone = derived_ids(&self.nodes);
        let mut nodes: Vec<NodeRow> = Vec::new();
        std::mem::swap(&mut nodes, &mut self.nodes);
        let mut edges: Vec<EdgeRow> = Vec::new();
        std::mem::swap(&mut edges, &mut self.edges);
        let mut vectors: Vec<VectorRow> = Vec::new();
        std::mem::swap(&mut vectors, &mut self.vectors);
        let mut words: Vec<TextRow> = Vec::new();
        std::mem::swap(&mut words, &mut self.words);
        let node_count: usize = nodes.len();
        let edge_count: usize = edges.len();
        let parked_count: usize = self.parked.len();
        let ghost keep_edge = |e: EdgeView|
            !is_derived(v.nodes, e.src) && !is_derived(v.nodes, e.dst);
        proof {
            crate::seqs::lemma_kept_same(
                v.edges,
                |e: EdgeView| !texts(gone@).contains(e.src) && !texts(gone@).contains(e.dst),
                keep_edge,
            );
            lemma_kept_members(v.edges, keep_edge);
            lemma_kept_views(
                vectors@,
                |t: VectorRow| !texts(gone@).contains(super::Keyed::key(t)),
                |x: VectorView| !is_derived(v.nodes, x.node_id),
            );
            lemma_kept_views(
                words@,
                |t: TextRow| !texts(gone@).contains(super::Keyed::key(t)),
                |x: TextView| !is_derived(v.nodes, x.node_id),
            );
        }
        self.nodes = only_conversations(nodes);
        self.edges = edges_without(edges, &gone);
        self.vectors = without(vectors, &gone);
        self.words = without(words, &gone);
        self.parked = Vec::new();
        assert(views(self.parked@) =~= Seq::<ParkedView>::empty());
        assert(views(self.nodes@).len() == self.nodes@.len());
        assert(views(self.edges@).len() == self.edges@.len());
        assert(self.edges@.len() <= edge_count);
        (node_count - self.nodes.len(), edge_count - self.edges.len(), parked_count)
    }
}

/// Does as much anew as the scope says.
pub fn rebuild_knowledge_graph(
    store: &mut Store,
    rows: &mut Vec<ExtractionRow>,
    scope: KgRebuildScope,
) -> (r: KgRebuildResult)
    requires
        old(rows)@.len() + old(store).nodes@.len() <= i64::MAX,
        old(store).edges@.len() <= i64::MAX,
        old(store).parked@.len() <= i64::MAX,
    ensures
        match scope {
            KgRebuildScope::Refresh => {
                &&& final(store)@ == old(store)@
                &&& views(final(rows)@) == changed(
                    views(old(rows)@),
                    with_status(left_behind()),
                    |r: ExtractionView| requeued(r),
                )
                &&& r.scope@ == "refresh"@
                &&& r.derived_nodes_deleted == 0
                &&& r.edges_deleted == 0
                &&& r.parked_deleted == 0
                &&& r.conversations_requeued == kept(
                    views(old(rows)@),
                    with_status(left_behind()),
                ).len()
            },
            KgRebuildScope::RebuildAll => {
                &&& final(store)@ == wiped(old(store)@)
                &&& views(final(rows)@) == changed(
                    views(old(rows)@),
                    every_row(),
                    |r: ExtractionView| restarted(r),
                ) + missing_rows(wiped(old(store)@).nodes, views(old(rows)@))
                &&& r.scope@ == "rebuild_all"@
                &&& r.derived_nodes_deleted == old(store)@.nodes.len() - wiped(
                    old(store)@,
                ).nodes.len()
                &&& r.edges_deleted == old(store)@.edges.len() - wiped(old(store)@).edges.len()
                &&& r.parked_deleted == old(store)@.parked.len()
                &&& r.conversations_requeued == views(final(rows)@).len()
            },
        },
{
    match scope {
        KgRebuildScope::Refresh => {
            let requeued: i64 = requeue_left_behind(rows);
            KgRebuildResult {
                scope: "refresh",
                derived_nodes_deleted: 0,
                edges_deleted: 0,
                parked_deleted: 0,
                conversations_requeued: requeued,
            }
        },
        KgRebuildScope::RebuildAll => {
            let ghost v = store@;
            let (nodes, edges, parked) = store.wipe_derived();
            proof {
                lemma_kept_members(v.nodes, |n: NodeView| n.kind == "conversation"@);
                assert(views(store.nodes@).len() == store.nodes@.len());
            }
            let requeued: i64 = requeue_everything(rows, &store.nodes);
            KgRebuildResult {
                scope: "rebuild_all",
                derived_nodes_deleted: nodes as i64,
                edges_deleted: edges as i64,
                parked_deleted: parked as i64,
                conversations_requeued: requeued,
            }
        },
    }
}

// Laws -------------------------------------------------------------------

/// Wiping keeps every conversation, and nothing else: the store stays sound,
/// every node that is left is a conversation, and none of them is lost.
pub proof fn wiping_keeps_the_conversations(v: StoreView)
    requires
        sound(v),
    ensures
        sound(wiped(v)),
        forall|i: int|
            0 <= i < wiped(v).nodes.len() ==> (#[trigger] wiped(v).nodes[i]).kind
                == "conversation"@,
        forall|i: int|
            0 <= i < v.nodes.len() && (#[trigger] v.nodes[i]).kind == "conversation"@
                ==> wiped(v).nodes.contains(v.nodes[i]),
{
    let w = wiped(v);
    let keep_node = |n: NodeView| n.kind == "conversation"@;
    let keep_edge = |e: EdgeView| !is_derived(v.nodes, e.src) && !is_derived(v.nodes, e.dst);
    let keep_vector = |x: VectorView| !is_derived(v.nodes, x.node_id);
    let keep_words = |x: TextView| !is_derived(v.nodes, x.node_id);
    lemma_kept_distinct(v.nodes, keep_node, |n: NodeView| n.id);
    lemma_kept_distinct(v.edges, keep_edge, |e: EdgeView| edge_key(e));
    lemma_kept_members(v.nodes, keep_node);
    lemma_kept_members(v.edges, keep_edge);
    lemma_kept_members(v.vectors, keep_vector);
    lemma_kept_members(v.words, keep_words);
    assert forall|id: Seq<char>|
        has_node(v.nodes, id) && !is_derived(v.nodes, id) implies #[trigger] has_node(
        w.nodes,
        id,
    ) by {
        let i = choose|i: int| 0 <= i < v.nodes.len() && (#[trigger] v.nodes[i]).id == id;
        assert(v.nodes.contains(v.nodes[i]));
        assert(keep_node(v.nodes[i]));
        assert(w.nodes.contains(v.nodes[i]));
        let k = choose|k: int| 0 <= k < w.nodes.len() && w.nodes[k] == v.nodes[i];
        assert(w.nodes[k].id == id);
    }
    assert forall|i: int| 0 <= i < w.edges.len() implies has_node(
        w.nodes,
        (#[trigger] w.edges[i]).src,
    ) && has_node(w.nodes, w.edges[i].dst) by {
        let e = w.edges[i];
        assert(w.edges.contains(e));
        assert(keep_edge(e));
        let k = choose|k: int| 0 <= k < v.edges.len() && v.edges[k] == e;
        assert(has_node(v.nodes, v.edges[k].src));
    }
    assert forall|i: int| 0 <= i < w.vectors.len() implies has_node(
        w.nodes,
        (#[trigger] w.vectors[i]).node_id,
    ) by {
        let x = w.vectors[i];
        assert(w.vectors.contains(x));
        assert(keep_vector(x));
        let k = choose|k: int| 0 <= k < v.vectors.len() && v.vectors[k] == x;
        assert(has_node(v.nodes, v.vectors[k].node_id));
    }
    assert forall|i: int| 0 <= i < w.words.len() implies has_node(
        w.nodes,
        (#[trigger] w.words[i]).node_id,
    ) by {
        let x = w.words[i];
        assert(w.words.contains(x));
        assert(keep_words(x));
        let k = choose|k: int| 0 <= k < v.words.len() && v.words[k] == x;
        assert(has_node(v.nodes, v.words[k].node_id));
    }
    assert forall|i: int| 0 <= i < w.nodes.len() implies (#[trigger] w.nodes[i]).kind
        == "conversation"@ by {
        assert(w.nodes.contains(w.nodes[i]));
        assert(keep_node(w.nodes[i]));
    }
    assert forall|i: int|
        0 <= i < v.nodes.len() && (#[trigger] v.nodes[i]).kind
            == "conversation"@ implies w.nodes.contains(v.nodes[i]) by {
        assert(v.nodes.contains(v.nodes[i]));
        assert(keep_node(v.nodes[i]));
    }
}

/// Wiping leaves exactly the conversations, the edges between nodes none of which is
/// anything else, what finds no other node, and nothing parked.
pub proof fn wiping_leaves_conversations_alone(v: StoreView)
    ensures
        ({
            let other = |id: Seq<char>|
                exists|i: int|
                    0 <= i < v.nodes.len() && (#[trigger] v.nodes[i]).id == id && v.nodes[i].kind
                        != "conversation"@;
            let w = wiped(v);
            &&& w.nodes == v.nodes.filter(|n: NodeView| n.kind == "conversation"@)
            &&& w.edges == v.edges.filter(|e: EdgeView| !other(e.src) && !other(e.dst))
            &&& w.vectors == v.vectors.filter(|x: VectorView| !other(x.node_id))
            &&& w.words == v.words.filter(|x: TextView| !other(x.node_id))
            &&& w.parked.len() == 0 && w.next_parked == v.next_parked
        }),
{
    let other = |id: Seq<char>|
        exists|i: int|
            0 <= i < v.nodes.len() && (#[trigger] v.nodes[i]).id == id && v.nodes[i].kind
                != "conversation"@;
    assert forall|id: Seq<char>| #[trigger] other(id) == is_derived(v.nodes, id) by {}
    crate::seqs::keeping_is_filtering(v.nodes, |n: NodeView| n.kind == "conversation"@);
    let e1 = |e: EdgeView| !is_derived(v.nodes, e.src) && !is_derived(v.nodes, e.dst);
    let e2 = |e: EdgeView| !other(e.src) && !other(e.dst);
    crate::seqs::lemma_kept_same(v.edges, e1, e2);
    crate::seqs::keeping_is_filtering(v.edges, e2);
    let x1 = |x: VectorView| !is_derived(v.nodes, x.node_id);
    let x2 = |x: VectorView| !other(x.node_id);
    crate::seqs::lemma_kept_same(v.vectors, x1, x2);
    crate::seqs::keeping_is_filtering(v.vectors, x2);
    let t1 = |x: TextView| !is_derived(v.nodes, x.node_id);
    let t2 = |x: TextView| !other(x.node_id);
    crate::seqs::lemma_kept_same(v.words, t1, t2);
    crate::seqs::keeping_is_filtering(v.words, t2);
}

} // verus!
