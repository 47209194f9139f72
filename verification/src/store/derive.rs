//! What an extraction does to the graph.

use super::edges::{find_again, find_first, first_props, props_again};
use super::{
    edge_key, has_node, is_conversation, lemma_kept_views, lemma_views_push, sound, views, without,
    EdgeRow, EdgeView, NodeRow, NodeView, ParkedRow, ParkedView, Store, StoreView, TextRow,
    TextView, VectorRow, VectorView,
};
use crate::ingest::naming::{
    canonical_edge_type, derivation, edge_type, is_derivation, is_parked, parked, tier, tier_for,
};
use crate::ingest::proposal::{Decision, DecisionView, Proposed, ProposedView};
use crate::json::{
    decimal_number, json_double, json_texts, text_array, Json, JsonTree, ObjectBuilder,
};
use crate::seqs::{distinct_by, kept, lemma_kept_step};
use crate::text::{contains_text, same, texts};
use vstd::prelude::*;

verus! {

// Clearing ---------------------------------------------------------------

/// Whether the edge was derived from the conversation.
pub open spec fn derived_from(e: EdgeView, conversation: Seq<char>) -> bool {
    e.src == conversation && is_derivation(e.kind)
}

/// Whether the edge has the node at one of its ends.
pub open spec fn touches(e: EdgeView, id: Seq<char>) -> bool {
    e.src == id || e.dst == id
}

/// Whether one of the edges has the node at one of its ends.
pub open spec fn linked(edges: Seq<EdgeView>, id: Seq<char>) -> bool {
    exists|i: int| 0 <= i < edges.len() && touches(#[trigger] edges[i], id)
}

/// Whether an edge leads from the conversation to the node and was derived from
/// it.
pub open spec fn derives(edges: Seq<EdgeView>, conversation: Seq<char>, id: Seq<char>) -> bool {
    exists|i: int|
        0 <= i < edges.len() && derived_from(#[trigger] edges[i], conversation) && edges[i].dst
            == id
}

/// The edges that were not derived from the conversation.
pub open spec fn other_edges(v: StoreView, conversation: Seq<char>) -> Seq<EdgeView> {
    kept(v.edges, |e: EdgeView| !derived_from(e, conversation))
}

/// Whether the node goes with what was derived from the conversation: it was
/// linked from it, nothing else links it, it is no conversation, and it is not to
/// be spared.
pub open spec fn dropped(
    v: StoreView,
    conversation: Seq<char>,
    spared: Seq<Seq<char>>,
    id: Seq<char>,
) -> bool {
    derives(v.edges, conversation, id) && !linked(other_edges(v, conversation), id)
        && !is_conversation(v.nodes, id) && !spared.contains(id)
}

/// The store without what was derived from the conversation, but with the nodes
/// that are to be spared.
pub open spec fn cleared(v: StoreView, conversation: Seq<char>, spared: Seq<Seq<char>>) -> StoreView {
    StoreView {
        nodes: kept(v.nodes, |n: NodeView| !dropped(v, conversation, spared, n.id)),
        edges: other_edges(v, conversation),
        parked: kept(v.parked, |p: ParkedView| p.conversation_id != conversation),
        vectors: kept(v.vectors, |x: VectorView| !dropped(v, conversation, spared, x.node_id)),
        words: kept(v.words, |x: TextView| !dropped(v, conversation, spared, x.node_id)),
        next_parked: v.next_parked,
    }
}

fn derived_edge(e: &EdgeRow, conversation: &str) -> (r: bool)
    ensures
        r == derived_from(e@, conversation@),
{
    same(e.src.as_str(), conversation) && derivation(e.kind.as_str())
}

fn any_touches(edges: &Vec<EdgeRow>, id: &str) -> (r: bool)
    ensures
        r == linked(views(edges@), id@),
{
    let mut i: usize = 0;
    while i < edges.len()
        invariant
            i <= edges@.len(),
            forall|k: int| 0 <= k < i ==> !touches(#[trigger] views(edges@)[k], id@),
        decreases edges@.len() - i,
    {
        assert(views(edges@)[i as int] == edges@[i as int]@);
        if same(edges[i].src.as_str(), id) || same(edges[i].dst.as_str(), id) {
            return true;
        }
        i = i + 1;
    }
    false
}

/// The nodes to which edges lead that were derived from the conversation.
fn derived_nodes(edges: &Vec<EdgeRow>, conversation: &str) -> (r: Vec<String>)
    ensures
        forall|id: Seq<char>| #[trigger]
            texts(r@).contains(id) <==> derives(views(edges@), conversation@, id),
{
    let ghost all = views(edges@);
    let mut out: Vec<String> = Vec::new();
    let mut i: usize = 0;
    assert(all.take(0) =~= Seq::<EdgeView>::empty());
    while i < edges.len()
        invariant
            i <= edges@.len(),
            all == views(edges@),
            forall|id: Seq<char>| #[trigger]
                texts(out@).contains(id) <==> derives(all.take(i as int), conversation@, id),
        decreases edges@.len() - i,
    {
        let ghost before = texts(out@);
        let ghost e = all[i as int];
        assert(e == edges@[i as int]@);
        if derived_edge(&edges[i], conversation) {
            let id = edges[i].dst.clone();
            proof {
                crate::text::lemma_texts_push(out@, id);
            }
            out.push(id);
        }
        proof {
            let next = all.take(i + 1);
            assert forall|id: Seq<char>| #[trigger] texts(out@).contains(id) <==> derives(
                next,
                conversation@,
                id,
            ) by {
                let old_part = all.take(i as int);
                if derives(next, conversation@, id) {
                    let k = choose|k: int|
                        0 <= k < next.len() && derived_from(#[trigger] next[k], conversation@)
                            && next[k].dst == id;
                    if k < i {
                        assert(old_part[k] == next[k]);
                        assert(derives(old_part, conversation@, id));
                        assert(before.contains(id));
                        let m = choose|m: int| 0 <= m < before.len() && before[m] == id;
                        assert(texts(out@)[m] == id);
                    } else {
                        assert(texts(out@)[before.len() as int] == id);
                    }
                }
                if texts(out@).contains(id) {
                    let m = choose|m: int| 0 <= m < texts(out@).len() && texts(out@)[m] == id;
                    if m < before.len() {
                        assert(before[m] == id);
                        assert(before.contains(id));
                        assert(derives(old_part, conversation@, id));
                        let k = choose|k: int|
                            0 <= k < old_part.len() && derived_from(
                                #[trigger] old_part[k],
                                conversation@,
                            ) && old_part[k].dst == id;
                        assert(next[k] == old_part[k]);
                    } else {
                        assert(next[i as int] == e);
                    }
                }
            }
        }
        i = i + 1;
    }
    assert(all.take(i as int) =~= all);
    out
}

/// The edges that were not derived from the conversation.
fn drop_derived(edges: Vec<EdgeRow>, conversation: &str) -> (r: Vec<EdgeRow>)
    ensures
        views(r@) == kept(views(edges@), |e: EdgeView| !derived_from(e, conversation@)),
{
    let ghost whole = edges@;
    let ghost all = views(whole);
    let ghost p = |e: EdgeView| !derived_from(e, conversation@);
    let mut out: Vec<EdgeRow> = Vec::new();
    assert(all.take(0) =~= Seq::<EdgeView>::empty());
    assert(views(out@) =~= Seq::<EdgeView>::empty());
    for row in it: edges
        invariant
            whole == it.seq(),
            all == views(whole),
            p == (|e: EdgeView| !derived_from(e, conversation@)),
            views(out@) == kept(all.take(it.index() as int), p),
    {
        proof {
            lemma_kept_step(all, p, it.index() as int);
            lemma_views_push(out@, row);
        }
        if !derived_edge(&row, conversation) {
            out.push(row);
        }
    }
    assert(all.take(whole.len() as int) =~= all);
    out
}

impl Store {
    /// Takes out what was derived from the conversation: what is parked from it,
    /// its derived edges, and the nodes that nothing else links.
    pub fn clear_conversation_derivations(&mut self, conversation_id: &str)
        ensures
            final(self)@ == cleared(old(self)@, conversation_id@, Seq::empty()),
    {
        let spared: Vec<String> = Vec::new();
        assert(texts(spared@) =~= Seq::<Seq<char>>::empty());
        self.clear_sparing(conversation_id, &spared);
    }

    /// Takes out what was derived from the conversation, but leaves the nodes that
    /// are to be spared.
    pub fn clear_sparing(&mut self, conversation_id: &str, spared: &Vec<String>)
        ensures
            final(self)@ == cleared(old(self)@, conversation_id@, texts(spared@)),
    {
        let ghost v = self@;
        let ghost conv = conversation_id@;
        let ghost sp = texts(spared@);
        let candidates = derived_nodes(&self.edges, conversation_id);
        let mut edges: Vec<EdgeRow> = Vec::new();
        std::mem::swap(&mut edges, &mut self.edges);
        let edges = drop_derived(edges, conversation_id);
        assert(views(edges@) == other_edges(v, conv));
        let mut gone: Vec<String> = Vec::new();
        let mut i: usize = 0;
        while i < candidates.len()
            invariant
                i <= candidates@.len(),
                conv == conversation_id@,
                sp == texts(spared@),
                self@.nodes == v.nodes,
                views(edges@) == other_edges(v, conv),
                forall|id: Seq<char>| #[trigger]
                    texts(candidates@).contains(id) <==> derives(v.edges, conv, id),
                forall|id: Seq<char>| #[trigger]
                    texts(gone@).contains(id) <==> texts(candidates@).take(i as int).contains(id)
                        && dropped(v, conv, sp, id),
            decreases candidates@.len() - i,
        {
            let ghost before = texts(gone@);
            let ghost c = texts(candidates@);
            let ghost id0 = candidates@[i as int]@;
            assert(c[i as int] == id0);
            assert(c.contains(id0));
            if !any_touches(&edges, candidates[i].as_str()) && !self.contains_conversation(
                candidates[i].as_str(),
            ) && !contains_text(spared, candidates[i].as_str()) {
                let id = candidates[i].clone();
                proof {
                    crate::text::lemma_texts_push(gone@, id);
                }
                gone.push(id);
                assert(texts(gone@) == before.push(id0));
            }
            proof {
                assert forall|id: Seq<char>| #[trigger] texts(gone@).contains(id) <==> c.take(
                    i + 1,
                ).contains(id) && dropped(v, conv, sp, id) by {
                    let next = c.take(i + 1);
                    if next.contains(id) && dropped(v, conv, sp, id) {
                        let k = choose|k: int| 0 <= k < next.len() && next[k] == id;
                        if k < i {
                            assert(c.take(i as int)[k] == id);
                            assert(before.contains(id));
                            let m = choose|m: int| 0 <= m < before.len() && before[m] == id;
                            assert(texts(gone@)[m] == id);
                        } else {
                            assert(texts(gone@)[before.len() as int] == id);
                        }
                    }
                    if texts(gone@).contains(id) {
                        let m = choose|m: int|
                            0 <= m < texts(gone@).len() && texts(gone@)[m] == id;
                        if m < before.len() {
                            assert(before[m] == id);
                            assert(before.contains(id));
                            let k = choose|k: int|
                                0 <= k < i && c.take(i as int)[k] == id;
                            assert(next[k] == id);
                        } else {
                            assert(next[i as int] == id);
                        }
                    }
                }
            }
            i = i + 1;
        }
        assert(texts(candidates@).take(i as int) =~= texts(candidates@));
        assert forall|id: Seq<char>| #[trigger] texts(gone@).contains(id) <==> dropped(
            v,
            conv,
            sp,
            id,
        ) by {
            assert(texts(candidates@).contains(id) <==> derives(v.edges, conv, id));
        }
        let mut nodes: Vec<NodeRow> = Vec::new();
        std::mem::swap(&mut nodes, &mut self.nodes);
        let mut parked: Vec<ParkedRow> = Vec::new();
        std::mem::swap(&mut parked, &mut self.parked);
        let mut vectors: Vec<VectorRow> = Vec::new();
        std::mem::swap(&mut vectors, &mut self.vectors);
        let mut words: Vec<TextRow> = Vec::new();
        std::mem::swap(&mut words, &mut self.words);
        let of_conversation = vec![conversation_id.to_owned()];
        proof {
            assert(texts(of_conversation@) =~= seq![conv]);
            assert forall|id: Seq<char>| #[trigger] seq![conv].contains(id) <==> id == conv by {
                assert(seq![conv][0] == conv);
            }
            lemma_kept_views(
                nodes@,
                |t: NodeRow| !texts(gone@).contains(super::Keyed::key(t)),
                |n: NodeView| !dropped(v, conv, sp, n.id),
            );
            lemma_kept_views(
                parked@,
                |t: ParkedRow| !texts(of_conversation@).contains(super::Keyed::key(t)),
                |p: ParkedView| p.conversation_id != conv,
            );
            lemma_kept_views(
                vectors@,
                |t: VectorRow| !texts(gone@).contains(super::Keyed::key(t)),
                |x: VectorView| !dropped(v, conv, sp, x.node_id),
            );
            lemma_kept_views(
                words@,
                |t: TextRow| !texts(gone@).contains(super::Keyed::key(t)),
                |x: TextView| !dropped(v, conv, sp, x.node_id),
            );
        }
        self.nodes = without(nodes, &gone);
        self.edges = edges;
        self.parked = without(parked, &of_conversation);
        self.vectors = without(vectors, &gone);
        self.words = without(words, &gone);
    }
}

// Upserting --------------------------------------------------------------

/// Why the graph cannot take something in.
#[derive(Clone, Copy, Debug, PartialEq, Eq, Structural)]
pub enum StoreError {
    /// There is no such conversation.
    NoConversation,
    /// A node with the name is there already.
    NodeExists,
    /// Something would be linked to a node that is not there.
    MissingNode,
}

impl StoreError {
    /// The error in words.
    pub fn message(&self) -> (r: &'static str)
        ensures
            r@ == match *self {
                StoreError::NoConversation => "Query returned no rows"@,
                StoreError::NodeExists => "UNIQUE constraint failed: node.id"@,
                StoreError::MissingNode => "FOREIGN KEY constraint failed"@,
            },
    {
        match self {
            StoreError::NoConversation => "Query returned no rows",
            StoreError::NodeExists => "UNIQUE constraint failed: node.id",
            StoreError::MissingNode => "FOREIGN KEY constraint failed",
        }
    }
}

/// The properties of a new node.
pub open spec fn node_props(p: ProposedView, approved: bool) -> JsonTree {
    JsonTree::Object(
        seq![
            ("approved"@, JsonTree::Bool(approved)),
            ("confidence"@, decimal_number(p.confidence)),
            ("description"@, JsonTree::Str(described(p))),
            ("message_ids"@, text_array(p.message_ids)),
            ("tier"@, JsonTree::Str(if approved { "solid"@ } else { tier(p.confidence) })),
        ],
    )
}

/// The description of a proposal, or nothing.
pub open spec fn described(p: ProposedView) -> Seq<char> {
    match p.description {
        Some(d) => d,
        None => Seq::empty(),
    }
}

/// Whether one of the edges has the key.
pub open spec fn has_edge(
    edges: Seq<EdgeView>,
    key: (Seq<char>, Seq<char>, Seq<char>),
) -> bool {
    exists|i: int| 0 <= i < edges.len() && edge_key(#[trigger] edges[i]) == key
}

/// The edge once it was found again.
pub open spec fn found_again(e: EdgeView, ids: Seq<Seq<char>>) -> EdgeView {
    EdgeView { props: props_again(e.props, ids), ..e }
}

/// The edges once the link was found: a new one, or one more time the old one.
pub open spec fn linked_edges(
    edges: Seq<EdgeView>,
    src: Seq<char>,
    dst: Seq<char>,
    kind: Seq<char>,
    ids: Seq<Seq<char>>,
) -> Seq<EdgeView> {
    if has_edge(edges, (src, dst, kind)) {
        edges.map_values(
            |e: EdgeView|
                if edge_key(e) == (src, dst, kind) {
                    found_again(e, ids)
                } else {
                    e
                },
        )
    } else {
        edges.push(EdgeView { src, dst, kind, props: first_props(ids) })
    }
}

/// The nodes with the time of the last change set on the named one.
pub open spec fn touched_nodes(nodes: Seq<NodeView>, id: Seq<char>, now: Seq<char>) -> Seq<
    NodeView,
> {
    nodes.map_values(
        |n: NodeView|
            if n.id == id {
                NodeView { updated: now, ..n }
            } else {
                n
            },
    )
}

/// Whether a decision parks its proposal.
pub open spec fn parks(d: DecisionView, force_insert: bool) -> bool {
    !force_insert && is_parked(d.proposal.confidence)
}

/// The node that a decision links.
pub open spec fn target(d: DecisionView, new_id: Seq<char>) -> Seq<char> {
    match d.merge_into {
        Some(id) => id,
        None => new_id,
    }
}

/// Why a decision cannot be carried out, if it cannot.
pub open spec fn upsert_error(
    v: StoreView,
    conversation: Seq<char>,
    d: DecisionView,
    new_id: Seq<char>,
    force_insert: bool,
) -> Option<StoreError> {
    if parks(d, force_insert) {
        if has_node(v.nodes, conversation) {
            None
        } else {
            Some(StoreError::MissingNode)
        }
    } else {
        match d.merge_into {
            None => if has_node(v.nodes, new_id) {
                Some(StoreError::NodeExists)
            } else if has_node(v.nodes, conversation) || conversation == new_id {
                None
            } else {
                Some(StoreError::MissingNode)
            },
            Some(id) => if has_node(v.nodes, conversation) && has_node(v.nodes, id) {
                None
            } else {
                Some(StoreError::MissingNode)
            },
        }
    }
}

/// The store once a decision is carried out.
pub open spec fn upserted(
    v: StoreView,
    conversation: Seq<char>,
    d: DecisionView,
    new_id: Seq<char>,
    now: Seq<char>,
    force_insert: bool,
    approved: bool,
) -> StoreView {
    let p = d.proposal;
    if parks(d, force_insert) {
        StoreView {
            parked: v.parked.push(
                ParkedView {
                    id: v.next_parked,
                    conversation_id: conversation,
                    kind: p.kind,
                    payload: p.raw,
                    confidence: p.confidence,
                    created_at: now,
                },
            ),
            next_parked: (v.next_parked + 1) as u64,
            ..v
        }
    } else {
        let edges = linked_edges(
            v.edges,
            conversation,
            target(d, new_id),
            edge_type(p.kind),
            p.message_ids,
        );
        match d.merge_into {
            Some(id) => StoreView { nodes: touched_nodes(v.nodes, id, now), edges, ..v },
            None => StoreView {
                nodes: v.nodes.push(
                    NodeView {
                        id: new_id,
                        kind: p.kind,
                        name: p.name,
                        props: node_props(p, approved),
                        created: now,
                        updated: now,
                    },
                ),
                edges,
                vectors: match d.embedding {
                    Some(e) => v.vectors.push(VectorView { node_id: new_id, embedding: e }),
                    None => v.vectors,
                },
                words: v.words.push(
                    TextView { node_id: new_id, name: p.name, description: described(p) },
                ),
                ..v
            },
        }
    }
}

fn new_node_props(p: &Proposed, approved: bool) -> (r: Json)
    ensures
        r@ == node_props(p@, approved),
{
    let description = match &p.description {
        Some(d) => d.as_str(),
        None => "",
    };
    proof {
        reveal_strlit("");
        assert(described(p@) =~= description@);
    }
    let mut b = ObjectBuilder::new();
    b.entry("approved", Json::Bool(approved));
    b.entry("confidence", json_double(p.confidence));
    b.entry("description", Json::text(description));
    b.entry("message_ids", json_texts(&p.message_ids));
    b.entry(
        "tier",
        if approved {
            Json::text("solid")
        } else {
            Json::text(tier_for(p.confidence))
        },
    );
    let r = b.finish();
    assert(r@->Object_0 =~= node_props(p@, approved)->Object_0);
    r
}

/// Counts the link among the edges.
fn link(edges: &mut Vec<EdgeRow>, src: &str, dst: &str, kind: &str, ids: &Vec<String>)
    requires
        distinct_by(views(old(edges)@), |e: EdgeView| edge_key(e)),
    ensures
        views(final(edges)@) == linked_edges(views(old(edges)@), src@, dst@, kind@, texts(ids@)),
{
    let ghost before = views(edges@);
    let ghost key = (src@, dst@, kind@);
    let mut i: usize = 0;
    while i < edges.len()
        invariant
            i <= edges@.len(),
            before == views(edges@),
            key == (src@, dst@, kind@),
            distinct_by(before, |e: EdgeView| edge_key(e)),
            before == views(old(edges)@),
            forall|k: int| 0 <= k < i ==> edge_key(#[trigger] before[k]) != key,
        decreases edges@.len() - i,
    {
        assert(before[i as int] == edges@[i as int]@);
        if same(edges[i].src.as_str(), src) && same(edges[i].dst.as_str(), dst) && same(
            edges[i].kind.as_str(),
            kind,
        ) {
            let row = EdgeRow {
                src: edges[i].src.clone(),
                dst: edges[i].dst.clone(),
                kind: edges[i].kind.clone(),
                props: find_again(&edges[i].props, ids),
            };
            assert(row@ == found_again(before[i as int], texts(ids@)));
            edges.set(i, row);
            proof {
                assert(edge_key(before[i as int]) == key);
                assert(has_edge(before, key));
                assert forall|k: int| 0 <= k < before.len() && k != i implies edge_key(
                    #[trigger] before[k],
                ) != key by {
                    let f = |e: EdgeView| edge_key(e);
                    if k < i {
                        assert(f(before[k]) != f(before[i as int]));
                    } else {
                        assert(f(before[i as int]) != f(before[k]));
                    }
                }
                assert(views(edges@) =~= linked_edges(before, src@, dst@, kind@, texts(ids@)));
            }
            return;
        }
        i = i + 1;
    }
    assert(!has_edge(before, key));
    let row = EdgeRow {
        src: src.to_owned(),
        dst: dst.to_owned(),
        kind: kind.to_owned(),
        props: find_first(ids),
    };
    proof {
        lemma_views_push(edges@, row);
    }
    edges.push(row);
}

/// Sets the time of the last change on the named node.
fn touch(nodes: &mut Vec<NodeRow>, id: &str, now: &str)
    ensures
        views(final(nodes)@) == touched_nodes(views(old(nodes)@), id@, now@),
{
    let ghost before = views(nodes@);
    let mut i: usize = 0;
    while i < nodes.len()
        invariant
            i <= nodes@.len(),
            nodes@.len() == before.len(),
            forall|k: int|
                0 <= k < i ==> (#[trigger] views(nodes@)[k]) == touched_nodes(
                    before,
                    id@,
                    now@,
                )[k],
            forall|k: int| i <= k < before.len() ==> (#[trigger] views(nodes@)[k]) == before[k],
        decreases nodes@.len() - i,
    {
        let ghost start = views(nodes@);
        assert(start[i as int] == nodes@[i as int]@);
        if same(nodes[i].id.as_str(), id) {
            let row = NodeRow {
                id: nodes[i].id.clone(),
                kind: nodes[i].kind.clone(),
                name: nodes[i].name.clone(),
                props: nodes[i].props.copy(),
                created: nodes[i].created.clone(),
                updated: now.to_owned(),
            };
            nodes.set(i, row);
            assert(views(nodes@) =~= start.update(i as int, row@));
        }
        i = i + 1;
    }
    assert(views(nodes@) =~= touched_nodes(before, id@, now@));
}

impl Store {
    /// Sets the time of the last change on the named node.
    pub fn touch_node(&mut self, id: &str, now: &str)
        ensures
            final(self)@ == (StoreView {
                nodes: touched_nodes(old(self)@.nodes, id@, now@),
                ..old(self)@
            }),
    {
        touch(&mut self.nodes, id, now);
    }

    /// Carries a decision about something found in the conversation out. A new
    /// node gets the name `new_id`. What cannot be carried out changes nothing.
    pub fn upsert_decision_as(
        &mut self,
        conversation_id: &str,
        decision: Decision,
        new_id: &str,
        now: &str,
        force_insert: bool,
        approved_by_user: bool,
    ) -> (r: Result<(), StoreError>)
        requires
            sound(old(self)@),
            old(self).next_parked < u64::MAX,
        ensures
            match r {
                Ok(_) => upsert_error(
                    old(self)@,
                    conversation_id@,
                    decision@,
                    new_id@,
                    force_insert,
                ) is None && final(self)@ == upserted(
                    old(self)@,
                    conversation_id@,
                    decision@,
                    new_id@,
                    now@,
                    force_insert,
                    approved_by_user,
                ),
                Err(e) => upsert_error(
                    old(self)@,
                    conversation_id@,
                    decision@,
                    new_id@,
                    force_insert,
                ) == Some(e) && final(self)@ == old(self)@,
            },
    {
        let ghost v = self@;
        let ghost d = decision@;
        if !force_insert && parked(decision.proposal.confidence) {
            if !self.contains_node(conversation_id) {
                return Err(StoreError::MissingNode);
            }
            let row = ParkedRow {
                id: self.next_parked,
                conversation_id: conversation_id.to_owned(),
                kind: decision.proposal.kind,
                payload: decision.proposal.raw,
                confidence: decision.proposal.confidence,
                created_at: now.to_owned(),
            };
            proof {
                lemma_views_push(self.parked@, row);
            }
            self.parked.push(row);
            self.next_parked = self.next_parked + 1;
            return Ok(());
        }
        let kind = canonical_edge_type(decision.proposal.kind.as_str());
        match decision.merge_into {
            Some(id) => {
                if !self.contains_node(conversation_id) || !self.contains_node(id.as_str()) {
                    return Err(StoreError::MissingNode);
                }
                touch(&mut self.nodes, id.as_str(), now);
                link(
                    &mut self.edges,
                    conversation_id,
                    id.as_str(),
                    kind,
                    &decision.proposal.message_ids,
                );
            },
            None => {
                if self.contains_node(new_id) {
                    return Err(StoreError::NodeExists);
                }
                if !self.contains_node(conversation_id) && !same(conversation_id, new_id) {
                    return Err(StoreError::MissingNode);
                }
                let props = new_node_props(&decision.proposal, approved_by_user);
                let node = NodeRow {
                    id: new_id.to_owned(),
                    kind: decision.proposal.kind.clone(),
                    name: decision.proposal.name.clone(),
                    props,
                    created: now.to_owned(),
                    updated: now.to_owned(),
                };
                proof {
                    lemma_views_push(self.nodes@, node);
                }
                self.nodes.push(node);
                match decision.embedding {
                    Some(e) => {
                        let row = VectorRow { node_id: new_id.to_owned(), embedding: e };
                        proof {
                            lemma_views_push(self.vectors@, row);
                        }
                        self.vectors.push(row);
                    },
                    None => {},
                }
                let description = match &decision.proposal.description {
                    Some(x) => x.clone(),
                    None => String::new(),
                };
                let entry = TextRow {
                    node_id: new_id.to_owned(),
                    name: decision.proposal.name.clone(),
                    description,
                };
                proof {
                    assert(entry.description@ =~= described(d.proposal));
                    lemma_views_push(self.words@, entry);
                }
                self.words.push(entry);
                link(
                    &mut self.edges,
                    conversation_id,
                    new_id,
                    kind,
                    &decision.proposal.message_ids,
                );
            },
        }
        Ok(())
    }
}

} // verus!
