//! What clearing, deciding and extracting leave in the rows of the store.

use super::derive::{
    cleared, dropped, linked, other_edges, touched_nodes, touches, upsert_error, upserted,
};
use super::extract::{
    carried_out, comes_from, decided_key, extracted, extraction_replaces_what_was_derived,
    merge_targets, parked_with, unparked,
};
use super::{
    edge_key, has_node, is_conversation, sound, EdgeView, NodeView, ParkedView, StoreView, TextView,
    VectorView,
};
use crate::double::Double;
use crate::ingest::proposal::DecisionView;
use crate::seqs::{keeping_is_filtering, kept, lemma_kept_members};
use vstd::prelude::*;

verus! {

// Clearing ---------------------------------------------------------------

/// Clearing takes exactly the edges by which topics, entities, concepts and patterns
/// were linked from the conversation, and what was parked from it, and leaves the
/// others in their order.
pub proof fn clearing_takes_every_finding(
    v: StoreView,
    conversation: Seq<char>,
    spared: Seq<Seq<char>>,
)
    ensures
        cleared(v, conversation, spared).edges == v.edges.filter(
            |e: EdgeView|
                e.src != conversation || (e.kind != "belongs_to"@ && e.kind != "mentions"@ && e.kind
                    != "discusses"@ && e.kind != "uses_pattern"@),
        ),
        cleared(v, conversation, spared).parked == v.parked.filter(
            |p: ParkedView| p.conversation_id != conversation,
        ),
        cleared(v, conversation, spared).next_parked == v.next_parked,
{
    let p = |e: EdgeView| !super::derive::derived_from(e, conversation);
    let q = |e: EdgeView|
        e.src != conversation || (e.kind != "belongs_to"@ && e.kind != "mentions"@ && e.kind
            != "discusses"@ && e.kind != "uses_pattern"@);
    crate::seqs::lemma_kept_same(v.edges, p, q);
    keeping_is_filtering(v.edges, q);
    keeping_is_filtering(v.parked, |p: ParkedView| p.conversation_id != conversation);
}

/// Clearing takes a node, with all that finds it, exactly if the conversation alone
/// led to it: a finding of the conversation is linked to it, no edge holds it that
/// is not such a link, it is no conversation, and it is not to be spared.
pub proof fn clearing_takes_what_nothing_else_holds(
    v: StoreView,
    conversation: Seq<char>,
    spared: Seq<Seq<char>>,
)
    ensures
        ({
            let w = cleared(v, conversation, spared);
            let finding = |e: EdgeView|
                e.src == conversation && (e.kind == "belongs_to"@ || e.kind == "mentions"@ || e.kind
                    == "discusses"@ || e.kind == "uses_pattern"@);
            let goes = |id: Seq<char>|
                {
                    &&& exists|i: int|
                        0 <= i < v.edges.len() && finding(#[trigger] v.edges[i]) && v.edges[i].dst
                            == id
                    &&& forall|i: int|
                        0 <= i < v.edges.len() && ((#[trigger] v.edges[i]).src == id
                            || v.edges[i].dst == id) ==> finding(v.edges[i])
                    &&& forall|i: int|
                        0 <= i < v.nodes.len() && (#[trigger] v.nodes[i]).id == id
                            ==> v.nodes[i].kind != "conversation"@
                    &&& forall|i: int| 0 <= i < spared.len() ==> #[trigger] spared[i] != id
                };
            &&& w.nodes == v.nodes.filter(|n: NodeView| !goes(n.id))
            &&& w.vectors == v.vectors.filter(|x: VectorView| !goes(x.node_id))
            &&& w.words == v.words.filter(|x: TextView| !goes(x.node_id))
        }),
{
    let finding = |e: EdgeView|
        e.src == conversation && (e.kind == "belongs_to"@ || e.kind == "mentions"@ || e.kind
            == "discusses"@ || e.kind == "uses_pattern"@);
    let goes = |id: Seq<char>|
        {
            &&& exists|i: int|
                0 <= i < v.edges.len() && finding(#[trigger] v.edges[i]) && v.edges[i].dst == id
            &&& forall|i: int|
                0 <= i < v.edges.len() && ((#[trigger] v.edges[i]).src == id || v.edges[i].dst == id)
                    ==> finding(v.edges[i])
            &&& forall|i: int|
                0 <= i < v.nodes.len() && (#[trigger] v.nodes[i]).id == id ==> v.nodes[i].kind
                    != "conversation"@
            &&& forall|i: int| 0 <= i < spared.len() ==> #[trigger] spared[i] != id
        };
    assert forall|id: Seq<char>| #[trigger] goes(id) == dropped(v, conversation, spared, id) by {
        let rest = other_edges(v, conversation);
        let keep = |e: EdgeView| !super::derive::derived_from(e, conversation);
        lemma_kept_members(v.edges, keep);
        if dropped(v, conversation, spared, id) {
            assert forall|i: int|
                0 <= i < v.edges.len() && ((#[trigger] v.edges[i]).src == id || v.edges[i].dst
                    == id) implies finding(v.edges[i]) by {
                if !finding(v.edges[i]) {
                    assert(v.edges.contains(v.edges[i]));
                    assert(keep(v.edges[i]));
                    assert(rest.contains(v.edges[i]));
                    let k = choose|k: int| 0 <= k < rest.len() && rest[k] == v.edges[i];
                    assert(touches(rest[k], id));
                    assert(linked(rest, id));
                }
            }
            assert forall|i: int| 0 <= i < spared.len() implies #[trigger] spared[i] != id by {
                assert(spared.contains(spared[i]));
            }
            let i = choose|i: int|
                0 <= i < v.edges.len() && super::derive::derived_from(
                    #[trigger] v.edges[i],
                    conversation,
                ) && v.edges[i].dst == id;
            assert(finding(v.edges[i]));
        }
        if goes(id) {
            let i = choose|i: int|
                0 <= i < v.edges.len() && finding(#[trigger] v.edges[i]) && v.edges[i].dst == id;
            assert(super::derive::derived_from(v.edges[i], conversation));
            if linked(rest, id) {
                let k = choose|k: int| 0 <= k < rest.len() && touches(#[trigger] rest[k], id);
                assert(rest.contains(rest[k]));
                assert(keep(rest[k]));
                let m = choose|m: int| 0 <= m < v.edges.len() && v.edges[m] == rest[k];
                assert(finding(v.edges[m]));
            }
        }
    }
    crate::seqs::lemma_kept_same(
        v.nodes,
        |n: NodeView| !dropped(v, conversation, spared, n.id),
        |n: NodeView| !goes(n.id),
    );
    crate::seqs::lemma_kept_same(
        v.vectors,
        |x: VectorView| !dropped(v, conversation, spared, x.node_id),
        |x: VectorView| !goes(x.node_id),
    );
    crate::seqs::lemma_kept_same(
        v.words,
        |x: TextView| !dropped(v, conversation, spared, x.node_id),
        |x: TextView| !goes(x.node_id),
    );
    keeping_is_filtering(v.nodes, |n: NodeView| !goes(n.id));
    keeping_is_filtering(v.vectors, |x: VectorView| !goes(x.node_id));
    keeping_is_filtering(v.words, |x: TextView| !goes(x.node_id));
}

// Deciding ---------------------------------------------------------------

/// What is found with less confidence than 0.60 is parked, as it was told, and
/// nothing else changes, unless it is to be taken in whatever its confidence.
pub proof fn doubtful_findings_are_parked(
    v: StoreView,
    conversation: Seq<char>,
    d: DecisionView,
    new_id: Seq<char>,
    now: Seq<char>,
    approved: bool,
)
    requires
        d.proposal.confidence.below(Double { bits: 0x3FE3_3333_3333_3333 }),
        v.next_parked < u64::MAX,
    ensures
        upserted(v, conversation, d, new_id, now, false, approved) == (StoreView {
            parked: v.parked.push(
                ParkedView {
                    id: v.next_parked,
                    conversation_id: conversation,
                    kind: d.proposal.kind,
                    payload: d.proposal.raw,
                    confidence: d.proposal.confidence,
                    created_at: now,
                },
            ),
            next_parked: (v.next_parked + 1) as u64,
            ..v
        }),
{
}

/// What is certain enough, or is to be taken in anyway, is linked from the
/// conversation: a topic by `belongs_to`, an entity by `mentions`, a concept by
/// `discusses`, a pattern by `uses_pattern`, anything else by `relates_to`. No other
/// edge changes, and nothing is parked or unparked.
pub proof fn certain_findings_are_linked(
    v: StoreView,
    conversation: Seq<char>,
    d: DecisionView,
    new_id: Seq<char>,
    now: Seq<char>,
    force_insert: bool,
    approved: bool,
)
    requires
        force_insert || !d.proposal.confidence.below(Double { bits: 0x3FE3_3333_3333_3333 }),
    ensures
        ({
            let w = upserted(v, conversation, d, new_id, now, force_insert, approved);
            let to = if d.merge_into is Some {
                d.merge_into->0
            } else {
                new_id
            };
            let k = d.proposal.kind;
            let fits = |t: Seq<char>|
                {
                    &&& k == "topic"@ ==> t == "belongs_to"@
                    &&& k == "entity"@ ==> t == "mentions"@
                    &&& k == "concept"@ ==> t == "discusses"@
                    &&& k == "pattern"@ ==> t == "uses_pattern"@
                    &&& k != "topic"@ && k != "entity"@ && k != "concept"@ && k != "pattern"@ ==> t
                        == "relates_to"@
                };
            let this = |e: EdgeView| e.src == conversation && e.dst == to && fits(e.kind);
            &&& exists|i: int| 0 <= i < w.edges.len() && this(#[trigger] w.edges[i])
            &&& v.edges.len() <= w.edges.len() <= v.edges.len() + 1
            &&& w.edges.len() > v.edges.len() ==> this(w.edges.last())
            &&& forall|i: int|
                0 <= i < v.edges.len() ==> {
                    &&& (#[trigger] w.edges[i]).src == v.edges[i].src
                    &&& w.edges[i].dst == v.edges[i].dst
                    &&& w.edges[i].kind == v.edges[i].kind
                    &&& !this(v.edges[i]) ==> w.edges[i] == v.edges[i]
                    &&& this(v.edges[i]) ==> w.edges.len() == v.edges.len()
                }
            &&& w.parked == v.parked && w.next_parked == v.next_parked
        }),
{
    let key = decided_key(conversation, d, new_id);
    let w = upserted(v, conversation, d, new_id, now, force_insert, approved);
    super::extract::lemma_link_step(v.edges, conversation, d, new_id);
    let i = choose|i: int| 0 <= i < w.edges.len() && edge_key(#[trigger] w.edges[i]) == key;
    assert(edge_key(w.edges[i]) == key);
    assert forall|i: int| 0 <= i < v.edges.len() implies edge_key(#[trigger] w.edges[i])
        == edge_key(v.edges[i]) && (edge_key(v.edges[i]) != key ==> w.edges[i] == v.edges[i]) && (
    edge_key(v.edges[i]) == key ==> w.edges.len() == v.edges.len()) by {
        if edge_key(v.edges[i]) == key {
            assert(super::derive::has_edge(v.edges, key));
        }
    }
    lemma_kinds_apart();
}

proof fn lemma_kinds_apart()
    ensures
        "topic"@ != "entity"@ && "topic"@ != "concept"@ && "topic"@ != "pattern"@,
        "entity"@ != "concept"@ && "entity"@ != "pattern"@ && "concept"@ != "pattern"@,
{
    reveal_strlit("topic");
    reveal_strlit("entity");
    reveal_strlit("concept");
    reveal_strlit("pattern");
    assert("topic"@.len() == 5 && "entity"@.len() == 6 && "concept"@.len() == 7 && "pattern"@.len()
        == 7);
    assert("concept"@[0] == 'c' && "pattern"@[0] == 'p');
}

/// What is certain enough and is no node yet becomes one, which tells what was found
/// and can be found by its words and its embedding; what is merged into a node only
/// sets when that node changed last.
pub proof fn certain_findings_have_their_node(
    v: StoreView,
    conversation: Seq<char>,
    d: DecisionView,
    new_id: Seq<char>,
    now: Seq<char>,
    force_insert: bool,
    approved: bool,
)
    requires
        force_insert || !d.proposal.confidence.below(Double { bits: 0x3FE3_3333_3333_3333 }),
    ensures
        ({
            let w = upserted(v, conversation, d, new_id, now, force_insert, approved);
            let p = d.proposal;
            let told = if p.description is Some {
                p.description->0
            } else {
                Seq::empty()
            };
            &&& d.merge_into is None ==> {
                let n = w.nodes.last();
                &&& w.nodes.len() == v.nodes.len() + 1 && w.nodes.drop_last() == v.nodes
                &&& n.id == new_id && n.kind == p.kind && n.name == p.name
                &&& n.created == now && n.updated == now
                &&& n.props.at("tier"@).as_str() == Some(
                    if approved || p.confidence.at_least(Double { bits: 0x3FEB_3333_3333_3333 }) {
                        "solid"@
                    } else {
                        "amber"@
                    },
                )
                &&& p.confidence.is_finite() ==> n.props.at("confidence"@).as_double() == Some(
                    p.confidence,
                )
                &&& n.props.at("description"@).as_str() == Some(told)
                &&& n.props.at("approved"@) == crate::json::JsonTree::Bool(approved)
                &&& n.props.at("message_ids"@) == crate::json::text_array(p.message_ids)
                &&& w.words == v.words.push(
                    TextView { node_id: new_id, name: p.name, description: told },
                )
                &&& d.embedding is None ==> w.vectors == v.vectors
                &&& d.embedding is Some ==> w.vectors == v.vectors.push(
                    VectorView { node_id: new_id, embedding: d.embedding->0 },
                )
            }
            &&& d.merge_into is Some ==> {
                &&& w.words == v.words && w.vectors == v.vectors
                &&& w.nodes.len() == v.nodes.len()
                &&& forall|i: int|
                    0 <= i < v.nodes.len() ==> {
                        let m = #[trigger] w.nodes[i];
                        &&& m == (NodeView { updated: m.updated, ..v.nodes[i] })
                        &&& m.updated == if v.nodes[i].id == d.merge_into->0 {
                            now
                        } else {
                            v.nodes[i].updated
                        }
                    }
            }
        }),
{
    let w = upserted(v, conversation, d, new_id, now, force_insert, approved);
    if d.merge_into is None {
        assert(w.nodes.drop_last() =~= v.nodes);
        lemma_props_told(d.proposal, approved);
    }
}

proof fn lemma_props_told(p: crate::ingest::proposal::ProposedView, approved: bool)
    ensures
        ({
            let props = super::derive::node_props(p, approved);
            let e = props->Object_0;
            &&& props.at("approved"@) == e[0].1
            &&& props.at("confidence"@) == e[1].1
            &&& props.at("description"@) == e[2].1
            &&& props.at("message_ids"@) == e[3].1
            &&& props.at("tier"@) == e[4].1
        }),
{
    reveal_strlit("approved");
    reveal_strlit("confidence");
    reveal_strlit("description");
    reveal_strlit("message_ids");
    reveal_strlit("tier");
    let e = super::derive::node_props(p, approved)->Object_0;
    assert("approved"@.len() == 8 && "confidence"@.len() == 10 && "description"@.len() == 11
        && "message_ids"@.len() == 11 && "tier"@.len() == 4);
    assert("description"@[0] == 'd' && "message_ids"@[0] == 'm');
    assert(e.drop_first()[0] == e[1]);
    assert(e.drop_first().drop_first()[0] == e[2]);
    assert(e.drop_first().drop_first().drop_first()[0] == e[3]);
    assert(e.drop_first().drop_first().drop_first().drop_first()[0] == e[4]);
    reveal_with_fuel(crate::json::lookup, 6);
}

// Extracting -------------------------------------------------------------

/// Whether a finding is certain enough for the graph.
spec fn certain(d: DecisionView) -> bool {
    !d.proposal.confidence.below(Double { bits: 0x3FE3_3333_3333_3333 })
}

/// What the parked items and the nodes are once the first decisions are carried out.
spec fn told_rows(
    v: StoreView,
    w: StoreView,
    conversation: Seq<char>,
    ds: Seq<DecisionView>,
    ids: Seq<Seq<char>>,
    now: Seq<char>,
    n: int,
) -> bool {
    &&& w.parked.filter(|p: ParkedView| p.conversation_id != conversation) == v.parked.filter(
        |p: ParkedView| p.conversation_id != conversation,
    )
    &&& forall|k: int|
        0 <= k < n && !certain(#[trigger] ds[k]) ==> exists|i: int|
            0 <= i < w.parked.len() && (#[trigger] w.parked[i]).conversation_id == conversation
                && w.parked[i].kind == ds[k].proposal.kind && w.parked[i].payload
                == ds[k].proposal.raw && w.parked[i].confidence == ds[k].proposal.confidence
    &&& forall|i: int|
        0 <= i < w.parked.len() && (#[trigger] w.parked[i]).conversation_id == conversation
            ==> exists|k: int|
            0 <= k < n && !certain(#[trigger] ds[k]) && w.parked[i].payload == ds[k].proposal.raw
    &&& forall|k: int|
        0 <= k < n && certain(#[trigger] ds[k]) && ds[k].merge_into is None ==> exists|i: int|
            0 <= i < w.nodes.len() && (#[trigger] w.nodes[i]).id == ids[k] && w.nodes[i].kind
                == ds[k].proposal.kind && w.nodes[i].name == ds[k].proposal.name
    &&& forall|i: int|
        0 <= i < w.nodes.len() && !has_node(v.nodes, (#[trigger] w.nodes[i]).id) ==> exists|k: int|
            0 <= k < n && certain(#[trigger] ds[k]) && ds[k].merge_into is None && ids[k]
                == w.nodes[i].id
}

proof fn lemma_told_rows(
    v: StoreView,
    conversation: Seq<char>,
    ds: Seq<DecisionView>,
    ids: Seq<Seq<char>>,
    now: Seq<char>,
    n: nat,
)
    requires
        n <= ds.len(),
        ids.len() == ds.len(),
    ensures
        carried_out(v, conversation, ds, ids, now, n) matches Ok(w) ==> told_rows(
            v,
            w,
            conversation,
            ds,
            ids,
            now,
            n as int,
        ),
    decreases n,
{
    let away = |p: ParkedView| p.conversation_id != conversation;
    if n == 0 {
        let w = cleared(v, conversation, merge_targets(ds));
        crate::seqs::lemma_kept_twice(v.parked, away, away);
        crate::seqs::lemma_kept_same(v.parked, |p: ParkedView| away(p) && away(p), away);
        keeping_is_filtering(v.parked, away);
        keeping_is_filtering(w.parked, away);
        lemma_kept_members(v.parked, away);
        assert forall|i: int| 0 <= i < w.parked.len() implies (
        #[trigger] w.parked[i]).conversation_id != conversation by {
            assert(w.parked.contains(w.parked[i]));
            assert(away(w.parked[i]));
        }
        let keep = |x: NodeView| !dropped(v, conversation, merge_targets(ds), x.id);
        lemma_kept_members(v.nodes, keep);
        assert forall|i: int| 0 <= i < w.nodes.len() implies has_node(
            v.nodes,
            (#[trigger] w.nodes[i]).id,
        ) by {
            assert(w.nodes.contains(w.nodes[i]));
            let k = choose|k: int| 0 <= k < v.nodes.len() && v.nodes[k] == w.nodes[i];
            assert(v.nodes[k].id == w.nodes[i].id);
        }
    } else {
        let m = n - 1;
        lemma_told_rows(v, conversation, ds, ids, now, m as nat);
        match carried_out(v, conversation, ds, ids, now, m as nat) {
            Err(_) => {},
            Ok(u) => {
                let d = ds[m];
                if upsert_error(u, conversation, d, ids[m], false) is None {
                    let w = upserted(u, conversation, d, ids[m], now, false, false);
                    lemma_told_step(v, u, conversation, ds, ids, now, m);
                }
            },
        }
    }
}

proof fn lemma_told_step(
    v: StoreView,
    u: StoreView,
    conversation: Seq<char>,
    ds: Seq<DecisionView>,
    ids: Seq<Seq<char>>,
    now: Seq<char>,
    m: int,
)
    requires
        0 <= m < ds.len(),
        told_rows(v, u, conversation, ds, ids, now, m),
    ensures
        told_rows(
            v,
            upserted(u, conversation, ds[m], ids[m], now, false, false),
            conversation,
            ds,
            ids,
            now,
            m + 1,
        ),
{
    let away = |p: ParkedView| p.conversation_id != conversation;
    let w = upserted(u, conversation, ds[m], ids[m], now, false, false);
    let n = m + 1;
    assert(super::derive::parks(ds[m], false) == !certain(ds[m]));
    if !certain(ds[m]) {
        assert(w.parked.drop_last() =~= u.parked);
        keeping_is_filtering(u.parked, away);
        keeping_is_filtering(w.parked, away);
        assert(w.parked[u.parked.len() as int].conversation_id == conversation);
    }
    assert forall|k: int| 0 <= k < n && !certain(#[trigger] ds[k]) implies exists|i: int|
        0 <= i < w.parked.len() && (#[trigger] w.parked[i]).conversation_id == conversation
            && w.parked[i].kind == ds[k].proposal.kind && w.parked[i].payload == ds[k].proposal.raw
            && w.parked[i].confidence == ds[k].proposal.confidence by {
        if k < m {
            let i = choose|i: int|
                0 <= i < u.parked.len() && (#[trigger] u.parked[i]).conversation_id == conversation
                    && u.parked[i].kind == ds[k].proposal.kind && u.parked[i].payload
                    == ds[k].proposal.raw && u.parked[i].confidence == ds[k].proposal.confidence;
            assert(w.parked[i] == u.parked[i]);
        } else {
            assert(w.parked[u.parked.len() as int].kind == ds[k].proposal.kind);
        }
    }
    assert forall|i: int|
        0 <= i < w.parked.len() && (#[trigger] w.parked[i]).conversation_id
            == conversation implies exists|k: int|
        0 <= k < n && !certain(#[trigger] ds[k]) && w.parked[i].payload == ds[k].proposal.raw by {
        if i < u.parked.len() {
            assert(w.parked[i] == u.parked[i]);
            let k = choose|k: int|
                0 <= k < m && !certain(#[trigger] ds[k]) && u.parked[i].payload
                    == ds[k].proposal.raw;
            assert(!certain(ds[k]));
        } else {
            assert(!certain(ds[m]));
        }
    }
    assert forall|k: int|
        0 <= k < n && certain(#[trigger] ds[k]) && ds[k].merge_into is None implies exists|i: int|
        0 <= i < w.nodes.len() && (#[trigger] w.nodes[i]).id == ids[k] && w.nodes[i].kind
            == ds[k].proposal.kind && w.nodes[i].name == ds[k].proposal.name by {
        if k < m {
            let i = choose|i: int|
                0 <= i < u.nodes.len() && (#[trigger] u.nodes[i]).id == ids[k] && u.nodes[i].kind
                    == ds[k].proposal.kind && u.nodes[i].name == ds[k].proposal.name;
            assert(w.nodes[i].id == ids[k]);
        } else {
            assert(w.nodes[u.nodes.len() as int].id == ids[k]);
        }
    }
    assert forall|i: int|
        0 <= i < w.nodes.len() && !has_node(
            v.nodes,
            (#[trigger] w.nodes[i]).id,
        ) implies exists|k: int|
        0 <= k < n && certain(#[trigger] ds[k]) && ds[k].merge_into is None && ids[k]
            == w.nodes[i].id by {
        if i < u.nodes.len() {
            assert(w.nodes[i].id == u.nodes[i].id);
            let k = choose|k: int|
                0 <= k < m && certain(#[trigger] ds[k]) && ds[k].merge_into is None && ids[k]
                    == u.nodes[i].id;
            assert(certain(ds[k]));
        } else {
            assert(certain(ds[m]));
        }
    }
}

/// Once a conversation is extracted, the edges from it to topics, entities, concepts
/// and patterns lead exactly to what the new decisions name with confidence, each by
/// the edge of its kind; whatever an earlier extraction linked besides is gone. All
/// edges of other nodes stay.
pub proof fn extractions_link_exactly_what_is_found(
    v: StoreView,
    conversation: Seq<char>,
    ds: Seq<DecisionView>,
    ids: Seq<Seq<char>>,
    now: Seq<char>,
)
    requires
        sound(v),
        ids.len() == ds.len(),
        v.next_parked + ds.len() <= u64::MAX,
    ensures
        extracted(v, conversation, ds, ids, now) matches Ok(w) ==> {
            let sure = |k: int|
                !ds[k].proposal.confidence.below(Double { bits: 0x3FE3_3333_3333_3333 });
            let to = |k: int|
                if ds[k].merge_into is Some {
                    ds[k].merge_into->0
                } else {
                    ids[k]
                };
            let pair = |kind: Seq<char>, t: Seq<char>|
                (kind == "topic"@ && t == "belongs_to"@) || (kind == "entity"@ && t
                    == "mentions"@) || (kind == "concept"@ && t == "discusses"@) || (kind
                    == "pattern"@ && t == "uses_pattern"@);
            &&& forall|i: int|
                0 <= i < w.edges.len() && (#[trigger] w.edges[i]).src == conversation && (
                w.edges[i].kind == "belongs_to"@ || w.edges[i].kind == "mentions"@
                    || w.edges[i].kind == "discusses"@ || w.edges[i].kind == "uses_pattern"@)
                    ==> exists|k: int|
                    0 <= k < ds.len() && pair((#[trigger] ds[k]).proposal.kind, w.edges[i].kind)
                        && sure(k) && to(k) == w.edges[i].dst
            &&& forall|k: int, t: Seq<char>|
                0 <= k < ds.len() && sure(k) && #[trigger] pair(ds[k].proposal.kind, t)
                    ==> exists|i: int|
                    0 <= i < w.edges.len() && (#[trigger] w.edges[i]).src == conversation
                        && w.edges[i].dst == to(k) && w.edges[i].kind == t
            &&& w.edges.filter(|e: EdgeView| e.src != conversation) == v.edges.filter(
                |e: EdgeView| e.src != conversation,
            )
        },
{
    extraction_replaces_what_was_derived(v, conversation, ds, ids, now);
    match extracted(v, conversation, ds, ids, now) {
        Err(_) => {},
        Ok(w) => {
            let sure = |k: int|
                !ds[k].proposal.confidence.below(Double { bits: 0x3FE3_3333_3333_3333 });
            let to = |k: int|
                if ds[k].merge_into is Some {
                    ds[k].merge_into->0
                } else {
                    ids[k]
                };
            let pair = |kind: Seq<char>, t: Seq<char>|
                (kind == "topic"@ && t == "belongs_to"@) || (kind == "entity"@ && t
                    == "mentions"@) || (kind == "concept"@ && t == "discusses"@) || (kind
                    == "pattern"@ && t == "uses_pattern"@);
            lemma_kinds_apart();
            lemma_types_apart();
            keeping_is_filtering(w.edges, |e: EdgeView| e.src != conversation);
            keeping_is_filtering(v.edges, |e: EdgeView| e.src != conversation);
            assert forall|i: int|
                0 <= i < w.edges.len() && (#[trigger] w.edges[i]).src == conversation && (
                w.edges[i].kind == "belongs_to"@ || w.edges[i].kind == "mentions"@
                    || w.edges[i].kind == "discusses"@ || w.edges[i].kind
                    == "uses_pattern"@) implies exists|k: int|
                0 <= k < ds.len() && pair((#[trigger] ds[k]).proposal.kind, w.edges[i].kind)
                    && sure(k) && to(k) == w.edges[i].dst by {
                assert(super::derive::derived_from(w.edges[i], conversation));
                assert(comes_from(w.edges[i], conversation, ds, ids, ds.len() as int));
                let k = choose|k: int|
                    0 <= k < ds.len() && !super::derive::parks(#[trigger] ds[k], false)
                        && edge_key(w.edges[i]) == decided_key(conversation, ds[k], ids[k]);
                assert(pair(ds[k].proposal.kind, w.edges[i].kind));
                assert(sure(k));
            }
            assert forall|k: int, t: Seq<char>|
                0 <= k < ds.len() && sure(k) && #[trigger] pair(
                    ds[k].proposal.kind,
                    t,
                ) implies exists|i: int|
                0 <= i < w.edges.len() && (#[trigger] w.edges[i]).src == conversation
                    && w.edges[i].dst == to(k) && w.edges[i].kind == t by {
                assert(!super::derive::parks(ds[k], false));
                let key = decided_key(conversation, ds[k], ids[k]);
                assert(super::derive::has_edge(w.edges, key));
                let i = choose|i: int|
                    0 <= i < w.edges.len() && edge_key(#[trigger] w.edges[i]) == key;
                assert(w.edges[i].src == conversation);
            }
        },
    }
}

proof fn lemma_types_apart()
    ensures
        "belongs_to"@ != "relates_to"@ && "mentions"@ != "relates_to"@ && "discusses"@
            != "relates_to"@ && "uses_pattern"@ != "relates_to"@,
{
    reveal_strlit("belongs_to");
    reveal_strlit("mentions");
    reveal_strlit("discusses");
    reveal_strlit("uses_pattern");
    reveal_strlit("relates_to");
    assert("belongs_to"@.len() == 10 && "mentions"@.len() == 8 && "discusses"@.len() == 9
        && "uses_pattern"@.len() == 12 && "relates_to"@.len() == 10);
    assert("belongs_to"@[0] == 'b' && "relates_to"@[0] == 'r');
}

/// Once a conversation is extracted, what is parked from it is exactly what the new
/// decisions name with too little confidence, and what is parked from others stays;
/// everything else that they name is a node, new nodes are there for nothing but
/// that, and the conversation counts as changed now.
pub proof fn extractions_park_and_name_what_is_found(
    v: StoreView,
    conversation: Seq<char>,
    ds: Seq<DecisionView>,
    ids: Seq<Seq<char>>,
    now: Seq<char>,
)
    requires
        ids.len() == ds.len(),
    ensures
        extracted(v, conversation, ds, ids, now) matches Ok(w) ==> {
            let sure = |d: DecisionView|
                !d.proposal.confidence.below(Double { bits: 0x3FE3_3333_3333_3333 });
            &&& w.parked.filter(|p: ParkedView| p.conversation_id != conversation)
                == v.parked.filter(|p: ParkedView| p.conversation_id != conversation)
            &&& forall|k: int|
                0 <= k < ds.len() && !sure(#[trigger] ds[k]) ==> exists|i: int|
                    0 <= i < w.parked.len() && (#[trigger] w.parked[i]).conversation_id
                        == conversation && w.parked[i].kind == ds[k].proposal.kind
                        && w.parked[i].payload == ds[k].proposal.raw && w.parked[i].confidence
                        == ds[k].proposal.confidence
            &&& forall|i: int|
                0 <= i < w.parked.len() && (#[trigger] w.parked[i]).conversation_id == conversation
                    ==> exists|k: int|
                    0 <= k < ds.len() && !sure(#[trigger] ds[k]) && w.parked[i].payload
                        == ds[k].proposal.raw
            &&& forall|k: int|
                0 <= k < ds.len() && sure(#[trigger] ds[k]) && ds[k].merge_into is None
                    ==> exists|i: int|
                    0 <= i < w.nodes.len() && (#[trigger] w.nodes[i]).id == ids[k]
                        && w.nodes[i].kind == ds[k].proposal.kind && w.nodes[i].name
                        == ds[k].proposal.name
            &&& forall|i: int|
                0 <= i < w.nodes.len() ==> (exists|j: int|
                    0 <= j < v.nodes.len() && (#[trigger] v.nodes[j]).id == (
                    #[trigger] w.nodes[i]).id) || exists|k: int|
                    0 <= k < ds.len() && sure(#[trigger] ds[k]) && ds[k].merge_into is None
                        && ids[k] == w.nodes[i].id
            &&& forall|i: int|
                0 <= i < w.nodes.len() && (#[trigger] w.nodes[i]).id == conversation
                    ==> w.nodes[i].updated == now
            &&& exists|i: int|
                0 <= i < v.nodes.len() && (#[trigger] v.nodes[i]).id == conversation
                    && v.nodes[i].kind == "conversation"@
        },
{
    lemma_told_rows(v, conversation, ds, ids, now, ds.len());
    match extracted(v, conversation, ds, ids, now) {
        Err(_) => {},
        Ok(w) => {
            let sure = |d: DecisionView|
                !d.proposal.confidence.below(Double { bits: 0x3FE3_3333_3333_3333 });
            let u = carried_out(v, conversation, ds, ids, now, ds.len())->Ok_0;
            assert(w.parked == u.parked);
            assert forall|k: int| 0 <= k < ds.len() implies sure(#[trigger] ds[k]) == certain(
                ds[k],
            ) by {}
            assert forall|k: int|
                0 <= k < ds.len() && sure(#[trigger] ds[k]) && ds[k].merge_into is None implies exists|
                i: int,
            |
                0 <= i < w.nodes.len() && (#[trigger] w.nodes[i]).id == ids[k] && w.nodes[i].kind
                    == ds[k].proposal.kind && w.nodes[i].name == ds[k].proposal.name by {
                let i = choose|i: int|
                    0 <= i < u.nodes.len() && (#[trigger] u.nodes[i]).id == ids[k]
                        && u.nodes[i].kind == ds[k].proposal.kind && u.nodes[i].name
                        == ds[k].proposal.name;
                assert(w.nodes[i].id == ids[k]);
            }
            assert forall|i: int| 0 <= i < w.nodes.len() implies (exists|j: int|
                0 <= j < v.nodes.len() && (#[trigger] v.nodes[j]).id == (
                #[trigger] w.nodes[i]).id) || exists|k: int|
                0 <= k < ds.len() && sure(#[trigger] ds[k]) && ds[k].merge_into is None && ids[k]
                    == w.nodes[i].id by {
                assert(u.nodes[i].id == w.nodes[i].id);
                if !has_node(v.nodes, u.nodes[i].id) {
                    let k = choose|k: int|
                        0 <= k < ds.len() && certain(#[trigger] ds[k]) && ds[k].merge_into is None
                            && ids[k] == u.nodes[i].id;
                    assert(sure(ds[k]));
                }
            }
            assert forall|i: int|
                0 <= i < w.parked.len() && (#[trigger] w.parked[i]).conversation_id
                    == conversation implies exists|k: int|
                0 <= k < ds.len() && !sure(#[trigger] ds[k]) && w.parked[i].payload
                    == ds[k].proposal.raw by {
                let k = choose|k: int|
                    0 <= k < ds.len() && !certain(#[trigger] ds[k]) && u.parked[i].payload
                        == ds[k].proposal.raw;
                assert(!sure(ds[k]));
            }
        },
    }
}

/// An extraction succeeds wherever it can: the conversation is there, what is to be
/// merged into is there, and the names for new nodes are new.
pub proof fn extractions_succeed_where_they_can(
    v: StoreView,
    conversation: Seq<char>,
    ds: Seq<DecisionView>,
    ids: Seq<Seq<char>>,
    now: Seq<char>,
)
    requires
        sound(v),
        ids.len() == ds.len(),
        v.next_parked + ds.len() <= u64::MAX,
        exists|i: int|
            0 <= i < v.nodes.len() && (#[trigger] v.nodes[i]).id == conversation && v.nodes[i].kind
                == "conversation"@,
        forall|k: int|
            0 <= k < ds.len() && (#[trigger] ds[k]).merge_into is Some ==> exists|i: int|
                0 <= i < v.nodes.len() && (#[trigger] v.nodes[i]).id == ds[k].merge_into->0,
        forall|k: int, i: int|
            0 <= k < ids.len() && 0 <= i < v.nodes.len() ==> #[trigger] ids[k] != (
            #[trigger] v.nodes[i]).id,
        forall|j: int, k: int| 0 <= j < k < ids.len() ==> #[trigger] ids[j] != #[trigger] ids[k],
    ensures
        extracted(v, conversation, ds, ids, now) is Ok,
{
    assert(is_conversation(v.nodes, conversation));
    assert forall|k: int| 0 <= k < ids.len() implies !has_node(v.nodes, #[trigger] ids[k]) by {
        if has_node(v.nodes, ids[k]) {
            let i = choose|i: int| 0 <= i < v.nodes.len() && (#[trigger] v.nodes[i]).id == ids[k];
            assert(ids[k] != v.nodes[i].id);
        }
    }
    assert forall|k: int| 0 <= k < ds.len() && (#[trigger] ds[k]).merge_into is Some implies has_node(
        v.nodes,
        ds[k].merge_into->0,
    ) by {}
    lemma_all_carried_out(v, conversation, ds, ids, now, ds.len());
}

proof fn lemma_all_carried_out(
    v: StoreView,
    conversation: Seq<char>,
    ds: Seq<DecisionView>,
    ids: Seq<Seq<char>>,
    now: Seq<char>,
    n: nat,
)
    requires
        n <= ds.len(),
        ids.len() == ds.len(),
        is_conversation(v.nodes, conversation),
        forall|k: int|
            0 <= k < ds.len() && (#[trigger] ds[k]).merge_into is Some ==> has_node(
                v.nodes,
                ds[k].merge_into->0,
            ),
        forall|k: int| 0 <= k < ids.len() ==> !has_node(v.nodes, #[trigger] ids[k]),
        forall|j: int, k: int| 0 <= j < k < ids.len() ==> #[trigger] ids[j] != #[trigger] ids[k],
    ensures
        carried_out(v, conversation, ds, ids, now, n) matches Ok(w) && has_node(
            w.nodes,
            conversation,
        ) && (forall|k: int|
            0 <= k < ds.len() && certain(#[trigger] ds[k]) && ds[k].merge_into is Some
                ==> has_node(w.nodes, ds[k].merge_into->0)) && (forall|k: int|
            n <= k < ids.len() ==> !has_node(w.nodes, #[trigger] ids[k])),
    decreases n,
{
    if n == 0 {
        let spared = merge_targets(ds);
        let w = cleared(v, conversation, spared);
        let keep = |x: NodeView| !dropped(v, conversation, spared, x.id);
        lemma_kept_members(v.nodes, keep);
        let c = choose|i: int|
            0 <= i < v.nodes.len() && (#[trigger] v.nodes[i]).id == conversation && v.nodes[i].kind
                == "conversation"@;
        assert(v.nodes.contains(v.nodes[c]));
        assert(keep(v.nodes[c]));
        lemma_has(w.nodes, v.nodes[c]);
        assert forall|k: int|
            0 <= k < ds.len() && certain(#[trigger] ds[k]) && ds[k].merge_into is Some implies has_node(
            w.nodes,
            ds[k].merge_into->0,
        ) by {
            let id = ds[k].merge_into->0;
            let p = |d: DecisionView| super::extract::merges(d);
            lemma_kept_members(ds, p);
            assert(ds.contains(ds[k]));
            assert(p(ds[k]));
            assert(kept(ds, p).contains(ds[k]));
            let m = choose|m: int| 0 <= m < kept(ds, p).len() && kept(ds, p)[m] == ds[k];
            assert(spared[m] == id);
            assert(spared.contains(id));
            let i = choose|i: int| 0 <= i < v.nodes.len() && (#[trigger] v.nodes[i]).id == id;
            assert(v.nodes.contains(v.nodes[i]));
            assert(keep(v.nodes[i]));
            lemma_has(w.nodes, v.nodes[i]);
        }
        assert forall|k: int| 0 <= k < ids.len() implies !has_node(w.nodes, #[trigger] ids[k]) by {
            if has_node(w.nodes, ids[k]) {
                let i = choose|i: int|
                    0 <= i < w.nodes.len() && (#[trigger] w.nodes[i]).id == ids[k];
                assert(w.nodes.contains(w.nodes[i]));
                lemma_has(v.nodes, w.nodes[i]);
            }
        }
    } else {
        let m = n - 1;
        lemma_all_carried_out(v, conversation, ds, ids, now, m as nat);
        let u = carried_out(v, conversation, ds, ids, now, m as nat)->Ok_0;
        let d = ds[m];
        let w = upserted(u, conversation, d, ids[m], now, false, false);
        assert(super::derive::parks(d, false) == !certain(d));
        assert(!has_node(u.nodes, ids[m]));
        assert(upsert_error(u, conversation, d, ids[m], false) is None);
        assert forall|x: Seq<char>| has_node(u.nodes, x) implies #[trigger] has_node(w.nodes, x) by {
            let i = choose|i: int| 0 <= i < u.nodes.len() && (#[trigger] u.nodes[i]).id == x;
            assert(w.nodes[i].id == x);
        }
        assert forall|k: int| n <= k < ids.len() implies !has_node(w.nodes, #[trigger] ids[k]) by {
            if has_node(w.nodes, ids[k]) {
                let i = choose|i: int|
                    0 <= i < w.nodes.len() && (#[trigger] w.nodes[i]).id == ids[k];
                if i < u.nodes.len() {
                    assert(u.nodes[i].id == ids[k]);
                    assert(has_node(u.nodes, ids[k]));
                } else {
                    assert(ids[m] != ids[k]);
                }
            }
        }
    }
}

proof fn lemma_has(nodes: Seq<NodeView>, n: NodeView)
    requires
        nodes.contains(n),
    ensures
        has_node(nodes, n.id),
{
    let i = choose|i: int| 0 <= i < nodes.len() && nodes[i] == n;
    assert(nodes[i].id == n.id);
}

/// Touching a node sets the time of its last change, and changes nothing else of any.
pub proof fn touching_sets_the_time(nodes: Seq<NodeView>, id: Seq<char>, now: Seq<char>, i: int)
    requires
        0 <= i < nodes.len(),
    ensures
        touched_nodes(nodes, id, now).len() == nodes.len(),
        nodes[i].id == id ==> touched_nodes(nodes, id, now)[i].updated == now,
        nodes[i].id != id ==> touched_nodes(nodes, id, now)[i] == nodes[i],
        (NodeView { updated: nodes[i].updated, ..touched_nodes(nodes, id, now)[i] }) == nodes[i],
{
}

/// A parked item is found by its number, and taking it out leaves every other.
pub proof fn parked_items_are_numbered(v: StoreView, id: u64)
    ensures
        parked_with(v, id) is None <==> forall|i: int|
            0 <= i < v.parked.len() ==> (#[trigger] v.parked[i]).id != id,
        parked_with(v, id) matches Some(p) ==> p.id == id && v.parked.contains(p),
        unparked(v.parked, id) == v.parked.filter(|p: ParkedView| p.id != id),
    decreases v.parked.len(),
{
    crate::seqs::keeping_is_filtering(v.parked, |p: ParkedView| p.id != id);
    if v.parked.len() > 0 {
        let rest = v.parked.drop_first();
        let w = StoreView { parked: rest, ..v };
        if v.parked[0].id != id {
            parked_items_are_numbered(w, id);
            if parked_with(w, id) is None {
                assert forall|i: int| 0 <= i < v.parked.len() implies (#[trigger] v.parked[i]).id
                    != id by {
                    if i > 0 {
                        assert(rest[i - 1] == v.parked[i]);
                    }
                }
            } else {
                let p = parked_with(w, id)->0;
                let k = choose|k: int| 0 <= k < rest.len() && rest[k] == p;
                assert(v.parked[k + 1] == p);
            }
        } else {
            assert(v.parked[0].id == id);
        }
    }
}

} // verus!
