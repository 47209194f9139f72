//! Whole extractions: the graph before and after.

use super::derive::{
    cleared, derived_from, dropped, has_edge, linked, linked_edges, other_edges, parks, target,
    touched_nodes, touches, upsert_error, upserted, StoreError,
};
use super::{
    edge_key, has_node, is_conversation, sound, views, EdgeView, NodeView, ParkedRow, ParkedView,
    Store, StoreView, TextView, VectorView,
};
use crate::ingest::naming::{edge_type, parked};
use crate::ingest::proposal::{decision_views, Decision, DecisionView, Proposed, ProposedView};
use crate::seqs::{
    distinct_by, kept, lemma_kept_distinct, lemma_kept_members, lemma_kept_same, lemma_kept_step,
};
use crate::text::texts;
use vstd::prelude::*;

verus! {

// Soundness is kept ------------------------------------------------------

proof fn lemma_member_has_node(nodes: Seq<NodeView>, n: NodeView)
    requires
        nodes.contains(n),
    ensures
        has_node(nodes, n.id),
        n.kind == "conversation"@ ==> is_conversation(nodes, n.id),
{
    let i = choose|i: int| 0 <= i < nodes.len() && nodes[i] == n;
    assert(nodes[i].id == n.id);
}

/// A node that is kept is there.
proof fn lemma_kept_node(nodes: Seq<NodeView>, p: spec_fn(NodeView) -> bool, id: Seq<char>)
    requires
        has_node(nodes, id),
        forall|n: NodeView| n.id == id ==> #[trigger] p(n),
    ensures
        has_node(kept(nodes, p), id),
        is_conversation(nodes, id) ==> is_conversation(kept(nodes, p), id),
{
    lemma_kept_members(nodes, p);
    let i = choose|i: int| 0 <= i < nodes.len() && (#[trigger] nodes[i]).id == id;
    assert(nodes.contains(nodes[i]));
    assert(p(nodes[i]));
    assert(kept(nodes, p).contains(nodes[i]));
    lemma_member_has_node(kept(nodes, p), nodes[i]);
    if is_conversation(nodes, id) {
        let j = choose|j: int|
            0 <= j < nodes.len() && (#[trigger] nodes[j]).id == id && nodes[j].kind
                == "conversation"@;
        assert(nodes.contains(nodes[j]));
        assert(p(nodes[j]));
        assert(kept(nodes, p).contains(nodes[j]));
        lemma_member_has_node(kept(nodes, p), nodes[j]);
    }
}

/// Clearing a conversation out of a sound store leaves a sound store.
pub proof fn clearing_keeps_soundness(v: StoreView, conversation: Seq<char>, spared: Seq<Seq<char>>)
    requires
        sound(v),
    ensures
        sound(cleared(v, conversation, spared)),
{
    let w = cleared(v, conversation, spared);
    let keep_node = |n: NodeView| !dropped(v, conversation, spared, n.id);
    let keep_edge = |e: EdgeView| !derived_from(e, conversation);
    let keep_parked = |p: ParkedView| p.conversation_id != conversation;
    let keep_vector = |x: VectorView| !dropped(v, conversation, spared, x.node_id);
    let keep_words = |x: TextView| !dropped(v, conversation, spared, x.node_id);
    lemma_kept_distinct(v.nodes, keep_node, |n: NodeView| n.id);
    lemma_kept_distinct(v.edges, keep_edge, |e: EdgeView| edge_key(e));
    lemma_kept_distinct(v.parked, keep_parked, |p: ParkedView| p.id);
    lemma_kept_members(v.edges, keep_edge);
    lemma_kept_members(v.parked, keep_parked);
    lemma_kept_members(v.vectors, keep_vector);
    lemma_kept_members(v.words, keep_words);
    assert forall|i: int| 0 <= i < w.edges.len() implies has_node(
        w.nodes,
        (#[trigger] w.edges[i]).src,
    ) && has_node(w.nodes, w.edges[i].dst) by {
        let e = w.edges[i];
        assert(w.edges.contains(e));
        let k = choose|k: int| 0 <= k < v.edges.len() && v.edges[k] == e;
        assert(has_node(v.nodes, v.edges[k].src) && has_node(v.nodes, v.edges[k].dst));
        assert(touches(other_edges(v, conversation)[i], e.src));
        assert(touches(other_edges(v, conversation)[i], e.dst));
        lemma_kept_node(v.nodes, keep_node, e.src);
        lemma_kept_node(v.nodes, keep_node, e.dst);
    }
    assert forall|i: int| 0 <= i < w.parked.len() implies is_conversation(
        w.nodes,
        (#[trigger] w.parked[i]).conversation_id,
    ) && w.parked[i].id < w.next_parked by {
        let p = w.parked[i];
        assert(w.parked.contains(p));
        let k = choose|k: int| 0 <= k < v.parked.len() && v.parked[k] == p;
        assert(is_conversation(v.nodes, v.parked[k].conversation_id));
        lemma_kept_node(v.nodes, keep_node, p.conversation_id);
    }
    assert forall|i: int| 0 <= i < w.vectors.len() implies has_node(
        w.nodes,
        (#[trigger] w.vectors[i]).node_id,
    ) by {
        let x = w.vectors[i];
        assert(w.vectors.contains(x));
        let k = choose|k: int| 0 <= k < v.vectors.len() && v.vectors[k] == x;
        assert(has_node(v.nodes, v.vectors[k].node_id));
        assert(keep_vector(x));
        lemma_kept_node(v.nodes, keep_node, x.node_id);
    }
    assert forall|i: int| 0 <= i < w.words.len() implies has_node(
        w.nodes,
        (#[trigger] w.words[i]).node_id,
    ) by {
        let x = w.words[i];
        assert(w.words.contains(x));
        let k = choose|k: int| 0 <= k < v.words.len() && v.words[k] == x;
        assert(has_node(v.nodes, v.words[k].node_id));
        assert(keep_words(x));
        lemma_kept_node(v.nodes, keep_node, x.node_id);
    }
}

/// Setting the time of the last change keeps every name and kind.
pub(crate) proof fn lemma_touched(nodes: Seq<NodeView>, id: Seq<char>, now: Seq<char>)
    ensures
        forall|x: Seq<char>| #[trigger]
            has_node(touched_nodes(nodes, id, now), x) <==> has_node(nodes, x),
        forall|x: Seq<char>| #[trigger]
            is_conversation(touched_nodes(nodes, id, now), x) <==> is_conversation(nodes, x),
        distinct_by(nodes, |n: NodeView| n.id) ==> distinct_by(
            touched_nodes(nodes, id, now),
            |n: NodeView| n.id,
        ),
{
    let t = touched_nodes(nodes, id, now);
    assert forall|x: Seq<char>| #[trigger] has_node(t, x) <==> has_node(nodes, x) by {
        if has_node(t, x) {
            let i = choose|i: int| 0 <= i < t.len() && (#[trigger] t[i]).id == x;
            assert(nodes[i].id == x);
        }
        if has_node(nodes, x) {
            let i = choose|i: int| 0 <= i < nodes.len() && (#[trigger] nodes[i]).id == x;
            assert(t[i].id == x);
        }
    }
    assert forall|x: Seq<char>| #[trigger] is_conversation(t, x) <==> is_conversation(nodes, x) by {
        if is_conversation(t, x) {
            let i = choose|i: int|
                0 <= i < t.len() && (#[trigger] t[i]).id == x && t[i].kind == "conversation"@;
            assert(nodes[i].id == x);
        }
        if is_conversation(nodes, x) {
            let i = choose|i: int|
                0 <= i < nodes.len() && (#[trigger] nodes[i]).id == x && nodes[i].kind
                    == "conversation"@;
            assert(t[i].id == x);
        }
    }
    if distinct_by(nodes, |n: NodeView| n.id) {
        let f = |n: NodeView| n.id;
        assert forall|i: int, j: int| 0 <= i < j < t.len() implies f(#[trigger] t[i]) != f(
            #[trigger] t[j],
        ) by {
            assert(f(nodes[i]) != f(nodes[j]));
        }
    }
}

proof fn lemma_pushed_node(nodes: Seq<NodeView>, n: NodeView)
    requires
        distinct_by(nodes, |n: NodeView| n.id),
        !has_node(nodes, n.id),
    ensures
        distinct_by(nodes.push(n), |n: NodeView| n.id),
        forall|x: Seq<char>| #[trigger]
            has_node(nodes.push(n), x) <==> has_node(nodes, x) || x == n.id,
        forall|x: Seq<char>|
            is_conversation(nodes, x) ==> #[trigger] is_conversation(nodes.push(n), x),
{
    let t = nodes.push(n);
    let f = |n: NodeView| n.id;
    assert forall|i: int, j: int| 0 <= i < j < t.len() implies f(#[trigger] t[i]) != f(
        #[trigger] t[j],
    ) by {
        if j < nodes.len() {
            assert(f(nodes[i]) != f(nodes[j]));
        } else {
            assert(nodes[i].id != n.id);
        }
    }
    assert forall|x: Seq<char>| #[trigger] has_node(t, x) <==> has_node(nodes, x) || x == n.id by {
        if has_node(t, x) {
            let i = choose|i: int| 0 <= i < t.len() && (#[trigger] t[i]).id == x;
            if i < nodes.len() {
                assert(nodes[i].id == x);
            }
        }
        if has_node(nodes, x) {
            let i = choose|i: int| 0 <= i < nodes.len() && (#[trigger] nodes[i]).id == x;
            assert(t[i].id == x);
        }
        if x == n.id {
            assert(t[nodes.len() as int].id == x);
        }
    }
    assert forall|x: Seq<char>| is_conversation(nodes, x) implies #[trigger] is_conversation(
        t,
        x,
    ) by {
        let i = choose|i: int|
            0 <= i < nodes.len() && (#[trigger] nodes[i]).id == x && nodes[i].kind
                == "conversation"@;
        assert(t[i] == nodes[i]);
    }
}

proof fn lemma_linked_edges(
    edges: Seq<EdgeView>,
    src: Seq<char>,
    dst: Seq<char>,
    kind: Seq<char>,
    ids: Seq<Seq<char>>,
    nodes: Seq<NodeView>,
)
    requires
        distinct_by(edges, |e: EdgeView| edge_key(e)),
        forall|i: int|
            0 <= i < edges.len() ==> has_node(nodes, (#[trigger] edges[i]).src) && has_node(
                nodes,
                edges[i].dst,
            ),
        has_node(nodes, src),
        has_node(nodes, dst),
    ensures
        ({
            let t = linked_edges(edges, src, dst, kind, ids);
            &&& distinct_by(t, |e: EdgeView| edge_key(e))
            &&& forall|i: int|
                0 <= i < t.len() ==> has_node(nodes, (#[trigger] t[i]).src) && has_node(
                    nodes,
                    t[i].dst,
                )
            &&& has_edge(t, (src, dst, kind))
        }),
{
    let t = linked_edges(edges, src, dst, kind, ids);
    let f = |e: EdgeView| edge_key(e);
    if has_edge(edges, (src, dst, kind)) {
        assert forall|i: int| 0 <= i < t.len() implies edge_key(#[trigger] t[i]) == edge_key(
            edges[i],
        ) && has_node(nodes, t[i].src) && has_node(nodes, t[i].dst) by {
            assert(has_node(nodes, edges[i].src));
        }
        assert forall|i: int, j: int| 0 <= i < j < t.len() implies f(#[trigger] t[i]) != f(
            #[trigger] t[j],
        ) by {
            assert(f(edges[i]) != f(edges[j]));
        }
        let i = choose|i: int| 0 <= i < edges.len() && edge_key(#[trigger] edges[i]) == (src, dst, kind);
        assert(edge_key(t[i]) == (src, dst, kind));
    } else {
        assert forall|i: int, j: int| 0 <= i < j < t.len() implies f(#[trigger] t[i]) != f(
            #[trigger] t[j],
        ) by {
            if j < edges.len() {
                assert(f(edges[i]) != f(edges[j]));
            } else {
                assert(edge_key(edges[i]) != (src, dst, kind));
            }
        }
        assert forall|i: int| 0 <= i < t.len() implies has_node(nodes, (#[trigger] t[i]).src)
            && has_node(nodes, t[i].dst) by {
            if i < edges.len() {
                assert(t[i] == edges[i]);
            }
        }
        assert(edge_key(t[edges.len() as int]) == (src, dst, kind));
    }
}

/// Carrying a decision out on a sound store leaves a sound store, in which every
/// conversation is still one.
pub proof fn upserting_keeps_soundness(
    v: StoreView,
    conversation: Seq<char>,
    d: DecisionView,
    new_id: Seq<char>,
    now: Seq<char>,
    force_insert: bool,
    approved: bool,
)
    requires
        sound(v),
        has_node(v.nodes, conversation) ==> is_conversation(v.nodes, conversation),
        v.next_parked < u64::MAX,
        upsert_error(v, conversation, d, new_id, force_insert) is None,
    ensures
        sound(upserted(v, conversation, d, new_id, now, force_insert, approved)),
        forall|x: Seq<char>|
            is_conversation(v.nodes, x) ==> #[trigger] is_conversation(
                upserted(v, conversation, d, new_id, now, force_insert, approved).nodes,
                x,
            ),
{
    let w = upserted(v, conversation, d, new_id, now, force_insert, approved);
    let p = d.proposal;
    if parks(d, force_insert) {
        let f = |p: ParkedView| p.id;
        assert forall|i: int, j: int| 0 <= i < j < w.parked.len() implies f(
            #[trigger] w.parked[i],
        ) != f(#[trigger] w.parked[j]) by {
            if j < v.parked.len() {
                assert(f(v.parked[i]) != f(v.parked[j]));
            } else {
                assert(v.parked[i].id < v.next_parked);
            }
        }
        assert forall|i: int| 0 <= i < w.parked.len() implies is_conversation(
            w.nodes,
            (#[trigger] w.parked[i]).conversation_id,
        ) && w.parked[i].id < w.next_parked by {
            if i < v.parked.len() {
                assert(w.parked[i] == v.parked[i]);
            }
        }
    } else {
        match d.merge_into {
            Some(id) => {
                lemma_touched(v.nodes, id, now);
                lemma_linked_edges(
                    v.edges,
                    conversation,
                    id,
                    edge_type(p.kind),
                    p.message_ids,
                    w.nodes,
                );
            },
            None => {
                let n = w.nodes.last();
                assert(w.nodes == v.nodes.push(n));
                lemma_pushed_node(v.nodes, n);
                lemma_linked_edges(
                    v.edges,
                    conversation,
                    new_id,
                    edge_type(p.kind),
                    p.message_ids,
                    w.nodes,
                );
                assert forall|i: int| 0 <= i < w.vectors.len() implies has_node(
                    w.nodes,
                    (#[trigger] w.vectors[i]).node_id,
                ) by {
                    if i < v.vectors.len() {
                        assert(w.vectors[i] == v.vectors[i]);
                    }
                }
                assert forall|i: int| 0 <= i < w.words.len() implies has_node(
                    w.nodes,
                    (#[trigger] w.words[i]).node_id,
                ) by {
                    if i < v.words.len() {
                        assert(w.words[i] == v.words[i]);
                    }
                }
            },
        }
        assert forall|i: int| 0 <= i < w.parked.len() implies is_conversation(
            w.nodes,
            (#[trigger] w.parked[i]).conversation_id,
        ) by {
            assert(is_conversation(v.nodes, v.parked[i].conversation_id));
        }
    }
}

// A whole extraction -----------------------------------------------------

/// Whether a decision merges its proposal into a node.
pub open spec fn merges(d: DecisionView) -> bool {
    !parks(d, false) && d.merge_into is Some
}

/// The nodes that the decisions merge into.
pub open spec fn merge_targets(ds: Seq<DecisionView>) -> Seq<Seq<char>> {
    kept(ds, |d: DecisionView| merges(d)).map_values(|d: DecisionView| d.merge_into->0)
}

/// The store once the conversation is cleared and the first `n` decisions are
/// carried out, or why that cannot be done. The nodes that the decisions merge
/// into are spared from the clearing.
pub open spec fn carried_out(
    v: StoreView,
    conversation: Seq<char>,
    ds: Seq<DecisionView>,
    ids: Seq<Seq<char>>,
    now: Seq<char>,
    n: nat,
) -> Result<StoreView, StoreError>
    decreases n,
{
    if n == 0 {
        Ok(cleared(v, conversation, merge_targets(ds)))
    } else {
        let k = n - 1;
        match carried_out(v, conversation, ds, ids, now, k as nat) {
            Err(e) => Err(e),
            Ok(w) => match upsert_error(w, conversation, ds[k], ids[k], false) {
                Some(e) => Err(e),
                None => Ok(upserted(w, conversation, ds[k], ids[k], now, false, false)),
            },
        }
    }
}

/// The store once the conversation is extracted anew: what was derived from it
/// before is replaced, and its time of the last change is set. If anything cannot
/// be done, nothing is.
pub open spec fn extracted(
    v: StoreView,
    conversation: Seq<char>,
    ds: Seq<DecisionView>,
    ids: Seq<Seq<char>>,
    now: Seq<char>,
) -> Result<StoreView, StoreError> {
    if !is_conversation(v.nodes, conversation) {
        Err(StoreError::NoConversation)
    } else {
        match carried_out(v, conversation, ds, ids, now, ds.len()) {
            Ok(w) => Ok(StoreView { nodes: touched_nodes(w.nodes, conversation, now), ..w }),
            Err(e) => Err(e),
        }
    }
}

proof fn lemma_carried_out_fails(
    v: StoreView,
    conversation: Seq<char>,
    ds: Seq<DecisionView>,
    ids: Seq<Seq<char>>,
    now: Seq<char>,
    n: nat,
    m: nat,
)
    requires
        n <= m,
        carried_out(v, conversation, ds, ids, now, n) is Err,
    ensures
        carried_out(v, conversation, ds, ids, now, m) == carried_out(
            v,
            conversation,
            ds,
            ids,
            now,
            n,
        ),
    decreases m - n,
{
    if n < m {
        lemma_carried_out_fails(v, conversation, ds, ids, now, n, (m - 1) as nat);
    }
}

/// Carrying decisions out keeps a store sound, and every conversation in it.
pub(crate) proof fn lemma_carried_out_sound(
    v: StoreView,
    conversation: Seq<char>,
    ds: Seq<DecisionView>,
    ids: Seq<Seq<char>>,
    now: Seq<char>,
    n: nat,
)
    requires
        sound(v),
        is_conversation(v.nodes, conversation),
        v.next_parked + n <= u64::MAX,
    ensures
        carried_out(v, conversation, ds, ids, now, n) matches Ok(w) ==> sound(w) && w.next_parked
            <= v.next_parked + n && (forall|x: Seq<char>|
            is_conversation(v.nodes, x) ==> #[trigger] is_conversation(w.nodes, x)),
    decreases n,
{
    if n == 0 {
        clearing_keeps_soundness(v, conversation, merge_targets(ds));
        conversations_survive_clearing(v, conversation, merge_targets(ds));
    } else {
        let k = (n - 1) as nat;
        lemma_carried_out_sound(v, conversation, ds, ids, now, k);
        match carried_out(v, conversation, ds, ids, now, k) {
            Err(_) => {},
            Ok(w) => {
                if upsert_error(w, conversation, ds[k as int], ids[k as int], false) is None {
                    upserting_keeps_soundness(
                        w,
                        conversation,
                        ds[k as int],
                        ids[k as int],
                        now,
                        false,
                        false,
                    );
                }
            },
        }
    }
}

/// Every conversation survives the clearing of any.
pub proof fn conversations_survive_clearing(
    v: StoreView,
    conversation: Seq<char>,
    spared: Seq<Seq<char>>,
)
    ensures
        forall|i: int|
            0 <= i < v.nodes.len() && (#[trigger] v.nodes[i]).kind == "conversation"@
                ==> cleared(v, conversation, spared).nodes.contains(v.nodes[i]),
        forall|x: Seq<char>|
            is_conversation(v.nodes, x) ==> #[trigger] is_conversation(
                cleared(v, conversation, spared).nodes,
                x,
            ),
{
    let keep_node = |n: NodeView| !dropped(v, conversation, spared, n.id);
    lemma_kept_members(v.nodes, keep_node);
    assert forall|i: int|
        0 <= i < v.nodes.len() && (#[trigger] v.nodes[i]).kind == "conversation"@ implies cleared(
        v,
        conversation,
        spared,
    ).nodes.contains(v.nodes[i]) by {
        assert(v.nodes.contains(v.nodes[i]));
        assert(is_conversation(v.nodes, v.nodes[i].id));
        assert(keep_node(v.nodes[i]));
    }
    assert forall|x: Seq<char>| is_conversation(v.nodes, x) implies #[trigger] is_conversation(
        cleared(v, conversation, spared).nodes,
        x,
    ) by {
        let i = choose|i: int|
            0 <= i < v.nodes.len() && (#[trigger] v.nodes[i]).id == x && v.nodes[i].kind
                == "conversation"@;
        lemma_member_has_node(cleared(v, conversation, spared).nodes, v.nodes[i]);
    }
}

/// The nodes that the decisions merge into.
fn targets_of(decisions: &Vec<Decision>) -> (r: Vec<String>)
    ensures
        texts(r@) == merge_targets(decision_views(decisions@)),
{
    let ghost all = decision_views(decisions@);
    let ghost p = |d: DecisionView| merges(d);
    let ghost f = |d: DecisionView| d.merge_into->0;
    let mut out: Vec<String> = Vec::new();
    let mut i: usize = 0;
    assert(all.take(0) =~= Seq::<DecisionView>::empty());
    assert(texts(out@) =~= kept(all.take(0), p).map_values(f));
    while i < decisions.len()
        invariant
            i <= decisions@.len(),
            all == decision_views(decisions@),
            p == (|d: DecisionView| merges(d)),
            f == (|d: DecisionView| d.merge_into->0),
            texts(out@) == kept(all.take(i as int), p).map_values(f),
        decreases decisions@.len() - i,
    {
        proof {
            lemma_kept_step(all, p, i as int);
            assert(all[i as int] == decisions@[i as int]@);
        }
        if !parked(decisions[i].proposal.confidence) {
            if let Some(id) = &decisions[i].merge_into {
                let t = id.clone();
                proof {
                    crate::text::lemma_texts_push(out@, t);
                    assert(kept(all.take(i as int), p).push(all[i as int]).map_values(f) =~= kept(
                        all.take(i as int),
                        p,
                    ).map_values(f).push(t@));
                }
                out.push(t);
            }
        }
        i = i + 1;
    }
    assert(all.take(i as int) =~= all);
    out
}

impl Store {
    /// Replaces what was derived from the conversation by what the decisions say.
    /// The node of decision number `i`, if it is a new one, gets the name
    /// `new_ids[i]`. On an error nothing is to be kept.
    pub fn apply_extraction_as(
        self,
        conversation_id: &str,
        decisions: Vec<Decision>,
        new_ids: &Vec<String>,
        now: &str,
    ) -> (r: Result<Store, StoreError>)
        requires
            sound(self@),
            self.next_parked + decisions@.len() <= u64::MAX,
            new_ids@.len() == decisions@.len(),
        ensures
            match r {
                Ok(s) => extracted(
                    self@,
                    conversation_id@,
                    decision_views(decisions@),
                    texts(new_ids@),
                    now@,
                ) == Ok::<StoreView, StoreError>(s@) && sound(s@),
                Err(e) => extracted(
                    self@,
                    conversation_id@,
                    decision_views(decisions@),
                    texts(new_ids@),
                    now@,
                ) == Err::<StoreView, StoreError>(e),
            },
    {
        let ghost v = self@;
        let ghost conv = conversation_id@;
        let ghost whole = decisions@;
        let ghost ds = decision_views(whole);
        let ghost ids = texts(new_ids@);
        if !self.contains_conversation(conversation_id) {
            return Err(StoreError::NoConversation);
        }
        let mut store = self;
        let spared = targets_of(&decisions);
        store.clear_sparing(conversation_id, &spared);
        let count: usize = new_ids.len();
        let mut i: usize = 0;
        for d in it: decisions
            invariant
                v == self@,
                whole == decisions@,
                whole == it.seq(),
                count == new_ids@.len(),
                i == it.index(),
                ds == decision_views(whole),
                ids == texts(new_ids@),
                conv == conversation_id@,
                new_ids@.len() == whole.len(),
                sound(v),
                is_conversation(v.nodes, conv),
                v.next_parked + whole.len() <= u64::MAX,
                carried_out(v, conv, ds, ids, now@, i as nat) == Ok::<StoreView, StoreError>(
                    store@,
                ),
        {
            proof {
                lemma_carried_out_sound(v, conv, ds, ids, now@, i as nat);
                assert(is_conversation(store@.nodes, conv));
                assert(ds[i as int] == d@);
                assert(ids[i as int] == new_ids@[i as int]@);
            }
            match store.upsert_decision_as(
                conversation_id,
                d,
                new_ids[i].as_str(),
                now,
                false,
                false,
            ) {
                Ok(_) => {},
                Err(e) => {
                    proof {
                        assert(carried_out(v, conv, ds, ids, now@, (i + 1) as nat) == Err::<
                            StoreView,
                            StoreError,
                        >(e));
                        lemma_carried_out_fails(
                            v,
                            conv,
                            ds,
                            ids,
                            now@,
                            (i + 1) as nat,
                            ds.len(),
                        );
                    }
                    return Err(e);
                },
            }
            assert(carried_out(v, conv, ds, ids, now@, (i + 1) as nat) == Ok::<
                StoreView,
                StoreError,
            >(store@));
            assert(i < count);
            i = i + 1;
        }
        proof {
            lemma_carried_out_sound(v, conv, ds, ids, now@, ds.len());
            lemma_touched(store@.nodes, conv, now@);
        }
        let ghost w = store@;
        store.touch_node(conversation_id, now);
        proof {
            assert forall|k: int| 0 <= k < store@.parked.len() implies is_conversation(
                store@.nodes,
                (#[trigger] store@.parked[k]).conversation_id,
            ) by {
                assert(is_conversation(w.nodes, w.parked[k].conversation_id));
            }
            assert forall|k: int| 0 <= k < store@.edges.len() implies has_node(
                store@.nodes,
                (#[trigger] store@.edges[k]).src,
            ) && has_node(store@.nodes, store@.edges[k].dst) by {
                assert(has_node(w.nodes, w.edges[k].src));
            }
        }
        Ok(store)
    }
}

// With fresh names -------------------------------------------------------

impl Store {
    /// Carries a decision about something found in the conversation out; a new
    /// node gets a fresh name. Where the name happens to be taken, nothing is
    /// changed.
    pub fn upsert_decision(
        &mut self,
        conversation_id: &str,
        decision: Decision,
        now: &str,
        force_insert: bool,
        approved_by_user: bool,
    ) -> (r: Result<(), StoreError>)
        requires
            sound(old(self)@),
            old(self).next_parked < u64::MAX,
        ensures
            exists|id: Seq<char>| #[trigger]
                crate::ids::is_uuid(id) && match r {
                    Ok(_) => upsert_error(
                        old(self)@,
                        conversation_id@,
                        decision@,
                        id,
                        force_insert,
                    ) is None && final(self)@ == upserted(
                        old(self)@,
                        conversation_id@,
                        decision@,
                        id,
                        now@,
                        force_insert,
                        approved_by_user,
                    ),
                    Err(e) => upsert_error(
                        old(self)@,
                        conversation_id@,
                        decision@,
                        id,
                        force_insert,
                    ) == Some(e) && final(self)@ == old(self)@,
                },
    {
        let id = crate::ids::fresh_id();
        assert(crate::ids::is_uuid(id@));
        self.upsert_decision_as(
            conversation_id,
            decision,
            id.as_str(),
            now,
            force_insert,
            approved_by_user,
        )
    }

    /// Replaces what was derived from the conversation by what the decisions say;
    /// new nodes get fresh names.
    pub fn apply_extraction(
        self,
        conversation_id: &str,
        decisions: Vec<Decision>,
        now: &str,
    ) -> (r: Result<Store, StoreError>)
        requires
            sound(self@),
            self.next_parked + decisions@.len() <= u64::MAX,
        ensures
            exists|ids: Seq<Seq<char>>| #[trigger]
                crate::ids::all_uuids(ids) && ids.len() == decisions@.len() && match r {
                    Ok(s) => extracted(
                        self@,
                        conversation_id@,
                        decision_views(decisions@),
                        ids,
                        now@,
                    ) == Ok::<StoreView, StoreError>(s@) && sound(s@),
                    Err(e) => extracted(
                        self@,
                        conversation_id@,
                        decision_views(decisions@),
                        ids,
                        now@,
                    ) == Err::<StoreView, StoreError>(e),
                },
    {
        let ids = crate::ids::fresh_ids(decisions.len());
        assert(crate::ids::all_uuids(texts(ids@)));
        self.apply_extraction_as(conversation_id, decisions, &ids, now)
    }
}

// What is parked ---------------------------------------------------------

/// The parked item with the number.
pub open spec fn parked_with(v: StoreView, id: u64) -> Option<ParkedView>
    decreases v.parked.len(),
{
    if v.parked.len() == 0 {
        None
    } else if v.parked[0].id == id {
        Some(v.parked[0])
    } else {
        parked_with(StoreView { parked: v.parked.drop_first(), ..v }, id)
    }
}

/// The items without the one with the number.
pub open spec fn unparked(parked: Seq<ParkedView>, id: u64) -> Seq<ParkedView> {
    kept(parked, |p: ParkedView| p.id != id)
}

/// The store once the parked item is approved: the decision about it is carried
/// out whatever its confidence, as one that the user approved, and the item is no
/// longer parked.
pub open spec fn approved(
    v: StoreView,
    extraction_id: u64,
    conversation: Seq<char>,
    d: DecisionView,
    new_id: Seq<char>,
    now: Seq<char>,
) -> Result<StoreView, StoreError> {
    match upsert_error(v, conversation, d, new_id, true) {
        Some(e) => Err(e),
        None => {
            let w = upserted(v, conversation, d, new_id, now, true, true);
            Ok(StoreView { parked: unparked(w.parked, extraction_id), ..w })
        },
    }
}

fn unpark(parked: Vec<ParkedRow>, id: u64) -> (r: Vec<ParkedRow>)
    ensures
        views(r@) == unparked(views(parked@), id),
{
    let ghost whole = parked@;
    let ghost all = views(whole);
    let ghost p = |p: ParkedView| p.id != id;
    let mut out: Vec<ParkedRow> = Vec::new();
    assert(all.take(0) =~= Seq::<ParkedView>::empty());
    assert(views(out@) =~= Seq::<ParkedView>::empty());
    for row in it: parked
        invariant
            whole == it.seq(),
            all == views(whole),
            p == (|p: ParkedView| p.id != id),
            views(out@) == kept(all.take(it.index() as int), p),
    {
        proof {
            lemma_kept_step(all, p, it.index() as int);
            super::lemma_views_push(out@, row);
        }
        if row.id != id {
            out.push(row);
        }
    }
    assert(all.take(whole.len() as int) =~= all);
    out
}

impl Store {
    /// What is proposed by the parked item with the number, and in which
    /// conversation it was found.
    pub fn parked_proposal(&self, extraction_id: u64) -> (r: Result<(String, Proposed), String>)
        ensures
            match parked_with(self@, extraction_id) {
                None => r matches Err(m) && m@ == "Parked extraction not found"@,
                Some(row) => match crate::ingest::proposal::proposal_of(
                    row.kind,
                    row.payload,
                    row.confidence,
                ) {
                    None => r matches Err(m) && m@ == "proposal missing name"@,
                    Some(p) => r matches Ok(x) && x.0@ == row.conversation_id && x.1@ == p,
                },
            },
    {
        let ghost all = self@.parked;
        let mut i: usize = 0;
        assert(StoreView { parked: all.skip(0), ..self@ } == self@) by {
            assert(all.skip(0) =~= all);
        }
        while i < self.parked.len()
            invariant
                i <= self.parked@.len(),
                all == self@.parked,
                parked_with(self@, extraction_id) == parked_with(
                    StoreView { parked: all.skip(i as int), ..self@ },
                    extraction_id,
                ),
            decreases self.parked@.len() - i,
        {
            assert(all.skip(i as int)[0] == self.parked@[i as int]@);
            if self.parked[i].id == extraction_id {
                let row = &self.parked[i];
                return match crate::ingest::proposal::parse_proposal(
                    row.kind.as_str(),
                    row.payload.copy(),
                    row.confidence,
                ) {
                    Ok(p) => Ok((row.conversation_id.clone(), p)),
                    Err(m) => Err(m),
                };
            }
            assert(all.skip(i as int).drop_first() =~= all.skip(i + 1));
            i = i + 1;
        }
        Err("Parked extraction not found".to_owned())
    }

    /// Approves the parked item: carries the decision about it out and takes it
    /// from what is parked. What cannot be carried out changes nothing.
    pub fn approve_parked_as(
        &mut self,
        extraction_id: u64,
        conversation_id: &str,
        decision: Decision,
        new_id: &str,
        now: &str,
    ) -> (r: Result<(), StoreError>)
        requires
            sound(old(self)@),
            old(self).next_parked < u64::MAX,
        ensures
            match r {
                Ok(_) => approved(
                    old(self)@,
                    extraction_id,
                    conversation_id@,
                    decision@,
                    new_id@,
                    now@,
                ) == Ok::<StoreView, StoreError>(final(self)@),
                Err(e) => approved(
                    old(self)@,
                    extraction_id,
                    conversation_id@,
                    decision@,
                    new_id@,
                    now@,
                ) == Err::<StoreView, StoreError>(e) && final(self)@ == old(self)@,
            },
    {
        match self.upsert_decision_as(conversation_id, decision, new_id, now, true, true) {
            Ok(_) => {
                let mut parked: Vec<ParkedRow> = Vec::new();
                std::mem::swap(&mut parked, &mut self.parked);
                self.parked = unpark(parked, extraction_id);
                Ok(())
            },
            Err(e) => Err(e),
        }
    }

    /// Approves the parked item; a new node gets a fresh name.
    pub fn approve_parked(
        &mut self,
        extraction_id: u64,
        conversation_id: &str,
        decision: Decision,
        now: &str,
    ) -> (r: Result<(), StoreError>)
        requires
            sound(old(self)@),
            old(self).next_parked < u64::MAX,
        ensures
            exists|id: Seq<char>| #[trigger]
                crate::ids::is_uuid(id) && match r {
                    Ok(_) => approved(
                        old(self)@,
                        extraction_id,
                        conversation_id@,
                        decision@,
                        id,
                        now@,
                    ) == Ok::<StoreView, StoreError>(final(self)@),
                    Err(e) => approved(
                        old(self)@,
                        extraction_id,
                        conversation_id@,
                        decision@,
                        id,
                        now@,
                    ) == Err::<StoreView, StoreError>(e) && final(self)@ == old(self)@,
                },
    {
        let id = crate::ids::fresh_id();
        assert(crate::ids::is_uuid(id@));
        self.approve_parked_as(extraction_id, conversation_id, decision, id.as_str(), now)
    }

    /// Rejects the parked item: it is parked no longer.
    pub fn reject_parked(&mut self, extraction_id: u64)
        ensures
            final(self)@ == (StoreView {
                parked: unparked(old(self)@.parked, extraction_id),
                ..old(self)@
            }),
    {
        let mut parked: Vec<ParkedRow> = Vec::new();
        std::mem::swap(&mut parked, &mut self.parked);
        self.parked = unpark(parked, extraction_id);
    }
}

// Laws -------------------------------------------------------------------

/// What has too little confidence leaves the graph and its indexes as they are.
pub proof fn parking_leaves_the_graph(
    v: StoreView,
    conversation: Seq<char>,
    d: DecisionView,
    new_id: Seq<char>,
    now: Seq<char>,
    approved: bool,
)
    requires
        crate::ingest::naming::is_parked(d.proposal.confidence),
    ensures
        ({
            let w = upserted(v, conversation, d, new_id, now, false, approved);
            w.nodes == v.nodes && w.edges == v.edges && w.vectors == v.vectors && w.words
                == v.words && w.parked.len() == v.parked.len() + 1 && w.parked.drop_last()
                == v.parked
        }),
{
    let w = upserted(v, conversation, d, new_id, now, false, approved);
    assert(w.parked.drop_last() =~= v.parked);
}

/// After clearing, no edge derived from the conversation and nothing parked from
/// it is left; a node that something else links is kept, and so is one that is to
/// be spared and every edge that was not derived from the conversation.
pub proof fn clearing_takes_what_was_derived(
    v: StoreView,
    conversation: Seq<char>,
    spared: Seq<Seq<char>>,
)
    ensures
        forall|i: int|
            0 <= i < cleared(v, conversation, spared).edges.len() ==> !derived_from(
                #[trigger] cleared(v, conversation, spared).edges[i],
                conversation,
            ),
        forall|i: int|
            0 <= i < cleared(v, conversation, spared).parked.len() ==> (#[trigger] cleared(
                v,
                conversation,
                spared,
            ).parked[i]).conversation_id != conversation,
        forall|i: int|
            0 <= i < v.nodes.len() && (linked(
                other_edges(v, conversation),
                (#[trigger] v.nodes[i]).id,
            ) || spared.contains(v.nodes[i].id)) ==> cleared(v, conversation, spared).nodes.contains(v.nodes[i]),
        forall|i: int|
            0 <= i < v.edges.len() && !derived_from(#[trigger] v.edges[i], conversation)
                ==> cleared(v, conversation, spared).edges.contains(v.edges[i]),
{
    let w = cleared(v, conversation, spared);
    let keep_node = |n: NodeView| !dropped(v, conversation, spared, n.id);
    let keep_edge = |e: EdgeView| !derived_from(e, conversation);
    let keep_parked = |p: ParkedView| p.conversation_id != conversation;
    lemma_kept_members(v.nodes, keep_node);
    lemma_kept_members(v.edges, keep_edge);
    lemma_kept_members(v.parked, keep_parked);
    assert forall|i: int| 0 <= i < w.edges.len() implies !derived_from(
        #[trigger] w.edges[i],
        conversation,
    ) by {
        assert(w.edges.contains(w.edges[i]));
        assert(keep_edge(w.edges[i]));
    }
    assert forall|i: int| 0 <= i < w.parked.len() implies (
    #[trigger] w.parked[i]).conversation_id != conversation by {
        assert(w.parked.contains(w.parked[i]));
        assert(keep_parked(w.parked[i]));
    }
    assert forall|i: int|
        0 <= i < v.nodes.len() && (linked(
            other_edges(v, conversation),
            (#[trigger] v.nodes[i]).id,
        ) || spared.contains(v.nodes[i].id)) implies w.nodes.contains(v.nodes[i]) by {
        assert(v.nodes.contains(v.nodes[i]));
        assert(keep_node(v.nodes[i]));
    }
    assert forall|i: int|
        0 <= i < v.edges.len() && !derived_from(
            #[trigger] v.edges[i],
            conversation,
        ) implies w.edges.contains(v.edges[i]) by {
        assert(v.edges.contains(v.edges[i]));
        assert(keep_edge(v.edges[i]));
    }
}

/// Where two sequences differ only in what is not kept, the same is kept.
proof fn lemma_kept_unchanged(s: Seq<EdgeView>, t: Seq<EdgeView>, p: spec_fn(EdgeView) -> bool)
    requires
        s.len() == t.len(),
        forall|i: int|
            0 <= i < s.len() ==> p(#[trigger] s[i]) == p(t[i]) && (p(s[i]) ==> s[i] == t[i]),
    ensures
        kept(s, p) == kept(t, p),
    decreases s.len(),
{
    if s.len() > 0 {
        let a = s.drop_last();
        let b = t.drop_last();
        assert forall|i: int| 0 <= i < a.len() implies p(#[trigger] a[i]) == p(b[i]) && (p(a[i])
            ==> a[i] == b[i]) by {
            assert(a[i] == s[i] && b[i] == t[i]);
        }
        lemma_kept_unchanged(a, b, p);
        assert(p(s[s.len() - 1]) == p(t[s.len() - 1]));
    }
}

/// The key of the edge that a decision makes.
pub open spec fn decided_key(
    conversation: Seq<char>,
    d: DecisionView,
    new_id: Seq<char>,
) -> (Seq<char>, Seq<char>, Seq<char>) {
    (conversation, target(d, new_id), edge_type(d.proposal.kind))
}

/// Whether an edge comes from one of the first `n` decisions.
pub open spec fn comes_from(
    e: EdgeView,
    conversation: Seq<char>,
    ds: Seq<DecisionView>,
    ids: Seq<Seq<char>>,
    n: int,
) -> bool {
    exists|k: int|
        0 <= k < n && !parks(#[trigger] ds[k], false) && edge_key(e) == decided_key(
            conversation,
            ds[k],
            ids[k],
        )
}

/// What the edges are once the first decisions are carried out.
pub open spec fn replaced_edges(
    v: StoreView,
    w: StoreView,
    conversation: Seq<char>,
    ds: Seq<DecisionView>,
    ids: Seq<Seq<char>>,
    n: int,
) -> bool {
    &&& forall|i: int|
        0 <= i < w.edges.len() && derived_from(#[trigger] w.edges[i], conversation) ==> comes_from(
            w.edges[i],
            conversation,
            ds,
            ids,
            n,
        )
    &&& forall|k: int|
        0 <= k < n && !parks(#[trigger] ds[k], false) ==> has_edge(
            w.edges,
            decided_key(conversation, ds[k], ids[k]),
        )
    &&& kept(w.edges, |e: EdgeView| e.src != conversation) == kept(
        v.edges,
        |e: EdgeView| e.src != conversation,
    )
}

proof fn lemma_replaced_edges(
    v: StoreView,
    conversation: Seq<char>,
    ds: Seq<DecisionView>,
    ids: Seq<Seq<char>>,
    now: Seq<char>,
    n: nat,
)
    requires
        n <= ds.len(),
        ids.len() == ds.len(),
    ensures
        carried_out(v, conversation, ds, ids, now, n) matches Ok(w) ==> replaced_edges(
            v,
            w,
            conversation,
            ds,
            ids,
            n as int,
        ),
    decreases n,
{
    let away = |e: EdgeView| e.src != conversation;
    if n == 0 {
        clearing_takes_what_was_derived(v, conversation, merge_targets(ds));
        let keep_edge = |e: EdgeView| !derived_from(e, conversation);
        crate::seqs::lemma_kept_twice(v.edges, keep_edge, away);
        lemma_kept_same(v.edges, |e: EdgeView| keep_edge(e) && away(e), away);
    } else {
        let k = n - 1;
        lemma_replaced_edges(v, conversation, ds, ids, now, k as nat);
        match carried_out(v, conversation, ds, ids, now, k as nat) {
            Err(_) => {},
            Ok(u) => {
                let d = ds[k];
                if upsert_error(u, conversation, d, ids[k], false) is None {
                    let w = upserted(u, conversation, d, ids[k], now, false, false);
                    let key = decided_key(conversation, d, ids[k]);
                    if parks(d, false) {
                        assert forall|i: int|
                            0 <= i < w.edges.len() && derived_from(
                                #[trigger] w.edges[i],
                                conversation,
                            ) implies comes_from(w.edges[i], conversation, ds, ids, n as int) by {
                            assert(comes_from(u.edges[i], conversation, ds, ids, k));
                            let j = choose|j: int|
                                0 <= j < k && !parks(#[trigger] ds[j], false) && edge_key(
                                    u.edges[i],
                                ) == decided_key(conversation, ds[j], ids[j]);
                            assert(!parks(ds[j], false));
                        }
                    } else {
                        lemma_link_step(u.edges, conversation, d, ids[k]);
                        assert forall|i: int|
                            0 <= i < w.edges.len() && derived_from(
                                #[trigger] w.edges[i],
                                conversation,
                            ) implies comes_from(w.edges[i], conversation, ds, ids, n as int) by {
                            if edge_key(w.edges[i]) == key {
                                assert(!parks(ds[k], false));
                            } else {
                                assert(w.edges[i] == u.edges[i]);
                                assert(comes_from(u.edges[i], conversation, ds, ids, k));
                                let j = choose|j: int|
                                    0 <= j < k && !parks(#[trigger] ds[j], false) && edge_key(
                                        u.edges[i],
                                    ) == decided_key(conversation, ds[j], ids[j]);
                                assert(!parks(ds[j], false));
                            }
                        }
                        assert forall|j: int|
                            0 <= j < n && !parks(#[trigger] ds[j], false) implies has_edge(
                            w.edges,
                            decided_key(conversation, ds[j], ids[j]),
                        ) by {
                            if j < k {
                                let other = decided_key(conversation, ds[j], ids[j]);
                                assert(has_edge(u.edges, other));
                                let m = choose|m: int|
                                    0 <= m < u.edges.len() && edge_key(#[trigger] u.edges[m])
                                        == other;
                                assert(edge_key(w.edges[m]) == other);
                            }
                        }
                    }
                }
            },
        }
    }
}

pub(crate) proof fn lemma_link_step(
    edges: Seq<EdgeView>,
    conversation: Seq<char>,
    d: DecisionView,
    new_id: Seq<char>,
)
    ensures
        ({
            let key = decided_key(conversation, d, new_id);
            let t = linked_edges(edges, key.0, key.1, key.2, d.proposal.message_ids);
            let away = |e: EdgeView| e.src != conversation;
            &&& has_edge(t, key)
            &&& t.len() >= edges.len()
            &&& forall|i: int|
                0 <= i < edges.len() ==> edge_key(#[trigger] t[i]) == edge_key(edges[i])
            &&& forall|i: int|
                0 <= i < t.len() && edge_key(#[trigger] t[i]) != key ==> i < edges.len() && t[i]
                    == edges[i]
            &&& kept(t, away) == kept(edges, away)
        }),
{
    let key = decided_key(conversation, d, new_id);
    let t = linked_edges(edges, key.0, key.1, key.2, d.proposal.message_ids);
    let away = |e: EdgeView| e.src != conversation;
    if has_edge(edges, key) {
        let i = choose|i: int| 0 <= i < edges.len() && edge_key(#[trigger] edges[i]) == key;
        assert(edge_key(t[i]) == key);
        lemma_kept_unchanged(edges, t, away);
    } else {
        assert(edge_key(t[edges.len() as int]) == key);
        assert(t.drop_last() =~= edges);
        assert(!away(t.last()));
    }
}

/// Extracting a conversation anew replaces what was derived from it: every
/// derived edge that it has afterwards comes from one of the new decisions, every
/// decision that is not parked has its edge, the edges of all other
/// conversations stay as they were, and so does the graph's soundness and every
/// conversation.
pub proof fn extraction_replaces_what_was_derived(
    v: StoreView,
    conversation: Seq<char>,
    ds: Seq<DecisionView>,
    ids: Seq<Seq<char>>,
    now: Seq<char>,
)
    requires
        sound(v),
        ids.len() == ds.len(),
        v.next_parked + ds.len() <= u64::MAX,
    ensures
        extracted(v, conversation, ds, ids, now) matches Ok(w) ==> replaced_edges(
            v,
            w,
            conversation,
            ds,
            ids,
            ds.len() as int,
        ) && sound(w) && (forall|x: Seq<char>|
            is_conversation(v.nodes, x) ==> #[trigger] is_conversation(w.nodes, x)),
{
    if is_conversation(v.nodes, conversation) {
        lemma_replaced_edges(v, conversation, ds, ids, now, ds.len());
        lemma_carried_out_sound(v, conversation, ds, ids, now, ds.len());
        match carried_out(v, conversation, ds, ids, now, ds.len()) {
            Ok(w) => {
                lemma_touched(w.nodes, conversation, now);
            },
            Err(_) => {},
        }
    }
}

/// An approved item is linked from its conversation by the edge of its kind,
/// whatever its confidence, a new node for it is solid, and it is parked no
/// longer; the store stays sound.
pub proof fn approval_links_and_unparks(
    v: StoreView,
    extraction_id: u64,
    conversation: Seq<char>,
    d: DecisionView,
    new_id: Seq<char>,
    now: Seq<char>,
)
    requires
        sound(v),
        is_conversation(v.nodes, conversation),
        v.next_parked < u64::MAX,
    ensures
        approved(v, extraction_id, conversation, d, new_id, now) matches Ok(w) ==> {
            &&& sound(w)
            &&& has_edge(w.edges, decided_key(conversation, d, new_id))
            &&& forall|i: int|
                0 <= i < w.parked.len() ==> (#[trigger] w.parked[i]).id != extraction_id
            &&& d.merge_into is None ==> w.nodes.last().id == new_id && w.nodes.last().props.at(
                "tier"@,
            ) == crate::json::JsonTree::Str("solid"@)
        },
{
    assert(has_node(v.nodes, conversation)) by {
        let i = choose|i: int|
            0 <= i < v.nodes.len() && (#[trigger] v.nodes[i]).id == conversation && v.nodes[i].kind
                == "conversation"@;
        assert(v.nodes[i].id == conversation);
    }
    if upsert_error(v, conversation, d, new_id, true) is None {
        let u = upserted(v, conversation, d, new_id, now, true, true);
        upserting_keeps_soundness(v, conversation, d, new_id, now, true, true);
        lemma_link_step(v.edges, conversation, d, new_id);
        let keep = |p: ParkedView| p.id != extraction_id;
        lemma_kept_members(u.parked, keep);
        lemma_kept_distinct(u.parked, keep, |p: ParkedView| p.id);
        let w = StoreView { parked: unparked(u.parked, extraction_id), ..u };
        assert forall|i: int| 0 <= i < w.parked.len() implies (#[trigger] w.parked[i]).id
            != extraction_id && is_conversation(w.nodes, w.parked[i].conversation_id)
            && w.parked[i].id < w.next_parked by {
            let p = w.parked[i];
            assert(w.parked.contains(p));
            assert(keep(p));
            let k = choose|k: int| 0 <= k < u.parked.len() && u.parked[k] == p;
            assert(is_conversation(u.nodes, u.parked[k].conversation_id));
        }
        if d.merge_into is None {
            lemma_tier_of_props(d.proposal);
        }
    }
}

proof fn lemma_tier_of_props(p: ProposedView)
    ensures
        super::derive::node_props(p, true).at("tier"@) == crate::json::JsonTree::Str("solid"@),
{
    reveal_strlit("approved");
    reveal_strlit("confidence");
    reveal_strlit("description");
    reveal_strlit("message_ids");
    reveal_strlit("tier");
    let e = super::derive::node_props(p, true)->Object_0;
    assert("tier"@.len() == 4);
    assert(e.drop_first()[0] == e[1]);
    assert(e.drop_first().drop_first()[0] == e[2]);
    assert(e.drop_first().drop_first().drop_first()[0] == e[3]);
    assert(e.drop_first().drop_first().drop_first().drop_first()[0] == e[4]);
    reveal_with_fuel(crate::json::lookup, 6);
}

} // verus!
