//! Extracting a conversation again.

use super::derive::{
    cleared, derived_from, dropped, found_again, has_edge, other_edges, parks, target,
    touched_nodes, touches, upsert_error, upserted,
};
use super::edges::{findings_add_up, merged_ids, messages_in, MAX_EDGE_MESSAGES};
use super::extract::{
    carried_out, comes_from, decided_key, extracted, extraction_replaces_what_was_derived,
    lemma_carried_out_sound, lemma_link_step, lemma_touched, merge_targets, merges,
};
use super::{edge_key, has_node, is_conversation, sound, EdgeView, NodeView, StoreView};
use crate::ingest::proposal::DecisionView;
use crate::seqs::{distinct_by, kept, lemma_kept_members};
use vstd::prelude::*;

verus! {

/// Whether the named node has the kind and the name.
pub open spec fn looks(
    nodes: Seq<NodeView>,
    id: Seq<char>,
    kind: Seq<char>,
    name: Seq<char>,
) -> bool {
    exists|i: int|
        0 <= i < nodes.len() && (#[trigger] nodes[i]).id == id && nodes[i].kind == kind
            && nodes[i].name == name
}

/// Whether an edge of the kind leads from the conversation to a node of the kind
/// with the name.
pub open spec fn links_to(
    v: StoreView,
    conversation: Seq<char>,
    edge_kind: Seq<char>,
    kind: Seq<char>,
    name: Seq<char>,
) -> bool {
    exists|i: int|
        0 <= i < v.edges.len() && (#[trigger] v.edges[i]).src == conversation && v.edges[i].kind
            == edge_kind && looks(v.nodes, v.edges[i].dst, kind, name)
}

/// Whether the node is there and one of the same kind with the same name.
pub open spec fn alike(nodes: Seq<NodeView>, a: Seq<char>, b: Seq<char>) -> bool {
    has_node(nodes, a) && forall|kind: Seq<char>, name: Seq<char>|
        looks(nodes, a, kind, name) <==> #[trigger] looks(nodes, b, kind, name)
}

/// Whether a decision says again what another, with its new node, said of the same
/// proposal: it is merged into the node to which it was linked or into one like
/// it; only what was new may be new again.
pub open spec fn decides_again(
    nodes: Seq<NodeView>,
    first: DecisionView,
    first_id: Seq<char>,
    second: DecisionView,
) -> bool {
    second.proposal == first.proposal && (!parks(first, false) ==> match second.merge_into {
        None => first.merge_into is None,
        Some(x) => alike(nodes, x, target(first, first_id)),
    })
}

/// Whether the names are all different, and none of them is that of a node.
pub open spec fn unused(nodes: Seq<NodeView>, ids: Seq<Seq<char>>) -> bool {
    &&& forall|i: int| 0 <= i < ids.len() ==> !has_node(nodes, #[trigger] ids[i])
    &&& forall|i: int, j: int| 0 <= i < j < ids.len() ==> #[trigger] ids[i] != #[trigger] ids[j]
}

proof fn lemma_one_look(
    nodes: Seq<NodeView>,
    id: Seq<char>,
    k1: Seq<char>,
    n1: Seq<char>,
    k2: Seq<char>,
    n2: Seq<char>,
)
    requires
        distinct_by(nodes, |n: NodeView| n.id),
        looks(nodes, id, k1, n1),
        looks(nodes, id, k2, n2),
    ensures
        k1 == k2,
        n1 == n2,
{
    let f = |n: NodeView| n.id;
    let i = choose|i: int|
        0 <= i < nodes.len() && (#[trigger] nodes[i]).id == id && nodes[i].kind == k1
            && nodes[i].name == n1;
    let j = choose|j: int|
        0 <= j < nodes.len() && (#[trigger] nodes[j]).id == id && nodes[j].kind == k2
            && nodes[j].name == n2;
    if i < j {
        assert(f(nodes[i]) != f(nodes[j]));
    } else if j < i {
        assert(f(nodes[j]) != f(nodes[i]));
    }
}

proof fn lemma_has_look(nodes: Seq<NodeView>, id: Seq<char>) -> (r: (Seq<char>, Seq<char>))
    requires
        has_node(nodes, id),
    ensures
        looks(nodes, id, r.0, r.1),
{
    let i = choose|i: int| 0 <= i < nodes.len() && (#[trigger] nodes[i]).id == id;
    assert(nodes[i].id == id);
    (nodes[i].kind, nodes[i].name)
}

/// Whether every node of the first is in the second, with its kind and name.
spec fn looks_stay(a: Seq<NodeView>, b: Seq<NodeView>) -> bool {
    forall|id: Seq<char>, kind: Seq<char>, name: Seq<char>|
        looks(a, id, kind, name) ==> #[trigger] looks(b, id, kind, name)
}

proof fn lemma_touched_looks(nodes: Seq<NodeView>, id: Seq<char>, now: Seq<char>)
    ensures
        looks_stay(nodes, touched_nodes(nodes, id, now)),
        looks_stay(touched_nodes(nodes, id, now), nodes),
{
    let t = touched_nodes(nodes, id, now);
    assert forall|x: Seq<char>, kind: Seq<char>, name: Seq<char>|
        looks(nodes, x, kind, name) implies #[trigger] looks(t, x, kind, name) by {
        let i = choose|i: int|
            0 <= i < nodes.len() && (#[trigger] nodes[i]).id == x && nodes[i].kind == kind
                && nodes[i].name == name;
        assert(t[i].id == x && t[i].kind == kind && t[i].name == name);
    }
    assert forall|x: Seq<char>, kind: Seq<char>, name: Seq<char>|
        looks(t, x, kind, name) implies #[trigger] looks(nodes, x, kind, name) by {
        let i = choose|i: int|
            0 <= i < t.len() && (#[trigger] t[i]).id == x && t[i].kind == kind && t[i].name == name;
        assert(nodes[i].id == x && nodes[i].kind == kind && nodes[i].name == name);
    }
}

proof fn lemma_pushed_looks(nodes: Seq<NodeView>, n: NodeView)
    ensures
        looks_stay(nodes, nodes.push(n)),
        looks(nodes.push(n), n.id, n.kind, n.name),
{
    let t = nodes.push(n);
    assert forall|x: Seq<char>, kind: Seq<char>, name: Seq<char>|
        looks(nodes, x, kind, name) implies #[trigger] looks(t, x, kind, name) by {
        let i = choose|i: int|
            0 <= i < nodes.len() && (#[trigger] nodes[i]).id == x && nodes[i].kind == kind
                && nodes[i].name == name;
        assert(t[i] == nodes[i]);
    }
    assert(t[nodes.len() as int] == n);
}

/// What the store is once the first decisions are carried out.
spec fn carries(
    v: StoreView,
    w: StoreView,
    conversation: Seq<char>,
    ds: Seq<DecisionView>,
    ids: Seq<Seq<char>>,
    n: int,
) -> bool {
    &&& looks_stay(cleared(v, conversation, merge_targets(ds)).nodes, w.nodes)
    &&& forall|j: int|
        0 <= j < n && !parks(#[trigger] ds[j], false) && ds[j].merge_into is None ==> looks(
            w.nodes,
            ids[j],
            ds[j].proposal.kind,
            ds[j].proposal.name,
        )
    &&& forall|i: int|
        0 <= i < w.edges.len() ==> comes_from(#[trigger] w.edges[i], conversation, ds, ids, n)
            || has_edge(other_edges(v, conversation), edge_key(w.edges[i]))
    &&& forall|key: (Seq<char>, Seq<char>, Seq<char>)|
        has_edge(other_edges(v, conversation), key) ==> #[trigger] has_edge(w.edges, key)
}

proof fn lemma_comes_from_more(
    e: EdgeView,
    conversation: Seq<char>,
    ds: Seq<DecisionView>,
    ids: Seq<Seq<char>>,
    m: int,
    n: int,
)
    requires
        m <= n,
        comes_from(e, conversation, ds, ids, m),
    ensures
        comes_from(e, conversation, ds, ids, n),
{
    let j = choose|j: int|
        0 <= j < m && !parks(#[trigger] ds[j], false) && edge_key(e) == decided_key(
            conversation,
            ds[j],
            ids[j],
        );
    assert(!parks(ds[j], false));
}

proof fn lemma_carries(
    v: StoreView,
    conversation: Seq<char>,
    ds: Seq<DecisionView>,
    ids: Seq<Seq<char>>,
    now: Seq<char>,
    n: nat,
)
    requires
        n <= ds.len(),
        ids.len() == ds.len(),
    ensures
        carried_out(v, conversation, ds, ids, now, n) matches Ok(w) ==> carries(
            v,
            w,
            conversation,
            ds,
            ids,
            n as int,
        ),
    decreases n,
{
    if n == 0 {
        let w = cleared(v, conversation, merge_targets(ds));
        assert forall|i: int| 0 <= i < w.edges.len() implies has_edge(
            other_edges(v, conversation),
            edge_key(#[trigger] w.edges[i]),
        ) by {
            assert(other_edges(v, conversation)[i] == w.edges[i]);
        }
    } else {
        let k = n - 1;
        lemma_carries(v, conversation, ds, ids, now, k as nat);
        match carried_out(v, conversation, ds, ids, now, k as nat) {
            Err(_) => {},
            Ok(u) => {
                let d = ds[k];
                if upsert_error(u, conversation, d, ids[k], false) is None {
                    let w = upserted(u, conversation, d, ids[k], now, false, false);
                    let base = cleared(v, conversation, merge_targets(ds)).nodes;
                    if !parks(d, false) {
                        match d.merge_into {
                            Some(id) => {
                                lemma_touched_looks(u.nodes, id, now);
                            },
                            None => {
                                assert(w.nodes == u.nodes.push(w.nodes.last()));
                                lemma_pushed_looks(u.nodes, w.nodes.last());
                            },
                        }
                        lemma_link_step(u.edges, conversation, d, ids[k]);
                    }
                    assert(looks_stay(u.nodes, w.nodes));
                    assert forall|i: int| 0 <= i < w.edges.len() implies comes_from(
                        #[trigger] w.edges[i],
                        conversation,
                        ds,
                        ids,
                        n as int,
                    ) || has_edge(other_edges(v, conversation), edge_key(w.edges[i])) by {
                        let key = decided_key(conversation, d, ids[k]);
                        if !parks(d, false) && edge_key(w.edges[i]) == key {
                            assert(!parks(ds[k], false));
                        } else {
                            assert(w.edges[i] == u.edges[i]);
                            if comes_from(u.edges[i], conversation, ds, ids, k) {
                                lemma_comes_from_more(
                                    w.edges[i],
                                    conversation,
                                    ds,
                                    ids,
                                    k,
                                    n as int,
                                );
                            }
                        }
                    }
                    assert forall|key: (Seq<char>, Seq<char>, Seq<char>)|
                        has_edge(other_edges(v, conversation), key) implies #[trigger] has_edge(
                        w.edges,
                        key,
                    ) by {
                        assert(has_edge(u.edges, key));
                        let m = choose|m: int|
                            0 <= m < u.edges.len() && edge_key(#[trigger] u.edges[m]) == key;
                        assert(edge_key(w.edges[m]) == key);
                    }
                }
            },
        }
    }
}

/// Decisions that merge only into nodes that are there, and have unused names for
/// new ones, can be carried out.
proof fn lemma_can_be_carried_out(
    v: StoreView,
    conversation: Seq<char>,
    ds: Seq<DecisionView>,
    ids: Seq<Seq<char>>,
    now: Seq<char>,
    n: nat,
)
    requires
        sound(v),
        is_conversation(v.nodes, conversation),
        n <= ds.len(),
        ids.len() == ds.len(),
        v.next_parked + n <= u64::MAX,
        unused(v.nodes, ids),
        forall|j: int|
            0 <= j < ds.len() && merges(#[trigger] ds[j]) ==> has_node(
                v.nodes,
                ds[j].merge_into->0,
            ),
    ensures
        carried_out(v, conversation, ds, ids, now, n) matches Ok(w) && (forall|x: Seq<char>| #[trigger]
            has_node(w.nodes, x) ==> has_node(v.nodes, x) || ids.take(n as int).contains(x)),
    decreases n,
{
    let spared = merge_targets(ds);
    let base = cleared(v, conversation, spared);
    let keep_node = |m: NodeView| !dropped(v, conversation, spared, m.id);
    if n == 0 {
        lemma_kept_members(v.nodes, keep_node);
        assert forall|x: Seq<char>| #[trigger] has_node(base.nodes, x) implies has_node(
            v.nodes,
            x,
        ) by {
            let i = choose|i: int| 0 <= i < base.nodes.len() && (#[trigger] base.nodes[i]).id == x;
            assert(base.nodes.contains(base.nodes[i]));
            let k = choose|k: int| 0 <= k < v.nodes.len() && v.nodes[k] == base.nodes[i];
            assert(v.nodes[k].id == x);
        }
    } else {
        let k = n - 1;
        lemma_can_be_carried_out(v, conversation, ds, ids, now, k as nat);
        lemma_carried_out_sound(v, conversation, ds, ids, now, k as nat);
        lemma_carries(v, conversation, ds, ids, now, k as nat);
        let u = carried_out(v, conversation, ds, ids, now, k as nat)->Ok_0;
        let d = ds[k];
        assert(is_conversation(u.nodes, conversation));
        assert(has_node(u.nodes, conversation)) by {
            let i = choose|i: int|
                0 <= i < u.nodes.len() && (#[trigger] u.nodes[i]).id == conversation
                    && u.nodes[i].kind == "conversation"@;
            assert(u.nodes[i].id == conversation);
        }
        if merges(d) {
            let x = d.merge_into->0;
            lemma_target_is_kept(v, conversation, ds, k);
            let look = lemma_has_look(base.nodes, x);
            assert(looks(u.nodes, x, look.0, look.1));
            assert(has_node(u.nodes, x));
        } else if !parks(d, false) {
            assert(!has_node(u.nodes, ids[k])) by {
                if has_node(u.nodes, ids[k]) {
                    assert(!has_node(v.nodes, ids[k]));
                    let j = choose|j: int|
                        0 <= j < ids.take(k).len() && ids.take(k)[j] == ids[k];
                    assert(ids[j] == ids[k]);
                }
            }
        }
        assert(upsert_error(u, conversation, d, ids[k], false) is None);
        let w = upserted(u, conversation, d, ids[k], now, false, false);
        assert forall|x: Seq<char>| #[trigger] has_node(w.nodes, x) implies has_node(v.nodes, x)
            || ids.take(n as int).contains(x) by {
            if !parks(d, false) && d.merge_into is Some {
                lemma_touched(u.nodes, d.merge_into->0, now);
            }
            if has_node(u.nodes, x) {
                if ids.take(k).contains(x) {
                    let j = choose|j: int| 0 <= j < ids.take(k).len() && ids.take(k)[j] == x;
                    assert(ids.take(n as int)[j] == x);
                }
            } else {
                let i = choose|i: int| 0 <= i < w.nodes.len() && (#[trigger] w.nodes[i]).id == x;
                if i < u.nodes.len() {
                    assert(u.nodes[i].id == x);
                }
                assert(ids.take(n as int)[k] == ids[k]);
            }
        }
    }
}

/// A node that a decision merges into is not cleared.
proof fn lemma_target_is_kept(
    v: StoreView,
    conversation: Seq<char>,
    ds: Seq<DecisionView>,
    k: int,
)
    requires
        0 <= k < ds.len(),
        merges(ds[k]),
        has_node(v.nodes, ds[k].merge_into->0),
    ensures
        has_node(cleared(v, conversation, merge_targets(ds)).nodes, ds[k].merge_into->0),
        looks_of_kept(v, conversation, ds, ds[k].merge_into->0),
{
    let x = ds[k].merge_into->0;
    let p = |d: DecisionView| merges(d);
    let f = |d: DecisionView| d.merge_into->0;
    lemma_kept_members(ds, p);
    assert(ds.contains(ds[k]) && p(ds[k]));
    assert(kept(ds, p).contains(ds[k]));
    let m = choose|m: int| 0 <= m < kept(ds, p).len() && kept(ds, p)[m] == ds[k];
    assert(merge_targets(ds)[m] == x);
    lemma_kept_looks(v, conversation, merge_targets(ds), x);
    let look = lemma_has_look(v.nodes, x);
    let base = cleared(v, conversation, merge_targets(ds)).nodes;
    assert(looks(base, x, look.0, look.1));
    let i = choose|i: int|
        0 <= i < base.len() && (#[trigger] base[i]).id == x && base[i].kind == look.0
            && base[i].name == look.1;
    assert(base[i].id == x);
}

/// Whether the clearing leaves the named node with its kind and name.
spec fn looks_of_kept(
    v: StoreView,
    conversation: Seq<char>,
    ds: Seq<DecisionView>,
    x: Seq<char>,
) -> bool {
    forall|kind: Seq<char>, name: Seq<char>|
        looks(v.nodes, x, kind, name) ==> #[trigger] looks(
            cleared(v, conversation, merge_targets(ds)).nodes,
            x,
            kind,
            name,
        )
}

proof fn lemma_kept_looks(
    v: StoreView,
    conversation: Seq<char>,
    spared: Seq<Seq<char>>,
    x: Seq<char>,
)
    requires
        !dropped(v, conversation, spared, x),
    ensures
        forall|kind: Seq<char>, name: Seq<char>|
            looks(v.nodes, x, kind, name) ==> #[trigger] looks(
                cleared(v, conversation, spared).nodes,
                x,
                kind,
                name,
            ),
{
    let base = cleared(v, conversation, spared).nodes;
    let keep_node = |m: NodeView| !dropped(v, conversation, spared, m.id);
    lemma_kept_members(v.nodes, keep_node);
    assert forall|kind: Seq<char>, name: Seq<char>| looks(v.nodes, x, kind, name) implies #[trigger] looks(
        base,
        x,
        kind,
        name,
    ) by {
        let i = choose|i: int|
            0 <= i < v.nodes.len() && (#[trigger] v.nodes[i]).id == x && v.nodes[i].kind == kind
                && v.nodes[i].name == name;
        assert(v.nodes.contains(v.nodes[i]) && keep_node(v.nodes[i]));
        assert(base.contains(v.nodes[i]));
        let m = choose|m: int| 0 <= m < base.len() && base[m] == v.nodes[i];
        assert(base[m].id == x);
    }
}

// Laws -------------------------------------------------------------------

proof fn lemma_other_end(v: StoreView, conversation: Seq<char>, spared: Seq<Seq<char>>, e: EdgeView)
    requires
        has_edge(other_edges(v, conversation), edge_key(e)),
    ensures
        !dropped(v, conversation, spared, e.dst),
        has_edge(v.edges, edge_key(e)),
{
    let rest = other_edges(v, conversation);
    let i = choose|i: int| 0 <= i < rest.len() && edge_key(#[trigger] rest[i]) == edge_key(e);
    assert(touches(rest[i], e.dst));
    lemma_kept_members(v.edges, |e: EdgeView| !derived_from(e, conversation));
    assert(rest.contains(rest[i]));
    let k = choose|k: int| 0 <= k < v.edges.len() && v.edges[k] == rest[i];
    assert(edge_key(v.edges[k]) == edge_key(e));
}

proof fn lemma_links(
    v: StoreView,
    conversation: Seq<char>,
    key: (Seq<char>, Seq<char>, Seq<char>),
    kind: Seq<char>,
    name: Seq<char>,
)
    requires
        has_edge(v.edges, key),
        key.0 == conversation,
        looks(v.nodes, key.1, kind, name),
    ensures
        links_to(v, conversation, key.2, kind, name),
{
    let i = choose|i: int| 0 <= i < v.edges.len() && edge_key(#[trigger] v.edges[i]) == key;
    assert(v.edges[i].src == conversation);
}

/// Extracting a conversation again, with the same proposals and each of them
/// about the node that it was linked to before, always succeeds. Afterwards the
/// conversation is linked by the same kinds of edges to nodes of the same kinds
/// with the same names, and to no others. Nodes that only this conversation links
/// can be merged into like any others.
pub proof fn extracting_again_gives_the_same_links(
    v: StoreView,
    conversation: Seq<char>,
    first: Seq<DecisionView>,
    first_ids: Seq<Seq<char>>,
    earlier: Seq<char>,
    second: Seq<DecisionView>,
    second_ids: Seq<Seq<char>>,
    now: Seq<char>,
)
    requires
        sound(v),
        first_ids.len() == first.len(),
        second.len() == first.len(),
        second_ids.len() == second.len(),
        v.next_parked + first.len() + second.len() <= u64::MAX,
        extracted(v, conversation, first, first_ids, earlier) matches Ok(w) && unused(
            w.nodes,
            second_ids,
        ) && (forall|i: int|
            0 <= i < first.len() ==> decides_again(
                w.nodes,
                #[trigger] first[i],
                first_ids[i],
                second[i],
            )),
    ensures
        ({
            let w = extracted(v, conversation, first, first_ids, earlier)->Ok_0;
            extracted(w, conversation, second, second_ids, now) matches Ok(u) && sound(u) && (
            forall|edge_kind: Seq<char>, kind: Seq<char>, name: Seq<char>| #[trigger]
                links_to(u, conversation, edge_kind, kind, name) <==> links_to(
                    w,
                    conversation,
                    edge_kind,
                    kind,
                    name,
                ))
        }),
{
    let w = extracted(v, conversation, first, first_ids, earlier)->Ok_0;
    let w0 = carried_out(v, conversation, first, first_ids, earlier, first.len())->Ok_0;
    let n = first.len();
    extraction_replaces_what_was_derived(v, conversation, first, first_ids, earlier);
    lemma_carried_out_sound(v, conversation, first, first_ids, earlier, n);
    lemma_carries(v, conversation, first, first_ids, earlier, n);
    lemma_touched_looks(w0.nodes, conversation, earlier);
    assert(is_conversation(w.nodes, conversation));
    assert(w.next_parked <= v.next_parked + n);
    assert forall|j: int| 0 <= j < second.len() && merges(#[trigger] second[j]) implies has_node(
        w.nodes,
        second[j].merge_into->0,
    ) by {
        assert(decides_again(w.nodes, first[j], first_ids[j], second[j]));
    }
    lemma_can_be_carried_out(w, conversation, second, second_ids, now, n);
    lemma_carries(w, conversation, second, second_ids, now, n);
    extraction_replaces_what_was_derived(w, conversation, second, second_ids, now);
    let u0 = carried_out(w, conversation, second, second_ids, now, n)->Ok_0;
    lemma_touched_looks(u0.nodes, conversation, now);
    let u = extracted(w, conversation, second, second_ids, now)->Ok_0;
    let base = cleared(w, conversation, merge_targets(second)).nodes;
    assert(looks_stay(base, u.nodes)) by {
        assert forall|x: Seq<char>, kind: Seq<char>, name: Seq<char>|
            looks(base, x, kind, name) implies #[trigger] looks(u.nodes, x, kind, name) by {
            assert(looks(u0.nodes, x, kind, name));
        }
    }
    assert forall|edge_kind: Seq<char>, kind: Seq<char>, name: Seq<char>| #[trigger]
        links_to(u, conversation, edge_kind, kind, name) <==> links_to(
            w,
            conversation,
            edge_kind,
            kind,
            name,
        ) by {
        if links_to(w, conversation, edge_kind, kind, name) {
            let i = choose|i: int|
                0 <= i < w.edges.len() && (#[trigger] w.edges[i]).src == conversation
                    && w.edges[i].kind == edge_kind && looks(w.nodes, w.edges[i].dst, kind, name);
            let e = w.edges[i];
            if derived_from(e, conversation) {
                assert(comes_from(e, conversation, first, first_ids, n as int));
                let j = choose|j: int|
                    0 <= j < n && !parks(#[trigger] first[j], false) && edge_key(e) == decided_key(
                        conversation,
                        first[j],
                        first_ids[j],
                    );
                lemma_decision_again(
                    v,
                    w0,
                    w,
                    u0,
                    u,
                    conversation,
                    first,
                    first_ids,
                    second,
                    second_ids,
                    j,
                );
                assert(!parks(second[j], false));
                let key = decided_key(conversation, second[j], second_ids[j]);
                assert(has_edge(u.edges, key));
                assert(looks(u.nodes, key.1, kind, name));
                lemma_links(u, conversation, key, kind, name);
            } else {
                let keep = |e: EdgeView| !derived_from(e, conversation);
                lemma_kept_members(w.edges, keep);
                assert(w.edges.contains(e) && keep(e));
                assert(other_edges(w, conversation).contains(e));
                let m = choose|m: int|
                    0 <= m < other_edges(w, conversation).len() && other_edges(
                        w,
                        conversation,
                    )[m] == e;
                assert(edge_key(other_edges(w, conversation)[m]) == edge_key(e));
                lemma_other_end(w, conversation, merge_targets(second), e);
                lemma_kept_looks(w, conversation, merge_targets(second), e.dst);
                assert(looks(base, e.dst, kind, name));
                assert(has_edge(u.edges, edge_key(e)));
                lemma_links(u, conversation, edge_key(e), kind, name);
            }
        }
        if links_to(u, conversation, edge_kind, kind, name) {
            let i = choose|i: int|
                0 <= i < u.edges.len() && (#[trigger] u.edges[i]).src == conversation
                    && u.edges[i].kind == edge_kind && looks(u.nodes, u.edges[i].dst, kind, name);
            let e = u.edges[i];
            assert(u.edges == u0.edges);
            if comes_from(e, conversation, second, second_ids, n as int) {
                let j = choose|j: int|
                    0 <= j < n && !parks(#[trigger] second[j], false) && edge_key(e)
                        == decided_key(conversation, second[j], second_ids[j]);
                assert(decides_again(w.nodes, first[j], first_ids[j], second[j]));
                lemma_decision_again(
                    v,
                    w0,
                    w,
                    u0,
                    u,
                    conversation,
                    first,
                    first_ids,
                    second,
                    second_ids,
                    j,
                );
                let key = decided_key(conversation, first[j], first_ids[j]);
                assert(!parks(first[j], false));
                assert(has_edge(w.edges, key));
                assert(looks(w.nodes, key.1, kind, name)) by {
                    let m = choose|m: int|
                        0 <= m < w.edges.len() && edge_key(#[trigger] w.edges[m]) == key;
                    assert(has_node(w.nodes, w.edges[m].dst));
                    let look = lemma_has_look(w.nodes, key.1);
                    assert(looks(u.nodes, e.dst, look.0, look.1));
                    lemma_one_look(u.nodes, e.dst, kind, name, look.0, look.1);
                }
                lemma_links(w, conversation, key, kind, name);
            } else {
                assert(has_edge(other_edges(w, conversation), edge_key(e)));
                lemma_other_end(w, conversation, merge_targets(second), e);
                lemma_kept_looks(w, conversation, merge_targets(second), e.dst);
                let m = choose|m: int|
                    0 <= m < w.edges.len() && edge_key(#[trigger] w.edges[m]) == edge_key(e);
                assert(has_node(w.nodes, w.edges[m].dst));
                let look = lemma_has_look(w.nodes, e.dst);
                assert(looks(base, e.dst, look.0, look.1));
                assert(looks(u.nodes, e.dst, look.0, look.1));
                lemma_one_look(u.nodes, e.dst, kind, name, look.0, look.1);
                lemma_links(w, conversation, edge_key(e), kind, name);
            }
        }
    }
}

/// The node that a decision links the second time looks like the one that it
/// linked the first time.
proof fn lemma_decision_again(
    v: StoreView,
    w0: StoreView,
    w: StoreView,
    u0: StoreView,
    u: StoreView,
    conversation: Seq<char>,
    first: Seq<DecisionView>,
    first_ids: Seq<Seq<char>>,
    second: Seq<DecisionView>,
    second_ids: Seq<Seq<char>>,
    j: int,
)
    requires
        sound(w),
        0 <= j < first.len(),
        second.len() == first.len(),
        !parks(first[j], false),
        decides_again(w.nodes, first[j], first_ids[j], second[j]),
        carries(v, w0, conversation, first, first_ids, first.len() as int),
        carries(w, u0, conversation, second, second_ids, second.len() as int),
        looks_stay(w0.nodes, w.nodes),
        looks_stay(u0.nodes, u.nodes),
    ensures
        forall|kind: Seq<char>, name: Seq<char>|
            looks(w.nodes, target(first[j], first_ids[j]), kind, name) ==> #[trigger] looks(
                u.nodes,
                target(second[j], second_ids[j]),
                kind,
                name,
            ),
{
    let a = target(first[j], first_ids[j]);
    let b = target(second[j], second_ids[j]);
    let p = first[j].proposal;
    assert(!parks(second[j], false));
    assert forall|kind: Seq<char>, name: Seq<char>| looks(w.nodes, a, kind, name) implies #[trigger] looks(
        u.nodes,
        b,
        kind,
        name,
    ) by {
        match second[j].merge_into {
            Some(x) => {
                assert(merges(second[j]));
                lemma_target_is_kept(w, conversation, second, j);
                assert(looks(w.nodes, x, kind, name));
                assert(looks(
                    cleared(w, conversation, merge_targets(second)).nodes,
                    x,
                    kind,
                    name,
                ));
                assert(looks(u0.nodes, x, kind, name));
            },
            None => {
                assert(looks(w0.nodes, a, p.kind, p.name));
                assert(looks(w.nodes, a, p.kind, p.name));
                lemma_one_look(w.nodes, a, kind, name, p.kind, p.name);
                assert(looks(u0.nodes, b, p.kind, p.name));
            },
        }
    }
}

/// However many messages an edge has, once it is found again it has no more than
/// there is room for.
pub proof fn edges_found_again_have_few_messages(e: EdgeView, ids: Seq<Seq<char>>)
    ensures
        messages_in(found_again(e, ids).props).len() <= MAX_EDGE_MESSAGES,
{
    if e.props is Null || e.props is Object {
        findings_add_up(e.props, ids, Seq::empty());
    }
    lemma_few_merged(messages_in(e.props), ids);
}

proof fn lemma_few_merged(known: Seq<Seq<char>>, ids: Seq<Seq<char>>)
    ensures
        merged_ids(known, ids).len() <= MAX_EDGE_MESSAGES,
    decreases ids.len(),
{
    if ids.len() > 0 {
        lemma_few_merged(known, ids.drop_last());
    }
}

} // verus!
