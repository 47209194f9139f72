//! What every operation on a workspace keeps.

use crate::ingest::import::{checksum, taken_in, WorkspaceView};
use crate::ingest::parser::{conversation_props, ConversationView};
use crate::ingest::proposal::DecisionView;
use crate::json::JsonTree;
use crate::seqs::{distinct_by, kept, lemma_kept_distinct, lemma_kept_members};
use crate::store::derive::upsert_error;
use crate::store::extract::{
    approval_links_and_unparks, approved, extracted, extraction_replaces_what_was_derived,
    upserting_keeps_soundness,
};
use crate::store::queue::{
    begun, changed, every_row, has_row, imported_again, missing_rows, new_row, of_conversation,
    restarted, ExtractionView,
};
use crate::store::rebuild::{wiped, wiping_keeps_the_conversations};
use crate::store::sources::{
    goes_with, links, no_indexed_conversation, noted, purged, purged_links, purged_rows,
    purging_keeps_what_others_hold, seeded, LinkView,
};
use crate::store::{has_node, is_conversation, sound, NodeView, ParkedView};
use vstd::prelude::*;

verus! {

/// Whether a workspace is intact: its graph is sound, no conversation has two
/// rows in the queue, every row is that of a conversation in the graph, and no
/// source is noted twice for a conversation.
pub open spec fn intact(w: WorkspaceView) -> bool {
    &&& sound(w.store)
    &&& distinct_by(w.queue, |r: ExtractionView| r.conversation_id)
    &&& queued_conversations(w.queue, w.store.nodes)
    &&& distinct_by(w.sources, |l: LinkView| (l.conversation_id, l.source_id))
}

/// Whether every row is that of a conversation in the graph.
pub open spec fn queued_conversations(rows: Seq<ExtractionView>, nodes: Seq<NodeView>) -> bool {
    forall|i: int|
        0 <= i < rows.len() ==> is_conversation(nodes, (#[trigger] rows[i]).conversation_id)
}

// The queue --------------------------------------------------------------

/// A change of rows that leaves each of them to its conversation keeps the
/// workspace intact.
pub proof fn changing_rows_keeps_the_workspace_intact(
    w: WorkspaceView,
    wanted: spec_fn(ExtractionView) -> bool,
    change: spec_fn(ExtractionView) -> ExtractionView,
)
    requires
        intact(w),
        forall|r: ExtractionView| (#[trigger] change(r)).conversation_id == r.conversation_id,
    ensures
        intact(WorkspaceView { queue: changed(w.queue, wanted, change), ..w }),
{
    let after = changed(w.queue, wanted, change);
    let key = |r: ExtractionView| r.conversation_id;
    assert forall|i: int| 0 <= i < after.len() implies (#[trigger] after[i]).conversation_id
        == w.queue[i].conversation_id by {
        assert(change(w.queue[i]).conversation_id == w.queue[i].conversation_id);
    }
    assert forall|i: int, j: int| 0 <= i < j < after.len() implies key(#[trigger] after[i]) != key(
        #[trigger] after[j],
    ) by {
        assert(key(w.queue[i]) != key(w.queue[j]));
    }
}

/// Beginning the extraction of a conversation keeps the workspace intact.
pub proof fn beginning_keeps_the_workspace_intact(
    w: WorkspaceView,
    id: Seq<char>,
    model: Seq<char>,
    now: Seq<char>,
)
    requires
        intact(w),
        is_conversation(w.store.nodes, id),
    ensures
        intact(
            WorkspaceView {
                queue: if has_row(w.queue, id) {
                    changed(
                        w.queue,
                        of_conversation(id),
                        |r: ExtractionView| begun(r, model, now),
                    )
                } else {
                    w.queue.push(begun(new_row(id, "pending"@, ""@), model, now))
                },
                ..w
            },
        ),
{
    if has_row(w.queue, id) {
        changing_rows_keeps_the_workspace_intact(
            w,
            of_conversation(id),
            |r: ExtractionView| begun(r, model, now),
        );
    } else {
        lemma_pushed_row(w, begun(new_row(id, "pending"@, ""@), model, now));
    }
}

proof fn lemma_pushed_row(w: WorkspaceView, r: ExtractionView)
    requires
        intact(w),
        is_conversation(w.store.nodes, r.conversation_id),
        !has_row(w.queue, r.conversation_id),
    ensures
        intact(WorkspaceView { queue: w.queue.push(r), ..w }),
{
    let after = w.queue.push(r);
    let key = |r: ExtractionView| r.conversation_id;
    assert forall|i: int, j: int| 0 <= i < j < after.len() implies key(#[trigger] after[i]) != key(
        #[trigger] after[j],
    ) by {
        if j < w.queue.len() {
            assert(key(w.queue[i]) != key(w.queue[j]));
        } else {
            assert(w.queue[i].conversation_id != r.conversation_id);
        }
    }
}

// Importing and forgetting -----------------------------------------------

proof fn lemma_seeded(
    nodes: Seq<NodeView>,
    id: Seq<char>,
    title: Seq<char>,
    props: JsonTree,
    now: Seq<char>,
)
    requires
        distinct_by(nodes, |n: NodeView| n.id),
        has_node(nodes, id) ==> is_conversation(nodes, id),
    ensures
        ({
            let after = seeded(nodes, id, title, props, now);
            &&& distinct_by(after, |n: NodeView| n.id)
            &&& is_conversation(after, id)
            &&& forall|x: Seq<char>| has_node(nodes, x) ==> #[trigger] has_node(after, x)
            &&& forall|x: Seq<char>|
                is_conversation(nodes, x) ==> #[trigger] is_conversation(after, x)
        }),
{
    let after = seeded(nodes, id, title, props, now);
    let key = |n: NodeView| n.id;
    assert forall|i: int| 0 <= i < nodes.len() implies after[i].id == (#[trigger] nodes[i]).id
        && after[i].kind == nodes[i].kind by {}
    assert forall|i: int, j: int| 0 <= i < j < after.len() implies key(#[trigger] after[i]) != key(
        #[trigger] after[j],
    ) by {
        if j < nodes.len() {
            assert(key(nodes[i]) != key(nodes[j]));
        } else {
            assert(nodes[i].id != id);
        }
    }
    assert forall|x: Seq<char>| has_node(nodes, x) implies #[trigger] has_node(after, x) by {
        let i = choose|i: int| 0 <= i < nodes.len() && (#[trigger] nodes[i]).id == x;
        assert(after[i].id == x);
    }
    assert forall|x: Seq<char>| is_conversation(nodes, x) implies #[trigger] is_conversation(
        after,
        x,
    ) by {
        let i = choose|i: int|
            0 <= i < nodes.len() && (#[trigger] nodes[i]).id == x && nodes[i].kind
                == "conversation"@;
        assert(after[i].id == x);
    }
    if !has_node(nodes, id) {
        assert(after[nodes.len() as int].id == id);
    }
}

proof fn lemma_noted(all: Seq<LinkView>, l: LinkView)
    requires
        distinct_by(all, |l: LinkView| (l.conversation_id, l.source_id)),
    ensures
        distinct_by(noted(all, l), |l: LinkView| (l.conversation_id, l.source_id)),
{
    let after = noted(all, l);
    let key = |l: LinkView| (l.conversation_id, l.source_id);
    assert forall|i: int, j: int| 0 <= i < j < after.len() implies key(#[trigger] after[i]) != key(
        #[trigger] after[j],
    ) by {
        if j < all.len() {
            assert(key(all[i]) != key(all[j]));
            assert(key(after[i]) == key(all[i]));
            assert(key(after[j]) == key(all[j]));
        } else {
            assert(!links(all[i], l.conversation_id, l.source_id));
        }
    }
}

/// Taking a conversation in keeps the workspace intact, unless its name is that
/// of a node that is no conversation.
pub proof fn importing_keeps_the_workspace_intact(
    w: WorkspaceView,
    c: ConversationView,
    source: Seq<char>,
    stamp: Seq<char>,
    now: Seq<char>,
)
    requires
        intact(w),
        has_node(w.store.nodes, c.id) ==> is_conversation(w.store.nodes, c.id),
    ensures
        intact(taken_in(w, c, source, stamp, now)),
{
    let hash = checksum(c.id, stamp);
    let after = taken_in(w, c, source, stamp, now);
    lemma_seeded(w.store.nodes, c.id, c.title, conversation_props(c, hash), now);
    let seeded_only = WorkspaceView { store: after.store, ..w };
    assert(intact(seeded_only)) by {
        let key = |p: ParkedView| p.id;
        assert(distinct_by(after.store.parked, key));
        assert forall|i: int| 0 <= i < after.store.edges.len() implies has_node(
            after.store.nodes,
            (#[trigger] after.store.edges[i]).src,
        ) && has_node(after.store.nodes, after.store.edges[i].dst) by {
            assert(has_node(w.store.nodes, w.store.edges[i].src));
        }
    }
    if has_row(w.queue, c.id) {
        changing_rows_keeps_the_workspace_intact(
            seeded_only,
            of_conversation(c.id),
            |r: ExtractionView| imported_again(r, hash),
        );
    } else {
        lemma_pushed_row(seeded_only, new_row(c.id, "pending"@, hash));
    }
    lemma_noted(
        w.sources,
        LinkView {
            conversation_id: c.id,
            source_id: source,
            update_time: c.update_time,
            turn_count: c.messages.len() as u64,
        },
    );
}

/// Forgetting a source keeps the workspace intact.
pub proof fn forgetting_keeps_the_workspace_intact(w: WorkspaceView, source: Seq<char>)
    requires
        intact(w),
        no_indexed_conversation(w.store),
    ensures
        intact(
            WorkspaceView {
                store: purged(w.store, w.sources, source),
                queue: purged_rows(w.queue, w.sources, source),
                sources: purged_links(w.sources, source),
            },
        ),
{
    let nodes = purged(w.store, w.sources, source).nodes;
    let stays = |r: ExtractionView| !goes_with(w.sources, r.conversation_id, source);
    let rows = purged_rows(w.queue, w.sources, source);
    purging_keeps_what_others_hold(w.store, w.sources, source);
    lemma_kept_distinct(w.queue, stays, |r: ExtractionView| r.conversation_id);
    lemma_kept_members(w.queue, stays);
    lemma_kept_distinct(
        w.sources,
        |l: LinkView| l.source_id != source,
        |l: LinkView| (l.conversation_id, l.source_id),
    );
    assert forall|i: int| 0 <= i < rows.len() implies is_conversation(
        nodes,
        (#[trigger] rows[i]).conversation_id,
    ) by {
        let id = rows[i].conversation_id;
        assert(kept(w.queue, stays).contains(rows[i]));
        assert(stays(rows[i]));
        let k = choose|k: int| 0 <= k < w.queue.len() && w.queue[k] == rows[i];
        assert(is_conversation(w.store.nodes, w.queue[k].conversation_id));
        lemma_conversation_stays(w.store.nodes, nodes, id);
    }
}

proof fn lemma_conversation_stays(before: Seq<NodeView>, after: Seq<NodeView>, id: Seq<char>)
    requires
        is_conversation(before, id),
        forall|i: int|
            0 <= i < before.len() && (#[trigger] before[i]).id == id && before[i].kind
                == "conversation"@ ==> after.contains(before[i]),
    ensures
        is_conversation(after, id),
{
    let i = choose|i: int|
        0 <= i < before.len() && (#[trigger] before[i]).id == id && before[i].kind
            == "conversation"@;
    assert(after.contains(before[i]));
    let k = choose|k: int| 0 <= k < after.len() && after[k] == before[i];
    assert(after[k].id == id);
}

// Deriving ---------------------------------------------------------------

/// Extracting a conversation keeps the workspace intact.
pub proof fn extracting_keeps_the_workspace_intact(
    w: WorkspaceView,
    conversation: Seq<char>,
    ds: Seq<DecisionView>,
    ids: Seq<Seq<char>>,
    now: Seq<char>,
)
    requires
        intact(w),
        ids.len() == ds.len(),
        w.store.next_parked + ds.len() <= u64::MAX,
    ensures
        extracted(w.store, conversation, ds, ids, now) matches Ok(s) ==> intact(
            WorkspaceView { store: s, ..w },
        ),
{
    extraction_replaces_what_was_derived(w.store, conversation, ds, ids, now);
}

/// Approving a parked item keeps the workspace intact.
pub proof fn approving_keeps_the_workspace_intact(
    w: WorkspaceView,
    extraction_id: u64,
    conversation: Seq<char>,
    d: DecisionView,
    new_id: Seq<char>,
    now: Seq<char>,
)
    requires
        intact(w),
        is_conversation(w.store.nodes, conversation),
        w.store.next_parked < u64::MAX,
    ensures
        approved(w.store, extraction_id, conversation, d, new_id, now) matches Ok(s) ==> intact(
            WorkspaceView { store: s, ..w },
        ),
{
    approval_links_and_unparks(w.store, extraction_id, conversation, d, new_id, now);
    if upsert_error(w.store, conversation, d, new_id, true) is None {
        upserting_keeps_soundness(w.store, conversation, d, new_id, now, true, true);
    }
}

/// Starting the graph anew keeps the workspace intact.
pub proof fn rebuilding_keeps_the_workspace_intact(w: WorkspaceView)
    requires
        intact(w),
    ensures
        intact(
            WorkspaceView {
                store: wiped(w.store),
                queue: changed(w.queue, every_row(), |r: ExtractionView| restarted(r))
                    + missing_rows(wiped(w.store).nodes, w.queue),
                ..w
            },
        ),
{
    let nodes = wiped(w.store).nodes;
    let old_rows = changed(w.queue, every_row(), |r: ExtractionView| restarted(r));
    let wanted = |n: NodeView| n.kind == "conversation"@ && !has_row(w.queue, n.id);
    let added = kept(nodes, wanted);
    let new_rows = missing_rows(nodes, w.queue);
    let rows = old_rows + new_rows;
    let key = |r: ExtractionView| r.conversation_id;
    wiping_keeps_the_conversations(w.store);
    lemma_kept_distinct(nodes, wanted, |n: NodeView| n.id);
    lemma_kept_members(nodes, wanted);
    assert forall|i: int| 0 <= i < old_rows.len() implies is_conversation(
        nodes,
        (#[trigger] old_rows[i]).conversation_id,
    ) && has_row(w.queue, old_rows[i].conversation_id) by {
        assert(old_rows[i].conversation_id == w.queue[i].conversation_id);
        lemma_conversation_stays(w.store.nodes, nodes, w.queue[i].conversation_id);
    }
    assert forall|i: int| 0 <= i < new_rows.len() implies is_conversation(
        nodes,
        (#[trigger] new_rows[i]).conversation_id,
    ) && !has_row(w.queue, new_rows[i].conversation_id) by {
        assert(new_rows[i].conversation_id == added[i].id);
        assert(added.contains(added[i]));
        assert(wanted(added[i]));
        let k = choose|k: int| 0 <= k < nodes.len() && nodes[k] == added[i];
        assert(nodes[k].id == added[i].id);
    }
    assert forall|i: int, j: int| 0 <= i < j < rows.len() implies key(#[trigger] rows[i]) != key(
        #[trigger] rows[j],
    ) by {
        let n = old_rows.len();
        if j < n {
            assert(key(w.queue[i]) != key(w.queue[j]));
            assert(rows[i] == old_rows[i] && rows[j] == old_rows[j]);
        } else if i < n {
            assert(rows[i] == old_rows[i] && rows[j] == new_rows[j - n]);
        } else {
            assert(rows[i] == new_rows[i - n] && rows[j] == new_rows[j - n]);
            let name = |n: NodeView| n.id;
            assert(name(added[i - n]) != name(added[j - n]));
        }
    }
    assert forall|i: int| 0 <= i < rows.len() implies is_conversation(
        nodes,
        (#[trigger] rows[i]).conversation_id,
    ) by {
        if i < old_rows.len() {
            assert(rows[i] == old_rows[i]);
        } else {
            assert(rows[i] == new_rows[i - old_rows.len()]);
        }
    }
}

} // verus!
