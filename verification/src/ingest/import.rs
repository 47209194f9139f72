//! Taking an export in.

use super::parser::{
    conversation_props, conversation_views, newest, newest_update, props_for, scan_export,
    scans_of, ConversationView, ScannedConversation,
};
use crate::archive::{content_hash, hex_text, sha256_of, source_id, source_name};
use crate::double::Double;
use crate::json::{json_list_of_bytes, parse_list, trees, Json, JsonTree};
use crate::store::queue::{enqueue, enqueued, has_row, ExtractionRow, ExtractionView};
use crate::store::sources::{
    holds, links, note_source, noted, purge_source, purged, purged_links, purged_rows, seeded,
    LinkView, SourceLink,
};
use crate::store::{has_node, views, NodeView, Store, StoreView};
use crate::text::texts;
use vstd::prelude::*;
use vstd::utf8::encode_utf8;

verus! {

// Reading ----------------------------------------------------------------

/// An export that was read.
#[derive(Debug)]
pub struct Export {
    /// The name of the source.
    pub source_id: String,
    /// The latest time at which one of its conversations changed, or zero.
    pub newest: Double,
    /// The conversations that are kept.
    pub conversations: Vec<ScannedConversation>,
    /// How many conversations are not.
    pub skipped: usize,
    /// How many conversations there are in all.
    pub total: usize,
}

/// Whether a document has the shape of a conversation: its messages are an object,
/// and it says which of them is the current one.
pub open spec fn is_shaped(conv: JsonTree) -> bool {
    conv.at("mapping"@) is Object && conv.get("current_node"@) is Some
}

/// Whether all documents have the shape of a conversation.
pub open spec fn all_shaped(convs: Seq<JsonTree>) -> bool {
    forall|i: int| 0 <= i < convs.len() ==> is_shaped(#[trigger] convs[i])
}

fn has_shape(conv: &Json) -> (r: bool)
    ensures
        r == is_shaped(conv@),
{
    let mapped = match conv.get("mapping") {
        Some(m) => m.as_object().is_some(),
        None => false,
    };
    mapped && conv.get("current_node").is_some()
}

fn have_shape(convs: &Vec<Json>) -> (r: bool)
    ensures
        r == all_shaped(trees(convs@)),
{
    let mut i: usize = 0;
    while i < convs.len()
        invariant
            i <= convs@.len(),
            forall|k: int| 0 <= k < i ==> is_shaped(#[trigger] trees(convs@)[k]),
        decreases convs@.len() - i,
    {
        assert(trees(convs@)[i as int] == convs@[i as int]@);
        if !has_shape(&convs[i]) {
            return false;
        }
        i = i + 1;
    }
    true
}

/// Reads an export from the contents of its file. What is no list of
/// conversations is refused as a whole.
pub fn read_export(data: &[u8]) -> (r: Result<Export, String>)
    ensures
        match (r, json_list_of_bytes(data@)) {
            (Ok(x), Ok(convs)) => {
                &&& all_shaped(convs)
                &&& x.source_id@ == source_name(data@)
                &&& x.newest == newest(convs)
                &&& conversation_views(x.conversations@) == scans_of(convs)
                &&& x.total == convs.len()
                &&& x.conversations@.len() + x.skipped == x.total
            },
            (Err(m), Ok(convs)) => !all_shaped(convs) && m@
                == "Not a conversations export: every entry needs a mapping and a current_node."@,
            (Err(m), Err(e)) => m@ == "Invalid JSON: "@ + e,
            _ => false,
        },
{
    match parse_list(data) {
        Ok(convs) => after_reading_export(data, convs),
        Err(e) => {
            let mut m = "Invalid JSON: ".to_owned();
            m.append(e.as_str());
            Err(m)
        },
    }
}

/// Goes on with the documents that were read from the contents of an export.
pub fn after_reading_export(data: &[u8], convs: Vec<Json>) -> (r: Result<Export, String>)
    ensures
        match r {
            Ok(x) => {
                &&& all_shaped(trees(convs@))
                &&& x.source_id@ == source_name(data@)
                &&& x.newest == newest(trees(convs@))
                &&& conversation_views(x.conversations@) == scans_of(trees(convs@))
                &&& x.total == convs@.len()
                &&& x.conversations@.len() + x.skipped == x.total
            },
            Err(m) => !all_shaped(trees(convs@)) && m@
                == "Not a conversations export: every entry needs a mapping and a current_node."@,
        },
{
    assert(trees(convs@).len() == convs@.len());
    if !have_shape(&convs) {
        return Err(
            "Not a conversations export: every entry needs a mapping and a current_node.".to_owned(),
        );
    }
    let (conversations, skipped) = scan_export(&convs);
    Ok(
        Export {
            source_id: source_id(data),
            newest: newest_update(&convs),
            conversations,
            skipped,
            total: convs.len(),
        },
    )
}

// Taking in --------------------------------------------------------------

/// What is known of conversations: the graph, the queue of extractions, and the
/// sources.
#[derive(Debug)]
pub struct Workspace {
    pub store: Store,
    pub queue: Vec<ExtractionRow>,
    pub sources: Vec<SourceLink>,
}

/// What a workspace holds.
pub ghost struct WorkspaceView {
    pub store: StoreView,
    pub queue: Seq<ExtractionView>,
    pub sources: Seq<LinkView>,
}

impl View for Workspace {
    type V = WorkspaceView;

    open spec fn view(&self) -> WorkspaceView {
        WorkspaceView {
            store: self.store@,
            queue: views(self.queue@),
            sources: views(self.sources@),
        }
    }
}

/// The checksum of a conversation that changed last at the time that is printed
/// as `stamp`.
pub open spec fn checksum(id: Seq<char>, stamp: Seq<char>) -> Seq<char> {
    hex_text(sha256_of(encode_utf8(id) + encode_utf8(stamp)))
}

/// The workspace once the conversation is taken in.
pub open spec fn taken_in(
    w: WorkspaceView,
    c: ConversationView,
    source: Seq<char>,
    stamp: Seq<char>,
    now: Seq<char>,
) -> WorkspaceView {
    let hash = checksum(c.id, stamp);
    WorkspaceView {
        store: StoreView {
            nodes: seeded(w.store.nodes, c.id, c.title, conversation_props(c, hash), now),
            ..w.store
        },
        queue: enqueued(w.queue, c.id, hash),
        sources: noted(
            w.sources,
            LinkView {
                conversation_id: c.id,
                source_id: source,
                update_time: c.update_time,
                turn_count: c.messages.len() as u64,
            },
        ),
    }
}

/// The workspace once the first `n` conversations are taken in.
pub open spec fn all_taken_in(
    w: WorkspaceView,
    cs: Seq<ConversationView>,
    source: Seq<char>,
    stamps: Seq<Seq<char>>,
    now: Seq<char>,
    n: nat,
) -> WorkspaceView
    decreases n,
{
    if n == 0 {
        w
    } else {
        taken_in(
            all_taken_in(w, cs, source, stamps, now, (n - 1) as nat),
            cs[n - 1],
            source,
            stamps[n - 1],
            now,
        )
    }
}

impl Workspace {
    /// Takes a conversation in.
    pub fn import_conversation(
        &mut self,
        c: &ScannedConversation,
        source: &str,
        stamp: &str,
        now: &str,
    )
        ensures
            final(self)@ == taken_in(old(self)@, c@, source@, stamp@, now@),
    {
        let hash = content_hash(c.id.as_str(), stamp);
        let props = props_for(c, hash.as_str());
        assert(c@.messages.len() == c.messages@.len());
        self.store.seed_conversation(c.id.as_str(), c.title.as_str(), &props, now);
        note_source(
            &mut self.sources,
            SourceLink {
                conversation_id: c.id.clone(),
                source_id: source.to_owned(),
                update_time: c.update_time,
                turn_count: c.messages.len() as u64,
            },
        );
        enqueue(&mut self.queue, c.id.as_str(), hash.as_str());
    }

    /// Takes all conversations of a source in. `stamps` has the time at which each
    /// of them changed last, printed in whole seconds.
    pub fn import_all(
        &mut self,
        cs: &Vec<ScannedConversation>,
        source: &str,
        stamps: &Vec<String>,
        now: &str,
    )
        requires
            cs@.len() == stamps@.len(),
        ensures
            final(self)@ == all_taken_in(
                old(self)@,
                conversation_views(cs@),
                source@,
                texts(stamps@),
                now@,
                cs@.len(),
            ),
    {
        let ghost w = self@;
        let ghost all = conversation_views(cs@);
        let ghost times = texts(stamps@);
        let mut i: usize = 0;
        while i < cs.len()
            invariant
                i <= cs@.len(),
                cs@.len() == stamps@.len(),
                all == conversation_views(cs@),
                times == texts(stamps@),
                self@ == all_taken_in(w, all, source@, times, now@, i as nat),
            decreases cs@.len() - i,
        {
            assert(all[i as int] == cs@[i as int]@);
            assert(times[i as int] == stamps@[i as int]@);
            self.import_conversation(&cs[i], source, stamps[i].as_str(), now);
            i = i + 1;
        }
    }

    /// Forgets a source, with the conversations that it alone holds.
    pub fn forget_source(&mut self, source: &str)
        ensures
            final(self)@ == (WorkspaceView {
                store: purged(old(self)@.store, old(self)@.sources, source@),
                queue: purged_rows(old(self)@.queue, old(self)@.sources, source@),
                sources: purged_links(old(self)@.sources, source@),
            }),
    {
        purge_source(&mut self.store, &mut self.queue, &mut self.sources, source);
    }
}

// Laws -------------------------------------------------------------------

/// Whether the conversation is in the graph, in the queue, and known to be in the
/// source.
pub open spec fn is_in(w: WorkspaceView, id: Seq<char>, source: Seq<char>) -> bool {
    has_node(w.store.nodes, id) && has_row(w.queue, id) && holds(w.sources, id, source)
}

proof fn lemma_taken_in(
    w: WorkspaceView,
    c: ConversationView,
    source: Seq<char>,
    stamp: Seq<char>,
    now: Seq<char>,
    id: Seq<char>,
)
    ensures
        is_in(taken_in(w, c, source, stamp, now), c.id, source),
        is_in(w, id, source) ==> is_in(taken_in(w, c, source, stamp, now), id, source),
{
    let t = taken_in(w, c, source, stamp, now);
    let n = w.store.nodes;
    let m = t.store.nodes;
    if has_node(n, c.id) {
        let i = choose|i: int| 0 <= i < n.len() && (#[trigger] n[i]).id == c.id;
        assert(m[i].id == c.id);
    } else {
        assert(m[n.len() as int].id == c.id);
    }
    if has_node(n, id) {
        let i = choose|i: int| 0 <= i < n.len() && (#[trigger] n[i]).id == id;
        assert(m[i].id == id);
    }
    if has_row(w.queue, c.id) {
        let i = choose|i: int|
            0 <= i < w.queue.len() && (#[trigger] w.queue[i]).conversation_id == c.id;
        assert(t.queue[i].conversation_id == c.id);
    } else {
        assert(t.queue[w.queue.len() as int].conversation_id == c.id);
    }
    if has_row(w.queue, id) {
        let i = choose|i: int|
            0 <= i < w.queue.len() && (#[trigger] w.queue[i]).conversation_id == id;
        assert(t.queue[i].conversation_id == id);
    }
    if holds(w.sources, c.id, source) {
        let i = choose|i: int|
            0 <= i < w.sources.len() && links(#[trigger] w.sources[i], c.id, source);
        assert(links(t.sources[i], c.id, source));
    } else {
        assert(links(t.sources[w.sources.len() as int], c.id, source));
    }
    if holds(w.sources, id, source) {
        let i = choose|i: int|
            0 <= i < w.sources.len() && links(#[trigger] w.sources[i], id, source);
        assert(links(t.sources[i], id, source));
    }
}

/// Once an export is taken in, every conversation that is kept of it is in the
/// graph, in the queue, and known to be in the source.
pub proof fn every_kept_conversation_is_taken_in(
    w: WorkspaceView,
    cs: Seq<ConversationView>,
    source: Seq<char>,
    stamps: Seq<Seq<char>>,
    now: Seq<char>,
    n: nat,
)
    requires
        n <= cs.len(),
    ensures
        forall|i: int|
            0 <= i < n ==> is_in(
                all_taken_in(w, cs, source, stamps, now, n),
                (#[trigger] cs[i]).id,
                source,
            ),
    decreases n,
{
    if n > 0 {
        let k = (n - 1) as nat;
        every_kept_conversation_is_taken_in(w, cs, source, stamps, now, k);
        let before = all_taken_in(w, cs, source, stamps, now, k);
        assert forall|i: int| 0 <= i < n implies is_in(
            all_taken_in(w, cs, source, stamps, now, n),
            (#[trigger] cs[i]).id,
            source,
        ) by {
            lemma_taken_in(before, cs[k as int], source, stamps[k as int], now, cs[i].id);
        }
    }
}

/// Taking in a conversation leaves every other alone: its node, its row and what
/// sources hold it. Of the store nothing but the nodes changes.
pub proof fn other_conversations_are_left_alone(
    w: WorkspaceView,
    c: ConversationView,
    source: Seq<char>,
    stamp: Seq<char>,
    now: Seq<char>,
)
    ensures
        ({
            let after = taken_in(w, c, source, stamp, now);
            &&& after.store.edges == w.store.edges
            &&& after.store.parked == w.store.parked
            &&& after.store.nodes.filter(|n: NodeView| n.id != c.id) == w.store.nodes.filter(
                |n: NodeView| n.id != c.id,
            )
        }),
{
    let after = taken_in(w, c, source, stamp, now).store.nodes;
    let p = |n: NodeView| n.id != c.id;
    reveal(Seq::filter);
    if has_node(w.store.nodes, c.id) {
        lemma_others_left(
            w.store.nodes,
            c.id,
            conversation_props(c, checksum(c.id, stamp)),
            now,
        );
    } else {
        assert(after.drop_last() =~= w.store.nodes);
    }
}

proof fn lemma_others_left(nodes: Seq<NodeView>, id: Seq<char>, props: JsonTree, now: Seq<char>)
    ensures
        nodes.map_values(
            |n: NodeView|
                if n.id == id {
                    NodeView { props, updated: now, ..n }
                } else {
                    n
                },
        ).filter(|n: NodeView| n.id != id) == nodes.filter(|n: NodeView| n.id != id),
    decreases nodes.len(),
{
    reveal(Seq::filter);
    let f = |n: NodeView|
        if n.id == id {
            NodeView { props, updated: now, ..n }
        } else {
            n
        };
    if nodes.len() > 0 {
        lemma_others_left(nodes.drop_last(), id, props, now);
        assert(nodes.map_values(f).drop_last() =~= nodes.drop_last().map_values(f));
    }
}

/// The node of a conversation that is taken in tells what was scanned; a new one also
/// has its title and is a conversation.
pub proof fn taken_in_conversations_are_told(
    w: WorkspaceView,
    c: ConversationView,
    source: Seq<char>,
    stamp: Seq<char>,
    now: Seq<char>,
)
    ensures
        ({
            let after = taken_in(w, c, source, stamp, now);
            let hash = hex_text(sha256_of(encode_utf8(c.id) + encode_utf8(stamp)));
            &&& forall|i: int|
                0 <= i < after.store.nodes.len() && (#[trigger] after.store.nodes[i]).id == c.id
                    ==> after.store.nodes[i].props == conversation_props(c, hash)
                    && after.store.nodes[i].updated == now
            &&& !has_node(w.store.nodes, c.id) ==> {
                let n = after.store.nodes.last();
                n.id == c.id && n.kind == "conversation"@ && n.name == c.title && n.created == now
            }
        }),
{
}

/// An entry of an export has the shape of a conversation exactly if its `mapping` is an
/// object and it has a `current_node`, whatever that is.
pub proof fn conversations_have_a_mapping_and_a_current_node(conv: JsonTree)
    ensures
        is_shaped(conv) <==> (conv.get("mapping"@) matches Some(m) && m is Object) && conv.get(
            "current_node"@,
        ) is Some,
{
}

} // verus!
