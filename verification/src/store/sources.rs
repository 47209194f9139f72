//! Where conversations come from: exports that are imported, and imported again.

use super::queue::{ExtractionRow, ExtractionView};
use super::{
    edge_key, edges_without, has_node, is_conversation, lemma_kept_views, lemma_views_push, sound,
    views, without, EdgeRow, EdgeView, Keyed, NodeRow, NodeView, ParkedRow, ParkedView, Store,
    StoreView,
};
use crate::double::Double;
use crate::json::{Json, JsonTree};
use crate::seqs::{kept, lemma_kept_distinct, lemma_kept_members, lemma_kept_same, lemma_kept_step};
use crate::text::{contains_text, same, texts};
use vstd::prelude::*;

verus! {

// Rows -------------------------------------------------------------------

/// A conversation that a source holds.
#[derive(Debug)]
pub struct SourceLink {
    pub conversation_id: String,
    pub source_id: String,
    pub update_time: Double,
    pub turn_count: u64,
}

/// What a link holds.
pub ghost struct LinkView {
    pub conversation_id: Seq<char>,
    pub source_id: Seq<char>,
    pub update_time: Double,
    pub turn_count: u64,
}

impl View for SourceLink {
    type V = LinkView;

    open spec fn view(&self) -> LinkView {
        LinkView {
            conversation_id: self.conversation_id@,
            source_id: self.source_id@,
            update_time: self.update_time,
            turn_count: self.turn_count,
        }
    }
}

impl Keyed for SourceLink {
    open spec fn key(self) -> Seq<char> {
        self.source_id@
    }

    fn key_text(&self) -> (r: &str) {
        self.source_id.as_str()
    }
}

impl Keyed for ExtractionRow {
    open spec fn key(self) -> Seq<char> {
        self.conversation_id@
    }

    fn key_text(&self) -> (r: &str) {
        self.conversation_id.as_str()
    }
}

// Importing --------------------------------------------------------------

/// The nodes once the conversation was imported: a new one, or the old one with
/// its properties replaced.
pub open spec fn seeded(
    nodes: Seq<NodeView>,
    id: Seq<char>,
    title: Seq<char>,
    props: JsonTree,
    now: Seq<char>,
) -> Seq<NodeView> {
    if has_node(nodes, id) {
        nodes.map_values(
            |n: NodeView|
                if n.id == id {
                    NodeView { props, updated: now, ..n }
                } else {
                    n
                },
        )
    } else {
        nodes.push(
            NodeView {
                id,
                kind: "conversation"@,
                name: title,
                props,
                created: now,
                updated: now,
            },
        )
    }
}

impl Store {
    /// Takes the conversation in.
    pub fn seed_conversation(&mut self, id: &str, title: &str, props: &Json, now: &str)
        ensures
            final(self)@ == (StoreView {
                nodes: seeded(old(self)@.nodes, id@, title@, props@, now@),
                ..old(self)@
            }),
    {
        let ghost before = self@.nodes;
        if !self.contains_node(id) {
            let row = NodeRow {
                id: id.to_owned(),
                kind: "conversation".to_owned(),
                name: title.to_owned(),
                props: props.copy(),
                created: now.to_owned(),
                updated: now.to_owned(),
            };
            proof {
                lemma_views_push(self.nodes@, row);
            }
            self.nodes.push(row);
            return;
        }
        let ghost after = seeded(before, id@, title@, props@, now@);
        let mut nodes: Vec<NodeRow> = Vec::new();
        std::mem::swap(&mut nodes, &mut self.nodes);
        let mut i: usize = 0;
        while i < nodes.len()
            invariant
                i <= nodes@.len(),
                nodes@.len() == before.len(),
                has_node(before, id@),
                after == seeded(before, id@, title@, props@, now@),
                forall|k: int| 0 <= k < i ==> (#[trigger] views(nodes@)[k]) == after[k],
                forall|k: int| i <= k < before.len() ==> (#[trigger] views(nodes@)[k]) == before[k],
            decreases nodes@.len() - i,
        {
            let ghost start = views(nodes@);
            assert(start[i as int] == nodes@[i as int]@);
            if same(nodes[i].id.as_str(), id) {
                let row = NodeRow {
                    id: nodes[i].id.clone(),
                    kind: nodes[i].kind.clone(),
                    name: nodes[i].name.clone(),
                    props: props.copy(),
                    created: nodes[i].created.clone(),
                    updated: now.to_owned(),
                };
                nodes.set(i, row);
                assert(views(nodes@) =~= start.update(i as int, row@));
            }
            i = i + 1;
        }
        assert(views(nodes@) =~= after);
        self.nodes = nodes;
    }
}

/// Whether the link is that of the conversation to the source.
pub open spec fn links(l: LinkView, conversation: Seq<char>, source: Seq<char>) -> bool {
    l.conversation_id == conversation && l.source_id == source
}

/// Whether the source holds the conversation.
pub open spec fn holds(all: Seq<LinkView>, conversation: Seq<char>, source: Seq<char>) -> bool {
    exists|i: int| 0 <= i < all.len() && links(#[trigger] all[i], conversation, source)
}

/// The links once the conversation was found in the source.
pub open spec fn noted(all: Seq<LinkView>, l: LinkView) -> Seq<LinkView> {
    if holds(all, l.conversation_id, l.source_id) {
        all.map_values(
            |x: LinkView|
                if links(x, l.conversation_id, l.source_id) {
                    l
                } else {
                    x
                },
        )
    } else {
        all.push(l)
    }
}

/// Notes that the conversation was found in the source.
pub fn note_source(all: &mut Vec<SourceLink>, l: SourceLink)
    ensures
        views(final(all)@) == noted(views(old(all)@), l@),
{
    let ghost before = views(all@);
    let ghost after = before.map_values(
        |x: LinkView|
            if links(x, l@.conversation_id, l@.source_id) {
                l@
            } else {
                x
            },
    );
    let mut found = false;
    let mut i: usize = 0;
    while i < all.len()
        invariant
            i <= all@.len(),
            all@.len() == before.len(),
            after == before.map_values(
                |x: LinkView|
                    if links(x, l@.conversation_id, l@.source_id) {
                        l@
                    } else {
                        x
                    },
            ),
            found <==> exists|k: int|
                0 <= k < i && links(#[trigger] before[k], l@.conversation_id, l@.source_id),
            forall|k: int| 0 <= k < i ==> (#[trigger] views(all@)[k]) == after[k],
            forall|k: int| i <= k < before.len() ==> (#[trigger] views(all@)[k]) == before[k],
        decreases all@.len() - i,
    {
        let ghost start = views(all@);
        assert(start[i as int] == all@[i as int]@);
        assert(before[i as int] == all@[i as int]@);
        if same(all[i].conversation_id.as_str(), l.conversation_id.as_str()) && same(
            all[i].source_id.as_str(),
            l.source_id.as_str(),
        ) {
            found = true;
            let row = SourceLink {
                conversation_id: l.conversation_id.clone(),
                source_id: l.source_id.clone(),
                update_time: l.update_time,
                turn_count: l.turn_count,
            };
            all.set(i, row);
            assert(views(all@) =~= start.update(i as int, row@));
            assert(links(before[i as int], l@.conversation_id, l@.source_id));
        }
        i = i + 1;
    }
    assert(found <==> holds(before, l@.conversation_id, l@.source_id));
    if found {
        assert(views(all@) =~= after);
    } else {
        assert(views(all@) =~= before);
        proof {
            lemma_views_push(all@, l);
        }
        all.push(l);
    }
}

// Forgetting a source ----------------------------------------------------

/// Whether the conversation goes with the source: the source holds it, and no
/// other does.
pub open spec fn goes_with(all: Seq<LinkView>, conversation: Seq<char>, source: Seq<char>) -> bool {
    holds(all, conversation, source) && forall|i: int|
        0 <= i < all.len() && (#[trigger] all[i]).conversation_id == conversation
            ==> all[i].source_id == source
}

/// The store without the conversations that go with the source. What was derived
/// from them stays, as other conversations may speak of it too.
pub open spec fn purged(v: StoreView, all: Seq<LinkView>, source: Seq<char>) -> StoreView {
    StoreView {
        nodes: kept(
            v.nodes,
            |n: NodeView| !(goes_with(all, n.id, source) && n.kind == "conversation"@),
        ),
        edges: kept(
            v.edges,
            |e: EdgeView| !goes_with(all, e.src, source) && !goes_with(all, e.dst, source),
        ),
        parked: kept(v.parked, |p: ParkedView| !goes_with(all, p.conversation_id, source)),
        ..v
    }
}

/// The rows without those of the conversations that go with the source.
pub open spec fn purged_rows(
    rows: Seq<ExtractionView>,
    all: Seq<LinkView>,
    source: Seq<char>,
) -> Seq<ExtractionView> {
    kept(rows, |r: ExtractionView| !goes_with(all, r.conversation_id, source))
}

/// The links without those to the source.
pub open spec fn purged_links(all: Seq<LinkView>, source: Seq<char>) -> Seq<LinkView> {
    kept(all, |l: LinkView| l.source_id != source)
}

fn only_in(all: &Vec<SourceLink>, conversation: &str, source: &str) -> (r: bool)
    ensures
        r == forall|i: int|
            0 <= i < all@.len() && (#[trigger] views(all@)[i]).conversation_id == conversation@
                ==> views(all@)[i].source_id == source@,
{
    let mut i: usize = 0;
    while i < all.len()
        invariant
            i <= all@.len(),
            forall|k: int|
                0 <= k < i && (#[trigger] views(all@)[k]).conversation_id == conversation@
                    ==> views(all@)[k].source_id == source@,
        decreases all@.len() - i,
    {
        assert(views(all@)[i as int] == all@[i as int]@);
        if same(all[i].conversation_id.as_str(), conversation) && !same(
            all[i].source_id.as_str(),
            source,
        ) {
            return false;
        }
        i = i + 1;
    }
    true
}

/// The conversations that go with the source.
fn going(all: &Vec<SourceLink>, source: &str) -> (r: Vec<String>)
    ensures
        forall|id: Seq<char>| #[trigger]
            texts(r@).contains(id) <==> goes_with(views(all@), id, source@),
{
    let ghost every = views(all@);
    let mut out: Vec<String> = Vec::new();
    let mut i: usize = 0;
    while i < all.len()
        invariant
            i <= all@.len(),
            every == views(all@),
            forall|id: Seq<char>| #[trigger]
                texts(out@).contains(id) <==> holds(every.take(i as int), id, source@)
                    && goes_with(every, id, source@),
        decreases all@.len() - i,
    {
        let ghost before = texts(out@);
        let ghost l = every[i as int];
        assert(l == all@[i as int]@);
        if same(all[i].source_id.as_str(), source) && only_in(
            all,
            all[i].conversation_id.as_str(),
            source,
        ) {
            let id = all[i].conversation_id.clone();
            proof {
                crate::text::lemma_texts_push(out@, id);
                assert(links(every[i as int], id@, source@));
                assert(goes_with(every, id@, source@));
            }
            out.push(id);
        }
        proof {
            let first = every.take(i as int);
            let next = every.take(i + 1);
            assert forall|id: Seq<char>| #[trigger] texts(out@).contains(id) <==> holds(
                next,
                id,
                source@,
            ) && goes_with(every, id, source@) by {
                if holds(next, id, source@) && goes_with(every, id, source@) {
                    let k = choose|k: int|
                        0 <= k < next.len() && links(#[trigger] next[k], id, source@);
                    if k < i {
                        assert(links(first[k], id, source@));
                        assert(holds(first, id, source@));
                        assert(before.contains(id));
                        let m = choose|m: int| 0 <= m < before.len() && before[m] == id;
                        assert(texts(out@)[m] == id);
                    } else {
                        assert(texts(out@)[before.len() as int] == id);
                    }
                }
                if texts(out@).contains(id) {
                    let m = choose|m: int| 0 <= m < texts(out@).len() && texts(out@)[m] == id;
                    if m < before.len() {
                        assert(before[m] == id);
                        assert(before.contains(id));
                        let k = choose|k: int|
                            0 <= k < first.len() && links(#[trigger] first[k], id, source@);
                        assert(links(next[k], id, source@));
                    } else {
                        assert(links(next[i as int], id, source@));
                    }
                }
            }
        }
        i = i + 1;
    }
    assert(every.take(i as int) =~= every);
    out
}

fn nodes_but(nodes: Vec<NodeRow>, gone: &Vec<String>) -> (r: Vec<NodeRow>)
    ensures
        views(r@) == kept(
            views(nodes@),
            |n: NodeView| !(texts(gone@).contains(n.id) && n.kind == "conversation"@),
        ),
{
    let ghost whole = nodes@;
    let ghost all = views(whole);
    let ghost p = |n: NodeView| !(texts(gone@).contains(n.id) && n.kind == "conversation"@);
    let mut out: Vec<NodeRow> = Vec::new();
    assert(all.take(0) =~= Seq::<NodeView>::empty());
    assert(views(out@) =~= Seq::<NodeView>::empty());
    for row in it: nodes
        invariant
            whole == it.seq(),
            all == views(whole),
            p == (|n: NodeView| !(texts(gone@).contains(n.id) && n.kind == "conversation"@)),
            views(out@) == kept(all.take(it.index() as int), p),
    {
        proof {
            lemma_kept_step(all, p, it.index() as int);
            lemma_views_push(out@, row);
        }
        if !(contains_text(gone, row.id.as_str()) && same(row.kind.as_str(), "conversation")) {
            out.push(row);
        }
    }
    assert(all.take(whole.len() as int) =~= all);
    out
}

/// Forgets the source, with the conversations that it alone holds.
pub fn purge_source(
    store: &mut Store,
    rows: &mut Vec<ExtractionRow>,
    all: &mut Vec<SourceLink>,
    source_id: &str,
)
    ensures
        final(store)@ == purged(old(store)@, views(old(all)@), source_id@),
        views(final(rows)@) == purged_rows(views(old(rows)@), views(old(all)@), source_id@),
        views(final(all)@) == purged_links(views(old(all)@), source_id@),
{
    let ghost v = store@;
    let ghost links = views(all@);
    let ghost src = source_id@;
    let gone = going(all, source_id);
    let mut nodes: Vec<NodeRow> = Vec::new();
    std::mem::swap(&mut nodes, &mut store.nodes);
    let mut edges: Vec<EdgeRow> = Vec::new();
    std::mem::swap(&mut edges, &mut store.edges);
    let mut parked: Vec<ParkedRow> = Vec::new();
    std::mem::swap(&mut parked, &mut store.parked);
    let mut queue: Vec<ExtractionRow> = Vec::new();
    std::mem::swap(&mut queue, rows);
    let mut known: Vec<SourceLink> = Vec::new();
    std::mem::swap(&mut known, all);
    let forgotten = vec![source_id.to_owned()];
    proof {
        assert(texts(forgotten@) =~= seq![src]);
        assert forall|id: Seq<char>| #[trigger] seq![src].contains(id) <==> id == src by {
            assert(seq![src][0] == src);
        }
        lemma_kept_same(
            v.nodes,
            |n: NodeView| !(texts(gone@).contains(n.id) && n.kind == "conversation"@),
            |n: NodeView| !(goes_with(links, n.id, src) && n.kind == "conversation"@),
        );
        lemma_kept_same(
            v.edges,
            |e: EdgeView| !texts(gone@).contains(e.src) && !texts(gone@).contains(e.dst),
            |e: EdgeView| !goes_with(links, e.src, src) && !goes_with(links, e.dst, src),
        );
        lemma_kept_views(
            parked@,
            |t: ParkedRow| !texts(gone@).contains(Keyed::key(t)),
            |p: ParkedView| !goes_with(links, p.conversation_id, src),
        );
        lemma_kept_views(
            queue@,
            |t: ExtractionRow| !texts(gone@).contains(Keyed::key(t)),
            |r: ExtractionView| !goes_with(links, r.conversation_id, src),
        );
        lemma_kept_views(
            known@,
            |t: SourceLink| !texts(forgotten@).contains(Keyed::key(t)),
            |l: LinkView| l.source_id != src,
        );
    }
    store.nodes = nodes_but(nodes, &gone);
    store.edges = edges_without(edges, &gone);
    store.parked = without(parked, &gone);
    *rows = without(queue, &gone);
    *all = without(known, &forgotten);
}

// Laws -------------------------------------------------------------------

/// Whether no conversation is indexed for search.
pub open spec fn no_indexed_conversation(v: StoreView) -> bool {
    &&& forall|i: int|
        0 <= i < v.vectors.len() ==> !is_conversation(v.nodes, (#[trigger] v.vectors[i]).node_id)
    &&& forall|i: int|
        0 <= i < v.words.len() ==> !is_conversation(v.nodes, (#[trigger] v.words[i]).node_id)
}

/// Forgetting a source keeps the store sound, every conversation that another
/// source holds too, and every node that was derived.
pub proof fn purging_keeps_what_others_hold(v: StoreView, all: Seq<LinkView>, source: Seq<char>)
    requires
        sound(v),
        no_indexed_conversation(v),
    ensures
        sound(purged(v, all, source)),
        forall|i: int|
            0 <= i < v.nodes.len() && (!goes_with(all, (#[trigger] v.nodes[i]).id, source)
                || v.nodes[i].kind != "conversation"@) ==> purged(
                v,
                all,
                source,
            ).nodes.contains(v.nodes[i]),
        forall|i: int|
            0 <= i < purged_links(all, source).len() ==> (#[trigger] purged_links(
                all,
                source,
            )[i]).source_id != source,
{
    let w = purged(v, all, source);
    let keep_node = |n: NodeView| !(goes_with(all, n.id, source) && n.kind == "conversation"@);
    let keep_edge = |e: EdgeView| !goes_with(all, e.src, source) && !goes_with(all, e.dst, source);
    let keep_parked = |p: ParkedView| !goes_with(all, p.conversation_id, source);
    let keep_link = |l: LinkView| l.source_id != source;
    lemma_kept_distinct(v.nodes, keep_node, |n: NodeView| n.id);
    lemma_kept_distinct(v.edges, keep_edge, |e: EdgeView| edge_key(e));
    lemma_kept_distinct(v.parked, keep_parked, |p: ParkedView| p.id);
    lemma_kept_members(v.nodes, keep_node);
    lemma_kept_members(v.edges, keep_edge);
    lemma_kept_members(v.parked, keep_parked);
    lemma_kept_members(all, keep_link);
    assert forall|i: int| 0 <= i < v.nodes.len() && keep_node(#[trigger] v.nodes[i]) implies {
        &&& w.nodes.contains(v.nodes[i])
        &&& has_node(w.nodes, v.nodes[i].id)
        &&& v.nodes[i].kind == "conversation"@ ==> is_conversation(w.nodes, v.nodes[i].id)
    } by {
        assert(v.nodes.contains(v.nodes[i]));
        assert(w.nodes.contains(v.nodes[i]));
        let k = choose|k: int| 0 <= k < w.nodes.len() && w.nodes[k] == v.nodes[i];
        assert(w.nodes[k].id == v.nodes[i].id);
    }
    assert forall|i: int|
        0 <= i < v.nodes.len() && (!goes_with(all, (#[trigger] v.nodes[i]).id, source)
            || v.nodes[i].kind != "conversation"@) implies w.nodes.contains(v.nodes[i]) by {
        assert(keep_node(v.nodes[i]));
    }
    assert forall|i: int| 0 <= i < w.edges.len() implies has_node(
        w.nodes,
        (#[trigger] w.edges[i]).src,
    ) && has_node(w.nodes, w.edges[i].dst) by {
        let e = w.edges[i];
        assert(w.edges.contains(e));
        assert(keep_edge(e));
        let k = choose|k: int| 0 <= k < v.edges.len() && v.edges[k] == e;
        assert(has_node(v.nodes, v.edges[k].src));
        let a = choose|a: int| 0 <= a < v.nodes.len() && (#[trigger] v.nodes[a]).id == e.src;
        let b = choose|b: int| 0 <= b < v.nodes.len() && (#[trigger] v.nodes[b]).id == e.dst;
        assert(keep_node(v.nodes[a]));
        assert(keep_node(v.nodes[b]));
    }
    assert forall|i: int| 0 <= i < w.parked.len() implies is_conversation(
        w.nodes,
        (#[trigger] w.parked[i]).conversation_id,
    ) && w.parked[i].id < w.next_parked by {
        let p = w.parked[i];
        assert(w.parked.contains(p));
        assert(keep_parked(p));
        let k = choose|k: int| 0 <= k < v.parked.len() && v.parked[k] == p;
        assert(is_conversation(v.nodes, v.parked[k].conversation_id));
        let a = choose|a: int|
            0 <= a < v.nodes.len() && (#[trigger] v.nodes[a]).id == p.conversation_id
                && v.nodes[a].kind == "conversation"@;
        assert(keep_node(v.nodes[a]));
    }
    assert forall|i: int| 0 <= i < w.vectors.len() implies has_node(
        w.nodes,
        (#[trigger] w.vectors[i]).node_id,
    ) by {
        let x = v.vectors[i];
        assert(has_node(v.nodes, x.node_id));
        let a = choose|a: int| 0 <= a < v.nodes.len() && (#[trigger] v.nodes[a]).id == x.node_id;
        assert(!is_conversation(v.nodes, v.vectors[i].node_id));
        assert(keep_node(v.nodes[a]));
    }
    assert forall|i: int| 0 <= i < w.words.len() implies has_node(
        w.nodes,
        (#[trigger] w.words[i]).node_id,
    ) by {
        let x = v.words[i];
        assert(has_node(v.nodes, x.node_id));
        let a = choose|a: int| 0 <= a < v.nodes.len() && (#[trigger] v.nodes[a]).id == x.node_id;
        assert(!is_conversation(v.nodes, v.words[i].node_id));
        assert(keep_node(v.nodes[a]));
    }
    assert forall|i: int| 0 <= i < purged_links(all, source).len() implies (
    #[trigger] purged_links(all, source)[i]).source_id != source by {
        assert(purged_links(all, source).contains(purged_links(all, source)[i]));
        assert(keep_link(purged_links(all, source)[i]));
    }
}

/// Importing a conversation gives it a node: a new one, a conversation with the title,
/// or the one that is there with its properties and its time of change set. No other
/// node changes.
pub proof fn imported_conversations_have_a_node(
    nodes: Seq<NodeView>,
    id: Seq<char>,
    title: Seq<char>,
    props: JsonTree,
    now: Seq<char>,
)
    ensures
        ({
            let after = seeded(nodes, id, title, props, now);
            let there = exists|i: int| 0 <= i < nodes.len() && (#[trigger] nodes[i]).id == id;
            &&& !there ==> after == nodes.push(
                NodeView {
                    id,
                    kind: "conversation"@,
                    name: title,
                    props,
                    created: now,
                    updated: now,
                },
            )
            &&& there ==> after.len() == nodes.len() && forall|i: int|
                0 <= i < nodes.len() ==> #[trigger] after[i] == if nodes[i].id == id {
                    NodeView { props, updated: now, ..nodes[i] }
                } else {
                    nodes[i]
                }
        }),
{
}

/// A conversation is noted once for a source, as it was seen there last; what is noted
/// of others stays.
pub proof fn sources_are_noted_once(all: Seq<LinkView>, l: LinkView)
    ensures
        noted(all, l).contains(l),
        forall|i: int|
            0 <= i < all.len() && !((#[trigger] all[i]).conversation_id == l.conversation_id
                && all[i].source_id == l.source_id) ==> noted(all, l)[i] == all[i],
        forall|i: int|
            0 <= i < all.len() && (#[trigger] all[i]).conversation_id == l.conversation_id
                && all[i].source_id == l.source_id ==> noted(all, l)[i] == l && noted(all, l).len()
                == all.len(),
        noted(all, l).len() <= all.len() + 1,
        noted(all, l).len() == all.len() + 1 ==> noted(all, l) == all.push(l),
{
    let after = noted(all, l);
    if holds(all, l.conversation_id, l.source_id) {
        let i = choose|i: int|
            0 <= i < all.len() && links(#[trigger] all[i], l.conversation_id, l.source_id);
        assert(after[i] == l);
    } else {
        assert(after[all.len() as int] == l);
    }
    assert forall|i: int|
        0 <= i < all.len() && (#[trigger] all[i]).conversation_id == l.conversation_id
            && all[i].source_id == l.source_id implies after[i] == l && after.len() == all.len() by {
        assert(links(all[i], l.conversation_id, l.source_id));
    }
}

/// Forgetting a source takes the conversations that no other source holds, with all
/// edges at them, what is parked from them and their rows; conversations that another
/// source holds, and all other nodes, stay. Of the notes those of the source go.
pub proof fn forgetting_takes_what_the_source_alone_holds(
    v: StoreView,
    rows: Seq<ExtractionView>,
    all: Seq<LinkView>,
    source: Seq<char>,
)
    ensures
        ({
            let goes = |id: Seq<char>|
                {
                    &&& exists|i: int|
                        0 <= i < all.len() && (#[trigger] all[i]).conversation_id == id
                            && all[i].source_id == source
                    &&& forall|i: int|
                        0 <= i < all.len() && (#[trigger] all[i]).source_id != source
                            ==> all[i].conversation_id != id
                };
            let w = purged(v, all, source);
            &&& w.nodes == v.nodes.filter(|n: NodeView| n.kind != "conversation"@ || !goes(n.id))
            &&& w.edges == v.edges.filter(|e: EdgeView| !goes(e.src) && !goes(e.dst))
            &&& w.parked == v.parked.filter(|p: ParkedView| !goes(p.conversation_id))
            &&& w.vectors == v.vectors && w.words == v.words && w.next_parked == v.next_parked
            &&& purged_rows(rows, all, source) == rows.filter(
                |r: ExtractionView| !goes(r.conversation_id),
            )
            &&& purged_links(all, source) == all.filter(|l: LinkView| l.source_id != source)
        }),
{
    let goes = |id: Seq<char>|
        {
            &&& exists|i: int|
                0 <= i < all.len() && (#[trigger] all[i]).conversation_id == id && all[i].source_id
                    == source
            &&& forall|i: int|
                0 <= i < all.len() && (#[trigger] all[i]).source_id != source
                    ==> all[i].conversation_id != id
        };
    assert forall|id: Seq<char>| #[trigger] goes(id) == goes_with(all, id, source) by {
        if goes(id) {
            let i = choose|i: int|
                0 <= i < all.len() && (#[trigger] all[i]).conversation_id == id && all[i].source_id
                    == source;
            assert(links(all[i], id, source));
        }
        if goes_with(all, id, source) {
            let i = choose|i: int| 0 <= i < all.len() && links(#[trigger] all[i], id, source);
            assert(all[i].conversation_id == id);
        }
    }
    let n1 = |n: NodeView| !(goes_with(all, n.id, source) && n.kind == "conversation"@);
    let n2 = |n: NodeView| n.kind != "conversation"@ || !goes(n.id);
    crate::seqs::lemma_kept_same(v.nodes, n1, n2);
    crate::seqs::keeping_is_filtering(v.nodes, n2);
    let e1 = |e: EdgeView| !goes_with(all, e.src, source) && !goes_with(all, e.dst, source);
    let e2 = |e: EdgeView| !goes(e.src) && !goes(e.dst);
    crate::seqs::lemma_kept_same(v.edges, e1, e2);
    crate::seqs::keeping_is_filtering(v.edges, e2);
    let p1 = |p: ParkedView| !goes_with(all, p.conversation_id, source);
    let p2 = |p: ParkedView| !goes(p.conversation_id);
    crate::seqs::lemma_kept_same(v.parked, p1, p2);
    crate::seqs::keeping_is_filtering(v.parked, p2);
    let r1 = |r: ExtractionView| !goes_with(all, r.conversation_id, source);
    let r2 = |r: ExtractionView| !goes(r.conversation_id);
    crate::seqs::lemma_kept_same(rows, r1, r2);
    crate::seqs::keeping_is_filtering(rows, r2);
    crate::seqs::keeping_is_filtering(all, |l: LinkView| l.source_id != source);
}

} // verus!
