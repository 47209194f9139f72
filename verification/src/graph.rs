//! The graph as it is shown.

use crate::json::{Json, JsonTree};
use crate::seqs::{arrange, arranged, kept, lemma_kept_members, lemma_kept_step, Ranked};
use crate::store::{
    has_node, lemma_views_push, sound, views, EdgeRow, EdgeView, NodeRow, NodeView, Store, StoreView,
};
use crate::text::{clone_texts, contains_text, lex_lt, same, text_lt, texts};
use vstd::prelude::*;

verus! {

// What is shown ----------------------------------------------------------

/// A node that is shown.
#[derive(Debug)]
pub struct Node {
    pub id: String,
    pub group: String,
    pub name: String,
    pub props: Option<Json>,
}

/// A link that is shown.
#[derive(Debug)]
pub struct Link {
    pub source: String,
    pub target: String,
    pub value: i64,
    pub edge_type: String,
}

/// A graph that is shown.
#[derive(Debug)]
pub struct GraphData {
    pub nodes: Vec<Node>,
    pub links: Vec<Link>,
}

/// What a shown node holds.
pub ghost struct ShownNode {
    pub id: Seq<char>,
    pub group: Seq<char>,
    pub name: Seq<char>,
    pub props: Option<JsonTree>,
}

/// What a shown link holds.
pub ghost struct ShownLink {
    pub source: Seq<char>,
    pub target: Seq<char>,
    pub value: i64,
    pub edge_type: Seq<char>,
}

/// What a shown graph holds.
pub ghost struct ShownGraph {
    pub nodes: Seq<ShownNode>,
    pub links: Seq<ShownLink>,
}

impl View for Node {
    type V = ShownNode;

    open spec fn view(&self) -> ShownNode {
        ShownNode {
            id: self.id@,
            group: self.group@,
            name: self.name@,
            props: match self.props {
                Some(p) => Some(p@),
                None => None,
            },
        }
    }
}

impl View for Link {
    type V = ShownLink;

    open spec fn view(&self) -> ShownLink {
        ShownLink {
            source: self.source@,
            target: self.target@,
            value: self.value,
            edge_type: self.edge_type@,
        }
    }
}

impl View for GraphData {
    type V = ShownGraph;

    open spec fn view(&self) -> ShownGraph {
        ShownGraph { nodes: views(self.nodes@), links: views(self.links@) }
    }
}

/// The graph with nothing in it.
pub open spec fn empty_graph() -> ShownGraph {
    ShownGraph { nodes: Seq::empty(), links: Seq::empty() }
}

impl GraphData {
    /// The graph with nothing in it.
    pub fn empty() -> (r: GraphData)
        ensures
            r@ == empty_graph(),
    {
        let r = GraphData { nodes: Vec::new(), links: Vec::new() };
        assert(r@.nodes =~= Seq::<ShownNode>::empty());
        assert(r@.links =~= Seq::<ShownLink>::empty());
        r
    }
}

/// A node as it is shown.
pub open spec fn shown(n: NodeView) -> ShownNode {
    ShownNode {
        id: n.id,
        group: n.kind,
        name: n.name,
        props: if n.props is Null {
            None
        } else {
            Some(n.props)
        },
    }
}

/// A link for an edge, with the value.
pub open spec fn link_for(e: EdgeView, value: i64) -> ShownLink {
    ShownLink { source: e.src, target: e.dst, value, edge_type: e.kind }
}

/// Shows a node.
pub fn show_node(n: &NodeRow) -> (r: Node)
    ensures
        r@ == shown(n@),
{
    let props = match n.props {
        Json::Null => None,
        _ => Some(n.props.copy()),
    };
    Node { id: n.id.clone(), group: n.kind.clone(), name: n.name.clone(), props }
}

/// Shows an edge with the value.
pub fn show_edge(e: &EdgeRow, value: i64) -> (r: Link)
    ensures
        r@ == link_for(e@, value),
{
    Link { source: e.src.clone(), target: e.dst.clone(), value, edge_type: e.kind.clone() }
}

/// The nodes with the names, as they are shown.
pub open spec fn shown_nodes(nodes: Seq<NodeView>, ids: Seq<Seq<char>>) -> Seq<ShownNode> {
    kept(nodes, |n: NodeView| ids.contains(n.id)).map_values(|n: NodeView| shown(n))
}

/// Shows the nodes with the names.
pub fn show_nodes(nodes: &Vec<NodeRow>, ids: &Vec<String>) -> (r: Vec<Node>)
    ensures
        views(r@) == shown_nodes(views(nodes@), texts(ids@)),
{
    let ghost all = views(nodes@);
    let ghost p = |n: NodeView| texts(ids@).contains(n.id);
    let ghost f = |n: NodeView| shown(n);
    let mut out: Vec<Node> = Vec::new();
    let mut i: usize = 0;
    assert(all.take(0) =~= Seq::<NodeView>::empty());
    assert(views(out@) =~= kept(all.take(0), p).map_values(f));
    while i < nodes.len()
        invariant
            i <= nodes@.len(),
            all == views(nodes@),
            p == (|n: NodeView| texts(ids@).contains(n.id)),
            f == (|n: NodeView| shown(n)),
            views(out@) == kept(all.take(i as int), p).map_values(f),
        decreases nodes@.len() - i,
    {
        proof {
            lemma_kept_step(all, p, i as int);
            assert(all[i as int] == nodes@[i as int]@);
        }
        if contains_text(ids, nodes[i].id.as_str()) {
            let n = show_node(&nodes[i]);
            proof {
                lemma_views_push(out@, n);
                assert(kept(all.take(i as int), p).push(all[i as int]).map_values(f) =~= kept(
                    all.take(i as int),
                    p,
                ).map_values(f).push(n@));
            }
            out.push(n);
        }
        i = i + 1;
    }
    assert(all.take(i as int) =~= all);
    out
}

// Recent conversations ---------------------------------------------------

/// A node with the time of its last change.
#[derive(Debug)]
pub struct Dated {
    pub id: String,
    pub at: String,
}

/// What changed last comes first.
impl Ranked for Dated {
    open spec fn ranks_before(self, other: Dated) -> bool {
        lex_lt(other.at@, self.at@)
    }

    proof fn ranking(a: Dated, b: Dated, c: Dated) {
        crate::text::lemma_lex_irreflexive(a.at@);
        if lex_lt(b.at@, a.at@) && lex_lt(c.at@, b.at@) {
            crate::text::lemma_lex_transitive(c.at@, b.at@, a.at@);
        }
        crate::text::lemma_lex_total(a.at@, b.at@);
        crate::text::lemma_lex_total(b.at@, c.at@);
        if lex_lt(a.at@, b.at@) && lex_lt(b.at@, c.at@) {
            crate::text::lemma_lex_transitive(a.at@, b.at@, c.at@);
        }
        if lex_lt(a.at@, c.at@) && lex_lt(c.at@, a.at@) {
            crate::text::lemma_lex_transitive(a.at@, c.at@, a.at@);
        }
    }

    fn precedes(&self, other: &Dated) -> (r: bool) {
        text_lt(other.at.as_str(), self.at.as_str())
    }
}

/// The conversations.
pub open spec fn conversations(nodes: Seq<NodeView>) -> Seq<NodeView> {
    kept(nodes, |n: NodeView| n.kind == "conversation"@)
}

/// Whether the entries are those of the nodes, with the time of their last
/// change.
pub open spec fn dates(entries: Seq<Dated>, nodes: Seq<NodeView>) -> bool {
    entries.len() == nodes.len() && forall|i: int|
        0 <= i < entries.len() ==> (#[trigger] entries[i]).id@ == nodes[i].id && entries[i].at@
            == nodes[i].updated
}

/// The names of the entries.
pub open spec fn names_of(entries: Seq<Dated>) -> Seq<Seq<char>> {
    entries.map_values(|d: Dated| d.id@)
}

/// The first `n` of the sequence.
pub open spec fn at_most<T>(s: Seq<T>, n: int) -> Seq<T> {
    if s.len() <= n {
        s
    } else {
        s.take(n)
    }
}

/// Whether the names are those of the conversations that changed last, the latest
/// first, and no more than `n`.
pub open spec fn latest(ids: Seq<Seq<char>>, nodes: Seq<NodeView>, n: int) -> bool {
    exists|entries: Seq<Dated>| #[trigger]
        dates(entries, conversations(nodes)) && ids == at_most(names_of(arranged(entries)), n)
}

/// The conversations that changed last, the latest first.
pub fn latest_conversations(nodes: &Vec<NodeRow>, n: usize) -> (r: Vec<String>)
    ensures
        latest(texts(r@), views(nodes@), n as int),
{
    let ghost all = views(nodes@);
    let ghost p = |n: NodeView| n.kind == "conversation"@;
    let mut entries: Vec<Dated> = Vec::new();
    let mut i: usize = 0;
    assert(all.take(0) =~= Seq::<NodeView>::empty());
    while i < nodes.len()
        invariant
            i <= nodes@.len(),
            all == views(nodes@),
            p == (|n: NodeView| n.kind == "conversation"@),
            dates(entries@, kept(all.take(i as int), p)),
        decreases nodes@.len() - i,
    {
        proof {
            lemma_kept_step(all, p, i as int);
            assert(all[i as int] == nodes@[i as int]@);
        }
        if same(nodes[i].kind.as_str(), "conversation") {
            entries.push(Dated { id: nodes[i].id.clone(), at: nodes[i].updated.clone() });
        }
        i = i + 1;
    }
    assert(all.take(i as int) =~= all);
    let ghost found = entries@;
    assert(dates(found, conversations(all)));
    let sorted = arrange(entries);
    let ghost names = names_of(sorted@);
    let mut out: Vec<String> = Vec::new();
    let mut k: usize = 0;
    assert(texts(out@) =~= names.take(0));
    while k < sorted.len() && k < n
        invariant
            k <= sorted@.len(),
            k <= n,
            names == names_of(sorted@),
            texts(out@) == names.take(k as int),
        decreases sorted@.len() - k,
    {
        let id = sorted[k].id.clone();
        proof {
            crate::text::lemma_texts_push(out@, id);
            assert(names.take(k + 1) =~= names.take(k as int).push(id@));
        }
        out.push(id);
        k = k + 1;
    }
    proof {
        if sorted@.len() <= n {
            assert(names.take(k as int) =~= names);
        }
        assert(texts(out@) == at_most(names_of(arranged(found)), n as int));
    }
    out
}

// Names in order ---------------------------------------------------------

/// The ordered names with one more, unless it is there.
pub open spec fn with_name(s: Seq<Seq<char>>, x: Seq<char>) -> Seq<Seq<char>>
    decreases s.len(),
{
    if s.len() == 0 {
        seq![x]
    } else if x == s.last() {
        s
    } else if lex_lt(x, s.last()) {
        with_name(s.drop_last(), x).push(s.last())
    } else {
        s.push(x)
    }
}

/// The names in order, each once.
pub open spec fn in_order(s: Seq<Seq<char>>) -> Seq<Seq<char>>
    decreases s.len(),
{
    if s.len() == 0 {
        Seq::empty()
    } else {
        with_name(in_order(s.drop_last()), s.last())
    }
}

proof fn lemma_with_name(s: Seq<Seq<char>>, x: Seq<char>, j: int)
    requires
        0 <= j <= s.len(),
        forall|i: int| j <= i < s.len() ==> lex_lt(x, #[trigger] s[i]),
        j > 0 ==> !lex_lt(x, s[j - 1]),
    ensures
        with_name(s, x) == if j > 0 && s[j - 1] == x {
            s
        } else {
            s.insert(j, x)
        },
    decreases s.len(),
{
    if s.len() == 0 {
        assert(s.insert(j, x) =~= seq![x]);
    } else if j == s.len() {
        assert(s.insert(j, x) =~= s.push(x));
    } else {
        assert(lex_lt(x, s[s.len() - 1]));
        crate::text::lemma_lex_irreflexive(x);
        let rest = s.drop_last();
        assert forall|i: int| j <= i < rest.len() implies lex_lt(x, #[trigger] rest[i]) by {
            assert(rest[i] == s[i]);
        }
        lemma_with_name(rest, x, j);
        if j > 0 && s[j - 1] == x {
            assert(rest[j - 1] == x);
            assert(rest.push(s.last()) =~= s);
        } else {
            if j > 0 {
                assert(rest[j - 1] == s[j - 1]);
            }
            assert(rest.insert(j, x).push(s.last()) =~= s.insert(j, x));
        }
    }
}

/// Puts a name among the ordered ones, unless it is there.
fn add_name(v: &mut Vec<String>, x: &str)
    ensures
        texts(final(v)@) == with_name(texts(old(v)@), x@),
        final(v)@.len() <= old(v)@.len() + 1,
{
    let ghost before = texts(v@);
    let mut j: usize = v.len();
    while j > 0 && text_lt(x, v[j - 1].as_str())
        invariant
            j <= v@.len(),
            before == texts(v@),
            v@ == old(v)@,
            forall|i: int| j <= i < before.len() ==> lex_lt(x@, #[trigger] before[i]),
        decreases j,
    {
        assert(before[j - 1] == v@[j - 1]@);
        j = j - 1;
    }
    proof {
        if j > 0 {
            assert(before[j - 1] == v@[j - 1]@);
        }
        lemma_with_name(before, x@, j as int);
    }
    if j > 0 && same(v[j - 1].as_str(), x) {
        return;
    }
    let t = x.to_owned();
    v.insert(j, t);
    assert(texts(v@) =~= before.insert(j as int, x@));
}

/// The names in order, each once.
pub fn sorted_names(v: &Vec<String>) -> (r: Vec<String>)
    ensures
        texts(r@) == in_order(texts(v@)),
{
    let ghost all = texts(v@);
    let mut out: Vec<String> = Vec::new();
    let mut i: usize = 0;
    assert(all.take(0) =~= Seq::<Seq<char>>::empty());
    assert(texts(out@) =~= Seq::<Seq<char>>::empty());
    while i < v.len()
        invariant
            i <= v@.len(),
            all == texts(v@),
            texts(out@) == in_order(all.take(i as int)),
        decreases v@.len() - i,
    {
        assert(all.take(i + 1).drop_last() =~= all.take(i as int));
        assert(all.take(i + 1).last() == v@[i as int]@);
        add_name(&mut out, v[i].as_str());
        i = i + 1;
    }
    assert(all.take(i as int) =~= all);
    out
}

// The first view ---------------------------------------------------------

/// From how many conversations the first view starts.
pub const SEED_CONVERSATIONS: usize = 12;

/// How many of their neighbours the first view shows.
pub const NEIGHBOR_CAP: usize = 120;

/// How many of their edges the first view looks at.
pub const EDGE_CAP: usize = 480;

/// The edges from the conversations, the latest first, as many as are looked at.
pub open spec fn seed_edges(edges: Seq<EdgeView>, seeds: Seq<Seq<char>>) -> Seq<EdgeView> {
    at_most(kept(edges.reverse(), |e: EdgeView| seeds.contains(e.src)), EDGE_CAP as int)
}

/// The ends of the edges that are no seeds.
pub open spec fn found_ends(edges: Seq<EdgeView>, seeds: Seq<Seq<char>>) -> Seq<Seq<char>>
    decreases edges.len(),
{
    if edges.len() == 0 {
        Seq::empty()
    } else {
        let before = found_ends(edges.drop_last(), seeds);
        let e = edges.last();
        let first = if seeds.contains(e.src) {
            before
        } else {
            before.push(e.src)
        };
        if seeds.contains(e.dst) {
            first
        } else {
            first.push(e.dst)
        }
    }
}

/// The nodes that are shown: the seeds, and their neighbours that come first by
/// name.
pub open spec fn included(edges: Seq<EdgeView>, seeds: Seq<Seq<char>>) -> Seq<Seq<char>> {
    seeds + at_most(in_order(found_ends(seed_edges(edges, seeds), seeds)), NEIGHBOR_CAP as int)
}

/// The edges both of whose ends are among the names, as they are shown.
pub open spec fn shown_edges(edges: Seq<EdgeView>, ids: Seq<Seq<char>>) -> Seq<ShownLink> {
    kept(edges, |e: EdgeView| ids.contains(e.src) && ids.contains(e.dst)).map_values(
        |e: EdgeView| link_for(e, 1),
    )
}

/// The view that starts from the seeds.
pub open spec fn view_from(v: StoreView, seeds: Seq<Seq<char>>) -> ShownGraph {
    if seeds.len() == 0 {
        empty_graph()
    } else {
        ShownGraph {
            nodes: shown_nodes(v.nodes, included(v.edges, seeds)),
            links: shown_edges(seed_edges(v.edges, seeds), included(v.edges, seeds)),
        }
    }
}

/// The positions of the edges from the conversations, the latest first.
fn pick_seed_edges(edges: &Vec<EdgeRow>, seeds: &Vec<String>) -> (r: Vec<usize>)
    ensures
        forall|i: int| 0 <= i < r@.len() ==> #[trigger] r@[i] < edges@.len(),
        r@.map_values(|i: usize| views(edges@)[i as int]) == seed_edges(
            views(edges@),
            texts(seeds@),
        ),
{
    let ghost all = views(edges@);
    let ghost back = all.reverse();
    let ghost p = |e: EdgeView| texts(seeds@).contains(e.src);
    let ghost f = |i: usize| all[i as int];
    let mut out: Vec<usize> = Vec::new();
    let mut n: usize = edges.len();
    assert(back.take(0) =~= Seq::<EdgeView>::empty());
    assert(out@.map_values(f) =~= Seq::<EdgeView>::empty());
    while n > 0 && out.len() < EDGE_CAP
        invariant
            n <= edges@.len(),
            all == views(edges@),
            back == all.reverse(),
            p == (|e: EdgeView| texts(seeds@).contains(e.src)),
            f == (|i: usize| all[i as int]),
            out@.len() <= EDGE_CAP,
            forall|i: int| 0 <= i < out@.len() ==> #[trigger] out@[i] < edges@.len(),
            out@.map_values(f) == kept(back.take(all.len() - n), p),
        decreases n,
    {
        let i: usize = n - 1;
        proof {
            lemma_kept_step(back, p, all.len() - n);
            assert(back[all.len() - n] == all[i as int]);
            assert(all[i as int] == edges@[i as int]@);
        }
        if contains_text(seeds, edges[i].src.as_str()) {
            assert(out@.push(i).map_values(f) =~= out@.map_values(f).push(all[i as int]));
            out.push(i);
        }
        n = n - 1;
    }
    proof {
        let k = all.len() - n;
        if n == 0 {
            assert(back.take(k) =~= back);
        } else {
            lemma_kept_prefix(back, p, k);
        }
        assert(out@.map_values(f).len() == out@.len());
        assert(out@.map_values(f) =~= seed_edges(all, texts(seeds@)));
    }
    out
}

/// What is kept of a beginning is a beginning of what is kept.
proof fn lemma_kept_prefix<T>(s: Seq<T>, p: spec_fn(T) -> bool, k: int)
    requires
        0 <= k <= s.len(),
    ensures
        kept(s.take(k), p).len() <= kept(s, p).len(),
        kept(s.take(k), p) == kept(s, p).take(kept(s.take(k), p).len() as int),
    decreases s.len() - k,
{
    if k < s.len() {
        lemma_kept_prefix(s, p, k + 1);
        lemma_kept_step(s, p, k);
        assert(kept(s.take(k), p) =~= kept(s, p).take(kept(s.take(k), p).len() as int));
    } else {
        assert(s.take(k) =~= s);
        assert(kept(s, p) =~= kept(s, p).take(kept(s, p).len() as int));
    }
}

fn collect_ends(edges: &Vec<EdgeRow>, picked: &Vec<usize>, seeds: &Vec<String>) -> (r: Vec<String>)
    requires
        forall|i: int| 0 <= i < picked@.len() ==> #[trigger] picked@[i] < edges@.len(),
    ensures
        texts(r@) == found_ends(
            picked@.map_values(|i: usize| views(edges@)[i as int]),
            texts(seeds@),
        ),
{
    let ghost all = picked@.map_values(|i: usize| views(edges@)[i as int]);
    let mut out: Vec<String> = Vec::new();
    let mut i: usize = 0;
    assert(all.take(0) =~= Seq::<EdgeView>::empty());
    assert(texts(out@) =~= Seq::<Seq<char>>::empty());
    while i < picked.len()
        invariant
            i <= picked@.len(),
            all == picked@.map_values(|i: usize| views(edges@)[i as int]),
            forall|i: int| 0 <= i < picked@.len() ==> #[trigger] picked@[i] < edges@.len(),
            texts(out@) == found_ends(all.take(i as int), texts(seeds@)),
        decreases picked@.len() - i,
    {
        let k: usize = picked[i];
        proof {
            assert(all.take(i + 1).drop_last() =~= all.take(i as int));
            assert(all.take(i + 1).last() == edges@[k as int]@);
        }
        if !contains_text(seeds, edges[k].src.as_str()) {
            let id = edges[k].src.clone();
            proof {
                crate::text::lemma_texts_push(out@, id);
            }
            out.push(id);
        }
        if !contains_text(seeds, edges[k].dst.as_str()) {
            let id = edges[k].dst.clone();
            proof {
                crate::text::lemma_texts_push(out@, id);
            }
            out.push(id);
        }
        i = i + 1;
    }
    assert(all.take(i as int) =~= all);
    out
}

fn show_picked(edges: &Vec<EdgeRow>, picked: &Vec<usize>, ids: &Vec<String>) -> (r: Vec<Link>)
    requires
        forall|i: int| 0 <= i < picked@.len() ==> #[trigger] picked@[i] < edges@.len(),
    ensures
        views(r@) == shown_edges(
            picked@.map_values(|i: usize| views(edges@)[i as int]),
            texts(ids@),
        ),
{
    let ghost all = picked@.map_values(|i: usize| views(edges@)[i as int]);
    let ghost p = |e: EdgeView| texts(ids@).contains(e.src) && texts(ids@).contains(e.dst);
    let ghost f = |e: EdgeView| link_for(e, 1);
    let mut out: Vec<Link> = Vec::new();
    let mut i: usize = 0;
    assert(all.take(0) =~= Seq::<EdgeView>::empty());
    assert(views(out@) =~= kept(all.take(0), p).map_values(f));
    while i < picked.len()
        invariant
            i <= picked@.len(),
            all == picked@.map_values(|i: usize| views(edges@)[i as int]),
            forall|i: int| 0 <= i < picked@.len() ==> #[trigger] picked@[i] < edges@.len(),
            p == (|e: EdgeView| texts(ids@).contains(e.src) && texts(ids@).contains(e.dst)),
            f == (|e: EdgeView| link_for(e, 1)),
            views(out@) == kept(all.take(i as int), p).map_values(f),
        decreases picked@.len() - i,
    {
        let k: usize = picked[i];
        proof {
            lemma_kept_step(all, p, i as int);
            assert(all[i as int] == edges@[k as int]@);
        }
        if contains_text(ids, edges[k].src.as_str()) && contains_text(ids, edges[k].dst.as_str()) {
            let l = show_edge(&edges[k], 1);
            proof {
                lemma_views_push(out@, l);
                assert(kept(all.take(i as int), p).push(all[i as int]).map_values(f) =~= kept(
                    all.take(i as int),
                    p,
                ).map_values(f).push(l@));
            }
            out.push(l);
        }
        i = i + 1;
    }
    assert(all.take(i as int) =~= all);
    out
}

/// The view that starts from the seeds.
pub fn graph_from(store: &Store, seeds: &Vec<String>) -> (r: GraphData)
    ensures
        r@ == view_from(store@, texts(seeds@)),
{
    assert(texts(seeds@).len() == seeds@.len());
    if seeds.len() == 0 {
        return GraphData::empty();
    }
    let picked = pick_seed_edges(&store.edges, seeds);
    let ends = collect_ends(&store.edges, &picked, seeds);
    let ordered = sorted_names(&ends);
    let ghost o = texts(ordered@);
    let mut ids = clone_texts(seeds);
    let mut i: usize = 0;
    assert(texts(ids@) =~= texts(seeds@) + o.take(0));
    while i < ordered.len() && i < NEIGHBOR_CAP
        invariant
            i <= ordered@.len(),
            i <= NEIGHBOR_CAP,
            o == texts(ordered@),
            texts(ids@) == texts(seeds@) + o.take(i as int),
        decreases ordered@.len() - i,
    {
        let id = ordered[i].clone();
        proof {
            crate::text::lemma_texts_push(ids@, id);
            assert(texts(seeds@) + o.take(i + 1) =~= (texts(seeds@) + o.take(i as int)).push(id@));
        }
        ids.push(id);
        i = i + 1;
    }
    proof {
        if o.len() <= NEIGHBOR_CAP {
            assert(o.take(i as int) =~= o);
        }
    }
    GraphData {
        nodes: show_nodes(&store.nodes, &ids),
        links: show_picked(&store.edges, &picked, &ids),
    }
}

/// The first view of the graph: the conversations that changed last, with what
/// they lead to.
pub fn get_initial_graph(store: &Store) -> (r: GraphData)
    ensures
        exists|seeds: Seq<Seq<char>>| #[trigger]
            latest(seeds, store@.nodes, SEED_CONVERSATIONS as int) && r@ == view_from(
                store@,
                seeds,
            ),
{
    let seeds = latest_conversations(&store.nodes, SEED_CONVERSATIONS);
    assert(latest(texts(seeds@), store@.nodes, SEED_CONVERSATIONS as int));
    graph_from(store, &seeds)
}

// Laws -------------------------------------------------------------------

/// Whether the graph shows a node with the name.
pub open spec fn shows(g: ShownGraph, id: Seq<char>) -> bool {
    exists|i: int| 0 <= i < g.nodes.len() && (#[trigger] g.nodes[i]).id == id
}

/// Whether the link stands for one of the edges.
pub open spec fn stands_for(l: ShownLink, edges: Seq<EdgeView>) -> bool {
    exists|i: int| 0 <= i < edges.len() && l == link_for(#[trigger] edges[i], 1)
}

proof fn lemma_shown(v: StoreView, ids: Seq<Seq<char>>, id: Seq<char>)
    requires
        has_node(v.nodes, id),
        ids.contains(id),
    ensures
        exists|i: int|
            0 <= i < shown_nodes(v.nodes, ids).len() && (#[trigger] shown_nodes(
                v.nodes,
                ids,
            )[i]).id == id,
{
    let p = |n: NodeView| ids.contains(n.id);
    let i = choose|i: int| 0 <= i < v.nodes.len() && (#[trigger] v.nodes[i]).id == id;
    lemma_kept_members(v.nodes, p);
    assert(v.nodes.contains(v.nodes[i]));
    assert(kept(v.nodes, p).contains(v.nodes[i]));
    let k = choose|k: int| 0 <= k < kept(v.nodes, p).len() && kept(v.nodes, p)[k] == v.nodes[i];
    assert(shown_nodes(v.nodes, ids)[k].id == id);
}

/// Every link of a first view stands for an edge of the graph that starts at a
/// seed, and in a sound store joins two nodes that are shown; every node that is
/// shown is a seed or one of the neighbours that there is room for.
pub proof fn first_views_are_connected(v: StoreView, seeds: Seq<Seq<char>>)
    ensures
        forall|i: int|
            0 <= i < view_from(v, seeds).links.len() ==> {
                let l = #[trigger] view_from(v, seeds).links[i];
                &&& stands_for(l, v.edges)
                &&& seeds.contains(l.source)
                &&& sound(v) ==> shows(view_from(v, seeds), l.source) && shows(
                    view_from(v, seeds),
                    l.target,
                )
            },
        forall|i: int|
            0 <= i < view_from(v, seeds).nodes.len() ==> included(v.edges, seeds).contains(
                (#[trigger] view_from(v, seeds).nodes[i]).id,
            ),
{
    let g = view_from(v, seeds);
    let ids = included(v.edges, seeds);
    let p = |e: EdgeView| ids.contains(e.src) && ids.contains(e.dst);
    let q = |e: EdgeView| seeds.contains(e.src);
    let edges = seed_edges(v.edges, seeds);
    let back = v.edges.reverse();
    lemma_kept_members(edges, p);
    lemma_kept_members(back, q);
    lemma_kept_members(v.nodes, |n: NodeView| ids.contains(n.id));
    assert forall|i: int| 0 <= i < g.links.len() implies {
        let l = #[trigger] g.links[i];
        &&& stands_for(l, v.edges)
        &&& seeds.contains(l.source)
        &&& sound(v) ==> shows(g, l.source) && shows(g, l.target)
    } by {
        let e = kept(edges, p)[i];
        assert(kept(edges, p).contains(e));
        assert(p(e));
        assert(edges.contains(e));
        let k = choose|k: int| 0 <= k < edges.len() && edges[k] == e;
        assert(kept(back, q)[k] == e);
        assert(kept(back, q).contains(e));
        assert(q(e));
        let m = choose|m: int| 0 <= m < back.len() && back[m] == e;
        let n = v.edges.len() - 1 - m;
        assert(v.edges[n] == e);
        assert(g.links[i] == link_for(v.edges[n], 1));
        if sound(v) {
            assert(has_node(v.nodes, v.edges[n].src));
            lemma_shown(v, ids, e.src);
            lemma_shown(v, ids, e.dst);
        }
    }
    assert forall|i: int| 0 <= i < g.nodes.len() implies ids.contains(
        (#[trigger] g.nodes[i]).id,
    ) by {
        let pn = |n: NodeView| ids.contains(n.id);
        let n = kept(v.nodes, pn)[i];
        assert(kept(v.nodes, pn).contains(n));
        assert(pn(n));
    }
}

/// A first view never has room for more names than its seeds and the most
/// neighbours it shows.
pub proof fn first_views_are_limited(edges: Seq<EdgeView>, seeds: Seq<Seq<char>>)
    ensures
        included(edges, seeds).len() <= seeds.len() + NEIGHBOR_CAP,
        seed_edges(edges, seeds).len() <= EDGE_CAP,
{
}

/// The first view has no more than 480 links, and is of no more than 120 nodes beside
/// its seeds.
pub proof fn first_views_have_their_limits(v: StoreView, seeds: Seq<Seq<char>>)
    ensures
        view_from(v, seeds).links.len() <= 480,
        included(v.edges, seeds).len() <= seeds.len() + 120,
        forall|j: int|
            0 <= j < view_from(v, seeds).nodes.len() ==> included(v.edges, seeds).contains(
                (#[trigger] view_from(v, seeds).nodes[j]).id,
            ),
{
    let ids = included(v.edges, seeds);
    let edges = seed_edges(v.edges, seeds);
    let p = |e: EdgeView| ids.contains(e.src) && ids.contains(e.dst);
    crate::seqs::keeping_is_filtering(edges, p);
    edges.lemma_filter_len(p);
    let q = |n: NodeView| ids.contains(n.id);
    lemma_kept_members(v.nodes, q);
    assert forall|j: int| 0 <= j < view_from(v, seeds).nodes.len() implies ids.contains(
        (#[trigger] view_from(v, seeds).nodes[j]).id,
    ) by {
        let n = kept(v.nodes, q)[j];
        assert(kept(v.nodes, q).contains(n));
        assert(q(n));
    }
}

/// Every conversation is among the latest, unless `n` are that did not change before
/// it; nothing but conversations is; and those that changed later come first.
pub proof fn the_latest_conversations_are_taken(
    ids: Seq<Seq<char>>,
    nodes: Seq<NodeView>,
    n: int,
) -> (at: Seq<int>)
    requires
        n >= 0,
        latest(ids, nodes, n),
    ensures
        ids.len() <= n,
        at.len() == ids.len(),
        forall|i: int|
            0 <= i < at.len() ==> 0 <= #[trigger] at[i] < nodes.len() && nodes[at[i]].id == ids[i]
                && nodes[at[i]].kind == "conversation"@,
        forall|i: int, j: int|
            0 <= i < j < at.len() ==> !lex_lt(
                nodes[#[trigger] at[i]].updated,
                nodes[#[trigger] at[j]].updated,
            ),
        forall|k: int|
            0 <= k < nodes.len() && (#[trigger] nodes[k]).kind == "conversation"@ ==> ids.contains(
                nodes[k].id,
            ) || (ids.len() == n && forall|i: int|
                0 <= i < at.len() ==> !lex_lt(nodes[#[trigger] at[i]].updated, nodes[k].updated)),
{
    let all = conversations(nodes);
    let p = |n: NodeView| n.kind == "conversation"@;
    lemma_kept_members(nodes, p);
    let entries = choose|entries: Seq<Dated>| #[trigger]
        dates(entries, all) && ids == at_most(names_of(arranged(entries)), n);
    crate::seqs::arranging_orders(entries);
    let top = at_most(arranged(entries), n);
    crate::seqs::the_first_rank_first(entries, n, top);
    assert(ids =~= names_of(top));
    let at = Seq::new(
        ids.len(),
        |i: int|
            choose|k: int|
                0 <= k < nodes.len() && nodes[k].id == top[i].id@ && nodes[k].updated == top[i].at@
                    && nodes[k].kind == "conversation"@,
    );
    assert forall|i: int| 0 <= i < at.len() implies 0 <= #[trigger] at[i] < nodes.len()
        && nodes[at[i]].id == ids[i] && nodes[at[i]].updated == top[i].at@ && nodes[at[i]].kind
        == "conversation"@ by {
        assert(entries.contains(top[i]));
        let m = choose|m: int| 0 <= m < entries.len() && entries[m] == top[i];
        assert(entries[m].id@ == all[m].id);
        assert(all.contains(all[m]));
        assert(p(all[m]));
        let k = choose|k: int| 0 <= k < nodes.len() && nodes[k] == all[m];
        assert(nodes[k].id == top[i].id@ && nodes[k].updated == top[i].at@);
    }
    assert forall|i: int, j: int| 0 <= i < j < at.len() implies !lex_lt(
        nodes[#[trigger] at[i]].updated,
        nodes[#[trigger] at[j]].updated,
    ) by {
        assert(!top[j].ranks_before(top[i]));
    }
    assert forall|k: int|
        0 <= k < nodes.len() && (#[trigger] nodes[k]).kind == "conversation"@ implies ids.contains(
        nodes[k].id,
    ) || (ids.len() == n && forall|i: int|
        0 <= i < at.len() ==> !lex_lt(nodes[#[trigger] at[i]].updated, nodes[k].updated)) by {
        assert(nodes.contains(nodes[k]));
        assert(p(nodes[k]));
        assert(all.contains(nodes[k]));
        let m = choose|m: int| 0 <= m < all.len() && all[m] == nodes[k];
        let e = entries[m];
        assert(entries.contains(e));
        if top.contains(e) {
            let q = choose|q: int| 0 <= q < top.len() && top[q] == e;
            assert(ids[q] == nodes[k].id);
        } else {
            assert forall|i: int| 0 <= i < at.len() implies !lex_lt(
                nodes[#[trigger] at[i]].updated,
                nodes[k].updated,
            ) by {
                assert(!e.ranks_before(top[i]));
            }
        }
    }
    at
}

proof fn lemma_with_name_members(s: Seq<Seq<char>>, x: Seq<char>)
    ensures
        with_name(s, x).contains(x),
        forall|y: Seq<char>| #[trigger]
            with_name(s, x).contains(y) <==> s.contains(y) || y == x,
        with_name(s, x).len() <= s.len() + 1,
    decreases s.len(),
{
    let t = with_name(s, x);
    if s.len() == 0 {
        assert(t[0] == x);
        assert forall|y: Seq<char>| #[trigger] t.contains(y) <==> s.contains(y) || y == x by {}
    } else if x == s.last() {
        assert(s[s.len() - 1] == x);
    } else if lex_lt(x, s.last()) {
        let rest = s.drop_last();
        lemma_with_name_members(rest, x);
        let u = with_name(rest, x);
        assert forall|y: Seq<char>| #[trigger] t.contains(y) <==> s.contains(y) || y == x by {
            if t.contains(y) {
                let i = choose|i: int| 0 <= i < t.len() && t[i] == y;
                if i < u.len() {
                    assert(u[i] == y);
                    assert(u.contains(y));
                    if rest.contains(y) {
                        let k = choose|k: int| 0 <= k < rest.len() && rest[k] == y;
                        assert(s[k] == y);
                    }
                } else {
                    assert(s[s.len() - 1] == y);
                }
            }
            if s.contains(y) || y == x {
                if s.contains(y) && y != x {
                    let k = choose|k: int| 0 <= k < s.len() && s[k] == y;
                    if k < rest.len() {
                        assert(rest[k] == y);
                        assert(rest.contains(y));
                    }
                }
                if u.contains(y) {
                    let i = choose|i: int| 0 <= i < u.len() && u[i] == y;
                    assert(t[i] == y);
                } else {
                    assert(t[u.len() as int] == s.last());
                }
            }
        }
        assert(t.contains(x));
    } else {
        assert(t[s.len() as int] == x);
        assert forall|y: Seq<char>| #[trigger] t.contains(y) <==> s.contains(y) || y == x by {
            if s.contains(y) {
                let k = choose|k: int| 0 <= k < s.len() && s[k] == y;
                assert(t[k] == y);
            }
        }
    }
}

proof fn lemma_in_order_members(s: Seq<Seq<char>>)
    ensures
        forall|y: Seq<char>| #[trigger] in_order(s).contains(y) <==> s.contains(y),
    decreases s.len(),
{
    if s.len() > 0 {
        let rest = s.drop_last();
        lemma_in_order_members(rest);
        lemma_with_name_members(in_order(rest), s.last());
        assert forall|y: Seq<char>| #[trigger] in_order(s).contains(y) <==> s.contains(y) by {
            if s.contains(y) {
                let k = choose|k: int| 0 <= k < s.len() && s[k] == y;
                if k < rest.len() {
                    assert(rest[k] == y);
                    assert(rest.contains(y));
                    assert(in_order(rest).contains(y));
                }
            }
            if in_order(s).contains(y) {
                if in_order(rest).contains(y) {
                    assert(rest.contains(y));
                    let k = choose|k: int| 0 <= k < rest.len() && rest[k] == y;
                    assert(s[k] == y);
                } else {
                    assert(s[s.len() - 1] == y);
                }
            }
        }
    } else {
        assert forall|y: Seq<char>| #[trigger] in_order(s).contains(y) <==> s.contains(y) by {}
    }
}

proof fn lemma_found_ends(edges: Seq<EdgeView>, seeds: Seq<Seq<char>>, k: int)
    requires
        0 <= k < edges.len(),
    ensures
        !seeds.contains(edges[k].dst) ==> found_ends(edges, seeds).contains(edges[k].dst),
    decreases edges.len(),
{
    let all = found_ends(edges, seeds);
    let rest = edges.drop_last();
    let before = found_ends(rest, seeds);
    if !seeds.contains(edges[k].dst) {
        if k < rest.len() {
            lemma_found_ends(rest, seeds, k);
            assert(rest[k] == edges[k]);
            let i = choose|i: int| 0 <= i < before.len() && before[i] == edges[k].dst;
            assert(all[i] == edges[k].dst);
        } else {
            assert(all[all.len() - 1] == edges[k].dst);
        }
    }
}

/// Of every edge from a seed the first view shows the link, valued one, and both its
/// ends, unless more than 480 edges start at seeds or more than 120 other nodes are at
/// their ends.
pub proof fn first_views_show_what_seeds_lead_to(v: StoreView, seeds: Seq<Seq<char>>, k: int)
    requires
        sound(v),
        0 <= k < v.edges.len(),
        seeds.contains(v.edges[k].src),
        v.edges.filter(|e: EdgeView| seeds.contains(e.src)).len() <= 480,
        in_order(found_ends(seed_edges(v.edges, seeds), seeds)).len() <= 120,
    ensures
        ({
            let g = view_from(v, seeds);
            &&& exists|j: int|
                0 <= j < g.links.len() && (#[trigger] g.links[j]).source == v.edges[k].src
                    && g.links[j].target == v.edges[k].dst && g.links[j].edge_type
                    == v.edges[k].kind && g.links[j].value == 1
            &&& exists|j: int|
                0 <= j < g.nodes.len() && (#[trigger] g.nodes[j]).id == v.edges[k].src
            &&& exists|j: int|
                0 <= j < g.nodes.len() && (#[trigger] g.nodes[j]).id == v.edges[k].dst
        }),
{
    let g = view_from(v, seeds);
    let e = v.edges[k];
    let q = |e: EdgeView| seeds.contains(e.src);
    let back = v.edges.reverse();
    lemma_kept_members(back, q);
    assert(back[v.edges.len() - 1 - k] == e);
    assert(back.contains(e));
    assert(q(e));
    assert(kept(back, q).contains(e));
    lemma_filter_reverse(v.edges, q);
    crate::seqs::keeping_is_filtering(back, q);
    let edges = seed_edges(v.edges, seeds);
    assert(edges == kept(back, q));
    let m = choose|m: int| 0 <= m < edges.len() && edges[m] == e;
    lemma_found_ends(edges, seeds, m);
    let ends = found_ends(edges, seeds);
    lemma_in_order_members(ends);
    let ids = included(v.edges, seeds);
    assert(ids == seeds + in_order(ends));
    let a = choose|a: int| 0 <= a < seeds.len() && seeds[a] == e.src;
    assert(ids[a] == e.src);
    assert(ids.contains(e.src));
    assert(ids.contains(e.dst)) by {
        if seeds.contains(e.dst) {
            let b = choose|b: int| 0 <= b < seeds.len() && seeds[b] == e.dst;
            assert(ids[b] == e.dst);
        } else {
            assert(in_order(ends).contains(e.dst));
            let b = choose|b: int| 0 <= b < in_order(ends).len() && in_order(ends)[b] == e.dst;
            assert(ids[seeds.len() + b] == e.dst);
        }
    }
    let p = |e: EdgeView| ids.contains(e.src) && ids.contains(e.dst);
    lemma_kept_members(edges, p);
    assert(edges.contains(e));
    assert(p(e));
    assert(kept(edges, p).contains(e));
    let j = choose|j: int| 0 <= j < kept(edges, p).len() && kept(edges, p)[j] == e;
    assert(g.links[j].source == e.src && g.links[j].target == e.dst);
    assert(has_node(v.nodes, v.edges[k].src) && has_node(v.nodes, v.edges[k].dst));
    lemma_shown(v, ids, e.src);
    let from = choose|i: int|
        0 <= i < shown_nodes(v.nodes, ids).len() && (#[trigger] shown_nodes(v.nodes, ids)[i]).id
            == e.src;
    assert(g.nodes[from].id == e.src);
    lemma_shown(v, ids, e.dst);
    let to = choose|i: int|
        0 <= i < shown_nodes(v.nodes, ids).len() && (#[trigger] shown_nodes(v.nodes, ids)[i]).id
            == e.dst;
    assert(g.nodes[to].id == e.dst);
}

proof fn lemma_filter_reverse(s: Seq<EdgeView>, p: spec_fn(EdgeView) -> bool)
    ensures
        s.reverse().filter(p).len() == s.filter(p).len(),
    decreases s.len(),
{
    reveal(Seq::filter);
    if s.len() > 0 {
        let rest = s.drop_last();
        lemma_filter_reverse(rest, p);
        assert(s.reverse() =~= seq![s.last()] + rest.reverse());
        Seq::filter_distributes_over_add(seq![s.last()], rest.reverse(), p);
        let one = seq![s.last()];
        assert(one.drop_last() =~= Seq::<EdgeView>::empty());
        assert(one.drop_last().filter(p).len() == 0);
        assert(one.last() == s.last());
        assert(one.filter(p).len() == s.filter(p).len() - rest.filter(p).len());
    } else {
        assert(s.reverse() =~= s);
    }
}

/// Whether every name comes before those behind it.
pub open spec fn ascending(s: Seq<Seq<char>>) -> bool {
    forall|i: int, j: int| 0 <= i < j < s.len() ==> lex_lt(#[trigger] s[i], #[trigger] s[j])
}

proof fn lemma_with_name_ascends(s: Seq<Seq<char>>, x: Seq<char>)
    requires
        ascending(s),
    ensures
        ascending(with_name(s, x)),
    decreases s.len(),
{
    let t = with_name(s, x);
    if s.len() > 0 {
        let rest = s.drop_last();
        let last = s.last();
        crate::text::lemma_lex_total(x, last);
        assert(ascending(rest));
        if x != last && lex_lt(x, last) {
            lemma_with_name_ascends(rest, x);
            lemma_with_name_members(rest, x);
            let u = with_name(rest, x);
            assert forall|i: int, j: int| 0 <= i < j < t.len() implies lex_lt(
                #[trigger] t[i],
                #[trigger] t[j],
            ) by {
                if j == u.len() {
                    assert(u.contains(u[i]));
                    if u[i] != x {
                        let k = choose|k: int| 0 <= k < rest.len() && rest[k] == u[i];
                        assert(lex_lt(s[k], s[s.len() - 1]));
                    }
                }
            }
        } else if x != last {
            assert forall|i: int, j: int| 0 <= i < j < t.len() implies lex_lt(
                #[trigger] t[i],
                #[trigger] t[j],
            ) by {
                if j == s.len() {
                    if i < s.len() - 1 {
                        assert(lex_lt(s[i], s[s.len() - 1]));
                        crate::text::lemma_lex_transitive(s[i], last, x);
                    }
                }
            }
        }
    }
}

/// Names are put in order, each once, and none is added or lost.
pub proof fn names_are_put_in_order(s: Seq<Seq<char>>)
    ensures
        forall|i: int, j: int|
            0 <= i < j < in_order(s).len() ==> lex_lt(
                #[trigger] in_order(s)[i],
                #[trigger] in_order(s)[j],
            ),
        forall|y: Seq<char>| #[trigger] in_order(s).contains(y) <==> s.contains(y),
    decreases s.len(),
{
    lemma_in_order_members(s);
    if s.len() > 0 {
        names_are_put_in_order(s.drop_last());
        assert(ascending(in_order(s.drop_last())));
        lemma_with_name_ascends(in_order(s.drop_last()), s.last());
    }
}

/// Of the edges from seeds those are taken first that came last.
pub proof fn the_latest_edges_are_taken(edges: Seq<EdgeView>, seeds: Seq<Seq<char>>, e: EdgeView)
    requires
        seeds.contains(e.src),
    ensures
        seed_edges(edges.push(e), seeds).len() > 0,
        seed_edges(edges.push(e), seeds)[0] == e,
        seed_edges(edges.push(e), seeds).drop_first() == if seed_edges(edges, seeds).len() < 480 {
            seed_edges(edges, seeds)
        } else {
            seed_edges(edges, seeds).take(479)
        },
{
    let p = |e: EdgeView| seeds.contains(e.src);
    let back = edges.reverse();
    let all = edges.push(e).reverse();
    let one = seq![e];
    assert(all =~= one + back);
    crate::seqs::keeping_is_filtering(all, p);
    crate::seqs::keeping_is_filtering(back, p);
    Seq::filter_distributes_over_add(one, back, p);
    reveal(Seq::filter);
    assert(one.drop_last() =~= Seq::<EdgeView>::empty());
    assert(one.drop_last().filter(p) =~= Seq::<EdgeView>::empty());
    assert(one.filter(p) =~= one);
    assert(kept(all, p) =~= one + kept(back, p));
    let after = seed_edges(edges.push(e), seeds);
    let before = seed_edges(edges, seeds);
    if kept(back, p).len() < 480 {
        assert(after.drop_first() =~= before);
    } else {
        assert(after.drop_first() =~= before.take(479));
    }
}

} // verus!
