//! The graph as it is stored: nodes, edges, what is indexed for search, and what
//! is parked for the user to decide.

pub mod again;
pub mod derive;
pub mod edges;
pub mod extract;
pub mod found;
pub mod lookup;
pub mod queue;
pub mod rebuild;
pub mod sources;

use crate::double::Double;
use crate::json::{Json, JsonTree};
use crate::seqs::{distinct_by, kept, lemma_kept_step};
use crate::text::{contains_text, same, texts};
use vstd::prelude::*;

verus! {

// Rows -------------------------------------------------------------------

/// A node of the graph.
#[derive(Debug)]
pub struct NodeRow {
    pub id: String,
    pub kind: String,
    pub name: String,
    pub props: Json,
    pub created: String,
    pub updated: String,
}

/// An edge of the graph. Its properties tell how often it was found, and in which
/// messages.
#[derive(Debug)]
pub struct EdgeRow {
    pub src: String,
    pub dst: String,
    pub kind: String,
    pub props: Json,
}

/// Something that was found with too little confidence for the graph.
#[derive(Debug)]
pub struct ParkedRow {
    pub id: u64,
    pub conversation_id: String,
    pub kind: String,
    pub payload: Json,
    pub confidence: Double,
    pub created_at: String,
}

/// The bits of an embedding's components, by which a node is found.
#[derive(Debug)]
pub struct VectorRow {
    pub node_id: String,
    pub embedding: Vec<u32>,
}

/// The words by which a node is found.
#[derive(Debug)]
pub struct TextRow {
    pub node_id: String,
    pub name: String,
    pub description: String,
}

/// What a node holds.
pub ghost struct NodeView {
    pub id: Seq<char>,
    pub kind: Seq<char>,
    pub name: Seq<char>,
    pub props: JsonTree,
    pub created: Seq<char>,
    pub updated: Seq<char>,
}

/// What an edge holds.
pub ghost struct EdgeView {
    pub src: Seq<char>,
    pub dst: Seq<char>,
    pub kind: Seq<char>,
    pub props: JsonTree,
}

/// What a parked item holds.
pub ghost struct ParkedView {
    pub id: u64,
    pub conversation_id: Seq<char>,
    pub kind: Seq<char>,
    pub payload: JsonTree,
    pub confidence: Double,
    pub created_at: Seq<char>,
}

/// What an embedding holds.
pub ghost struct VectorView {
    pub node_id: Seq<char>,
    pub embedding: Seq<u32>,
}

/// What an entry of the word index holds.
pub ghost struct TextView {
    pub node_id: Seq<char>,
    pub name: Seq<char>,
    pub description: Seq<char>,
}

impl View for NodeRow {
    type V = NodeView;

    open spec fn view(&self) -> NodeView {
        NodeView {
            id: self.id@,
            kind: self.kind@,
            name: self.name@,
            props: self.props@,
            created: self.created@,
            updated: self.updated@,
        }
    }
}

impl View for EdgeRow {
    type V = EdgeView;

    open spec fn view(&self) -> EdgeView {
        EdgeView {
            src: self.src@,
            dst: self.dst@,
            kind: self.kind@,
            props: self.props@,
        }
    }
}

impl View for ParkedRow {
    type V = ParkedView;

    open spec fn view(&self) -> ParkedView {
        ParkedView {
            id: self.id,
            conversation_id: self.conversation_id@,
            kind: self.kind@,
            payload: self.payload@,
            confidence: self.confidence,
            created_at: self.created_at@,
        }
    }
}

impl View for VectorRow {
    type V = VectorView;

    open spec fn view(&self) -> VectorView {
        VectorView { node_id: self.node_id@, embedding: self.embedding@ }
    }
}

impl View for TextRow {
    type V = TextView;

    open spec fn view(&self) -> TextView {
        TextView { node_id: self.node_id@, name: self.name@, description: self.description@ }
    }
}

/// The contents of a list of rows.
pub open spec fn views<T: View>(v: Seq<T>) -> Seq<T::V> {
    v.map_values(|t: T| t@)
}

pub proof fn lemma_views_push<T: View>(v: Seq<T>, t: T)
    ensures
        views(v.push(t)) == views(v).push(t@),
{
    assert(views(v.push(t)) =~= views(v).push(t@));
}

// The store --------------------------------------------------------------

/// The whole graph with its indexes and what is parked.
#[derive(Debug)]
pub struct Store {
    pub nodes: Vec<NodeRow>,
    pub edges: Vec<EdgeRow>,
    pub parked: Vec<ParkedRow>,
    pub vectors: Vec<VectorRow>,
    pub words: Vec<TextRow>,
    /// The number that the next parked item gets.
    pub next_parked: u64,
}

/// What a store holds.
pub ghost struct StoreView {
    pub nodes: Seq<NodeView>,
    pub edges: Seq<EdgeView>,
    pub parked: Seq<ParkedView>,
    pub vectors: Seq<VectorView>,
    pub words: Seq<TextView>,
    pub next_parked: u64,
}

impl View for Store {
    type V = StoreView;

    open spec fn view(&self) -> StoreView {
        StoreView {
            nodes: views(self.nodes@),
            edges: views(self.edges@),
            parked: views(self.parked@),
            vectors: views(self.vectors@),
            words: views(self.words@),
            next_parked: self.next_parked,
        }
    }
}

/// Whether one of the nodes has the name.
pub open spec fn has_node(nodes: Seq<NodeView>, id: Seq<char>) -> bool {
    exists|i: int| 0 <= i < nodes.len() && (#[trigger] nodes[i]).id == id
}

/// Whether one of the nodes has the name and is a conversation.
pub open spec fn is_conversation(nodes: Seq<NodeView>, id: Seq<char>) -> bool {
    exists|i: int|
        0 <= i < nodes.len() && (#[trigger] nodes[i]).id == id && nodes[i].kind
            == "conversation"@
}

/// The key of an edge.
pub open spec fn edge_key(e: EdgeView) -> (Seq<char>, Seq<char>, Seq<char>) {
    (e.src, e.dst, e.kind)
}

/// Whether a store is sound: no two nodes have the same name, no two edges the
/// same ends and type, no two parked items the same number; what is linked or
/// indexed is there, and what is parked is parked from a conversation.
pub open spec fn sound(v: StoreView) -> bool {
    &&& distinct_by(v.nodes, |n: NodeView| n.id)
    &&& distinct_by(v.edges, |e: EdgeView| edge_key(e))
    &&& distinct_by(v.parked, |p: ParkedView| p.id)
    &&& forall|i: int|
        0 <= i < v.edges.len() ==> has_node(v.nodes, (#[trigger] v.edges[i]).src) && has_node(
            v.nodes,
            v.edges[i].dst,
        )
    &&& forall|i: int|
        0 <= i < v.parked.len() ==> is_conversation(
            v.nodes,
            (#[trigger] v.parked[i]).conversation_id,
        ) && v.parked[i].id < v.next_parked
    &&& forall|i: int|
        0 <= i < v.vectors.len() ==> has_node(v.nodes, (#[trigger] v.vectors[i]).node_id)
    &&& forall|i: int| 0 <= i < v.words.len() ==> has_node(v.nodes, (#[trigger] v.words[i]).node_id)
}

/// The empty store.
pub open spec fn empty_store() -> StoreView {
    StoreView {
        nodes: Seq::empty(),
        edges: Seq::empty(),
        parked: Seq::empty(),
        vectors: Seq::empty(),
        words: Seq::empty(),
        next_parked: 1,
    }
}

impl Store {
    /// A store with nothing in it.
    pub fn new() -> (r: Store)
        ensures
            r@ == empty_store(),
            sound(r@),
    {
        let r = Store {
            nodes: Vec::new(),
            edges: Vec::new(),
            parked: Vec::new(),
            vectors: Vec::new(),
            words: Vec::new(),
            next_parked: 1,
        };
        assert(r@.nodes =~= Seq::<NodeView>::empty());
        assert(r@.edges =~= Seq::<EdgeView>::empty());
        assert(r@.parked =~= Seq::<ParkedView>::empty());
        assert(r@.vectors =~= Seq::<VectorView>::empty());
        assert(r@.words =~= Seq::<TextView>::empty());
        r
    }

    /// Whether a node has the name.
    pub fn contains_node(&self, id: &str) -> (r: bool)
        ensures
            r == has_node(self@.nodes, id@),
    {
        let mut i: usize = 0;
        while i < self.nodes.len()
            invariant
                i <= self.nodes@.len(),
                forall|k: int| 0 <= k < i ==> (#[trigger] self@.nodes[k]).id != id@,
            decreases self.nodes@.len() - i,
        {
            assert(self@.nodes[i as int] == self.nodes@[i as int]@);
            if same(self.nodes[i].id.as_str(), id) {
                return true;
            }
            i = i + 1;
        }
        false
    }

    /// Whether a conversation has the name.
    pub fn contains_conversation(&self, id: &str) -> (r: bool)
        ensures
            r == is_conversation(self@.nodes, id@),
    {
        let mut i: usize = 0;
        while i < self.nodes.len()
            invariant
                i <= self.nodes@.len(),
                forall|k: int|
                    0 <= k < i ==> !((#[trigger] self@.nodes[k]).id == id@ && self@.nodes[k].kind
                        == "conversation"@),
            decreases self.nodes@.len() - i,
        {
            assert(self@.nodes[i as int] == self.nodes@[i as int]@);
            if same(self.nodes[i].id.as_str(), id) && same(
                self.nodes[i].kind.as_str(),
                "conversation",
            ) {
                return true;
            }
            i = i + 1;
        }
        false
    }
}

// Taking rows out --------------------------------------------------------

/// Rows that stand under a name.
pub trait Keyed: Sized {
    spec fn key(self) -> Seq<char>;

    fn key_text(&self) -> (r: &str)
        ensures
            r@ == self.key(),
    ;
}

impl Keyed for NodeRow {
    open spec fn key(self) -> Seq<char> {
        self.id@
    }

    fn key_text(&self) -> (r: &str) {
        self.id.as_str()
    }
}

impl Keyed for ParkedRow {
    open spec fn key(self) -> Seq<char> {
        self.conversation_id@
    }

    fn key_text(&self) -> (r: &str) {
        self.conversation_id.as_str()
    }
}

impl Keyed for VectorRow {
    open spec fn key(self) -> Seq<char> {
        self.node_id@
    }

    fn key_text(&self) -> (r: &str) {
        self.node_id.as_str()
    }
}

impl Keyed for TextRow {
    open spec fn key(self) -> Seq<char> {
        self.node_id@
    }

    fn key_text(&self) -> (r: &str) {
        self.node_id.as_str()
    }
}

/// The rows whose key is none of the given ones.
pub fn without<T: Keyed>(rows: Vec<T>, gone: &Vec<String>) -> (r: Vec<T>)
    ensures
        r@ == kept(rows@, |t: T| !texts(gone@).contains(t.key())),
{
    let ghost whole = rows@;
    let ghost p = |t: T| !texts(gone@).contains(t.key());
    let mut out: Vec<T> = Vec::new();
    assert(whole.take(0) =~= Seq::<T>::empty());
    for row in it: rows
        invariant
            whole == it.seq(),
            p == (|t: T| !texts(gone@).contains(t.key())),
            out@ == kept(whole.take(it.index() as int), p),
    {
        proof {
            lemma_kept_step(whole, p, it.index() as int);
        }
        if !contains_text(gone, row.key_text()) {
            out.push(row);
        }
    }
    assert(whole.take(whole.len() as int) =~= whole);
    out
}

/// The edges that have none of the nodes at an end.
pub fn edges_without(edges: Vec<EdgeRow>, gone: &Vec<String>) -> (r: Vec<EdgeRow>)
    ensures
        views(r@) == kept(
            views(edges@),
            |e: EdgeView| !texts(gone@).contains(e.src) && !texts(gone@).contains(e.dst),
        ),
{
    let ghost whole = edges@;
    let ghost all = views(whole);
    let ghost p = |e: EdgeView| !texts(gone@).contains(e.src) && !texts(gone@).contains(e.dst);
    let mut out: Vec<EdgeRow> = Vec::new();
    assert(all.take(0) =~= Seq::<EdgeView>::empty());
    assert(views(out@) =~= Seq::<EdgeView>::empty());
    for row in it: edges
        invariant
            whole == it.seq(),
            all == views(whole),
            p == (|e: EdgeView|
                !texts(gone@).contains(e.src) && !texts(gone@).contains(e.dst)),
            views(out@) == kept(all.take(it.index() as int), p),
    {
        proof {
            lemma_kept_step(all, p, it.index() as int);
            lemma_views_push(out@, row);
        }
        if !contains_text(gone, row.src.as_str()) && !contains_text(gone, row.dst.as_str()) {
            out.push(row);
        }
    }
    assert(all.take(whole.len() as int) =~= all);
    out
}

/// What is kept of the contents is the contents of what is kept.
pub proof fn lemma_kept_views<T: View>(
    s: Seq<T>,
    p: spec_fn(T) -> bool,
    q: spec_fn(T::V) -> bool,
)
    requires
        forall|i: int| 0 <= i < s.len() ==> p(#[trigger] s[i]) == q(s[i]@),
    ensures
        views(kept(s, p)) == kept(views(s), q),
    decreases s.len(),
{
    if s.len() > 0 {
        let rest = s.drop_last();
        assert forall|i: int| 0 <= i < rest.len() implies p(#[trigger] rest[i]) == q(rest[i]@) by {
            assert(rest[i] == s[i]);
        }
        lemma_kept_views(rest, p, q);
        assert(views(s).drop_last() =~= views(rest));
        assert(views(s).last() == s.last()@);
        assert(p(s[s.len() - 1]) == q(s[s.len() - 1]@));
        lemma_views_push(kept(rest, p), s.last());
    } else {
        assert(views(kept(s, p)) =~= kept(views(s), q));
    }
}

} // verus!
