//! Finding things in the store, and marking them.

use super::{
    edge_key, has_node, is_conversation, sound, views, EdgeRow, EdgeView, NodeRow, NodeView,
    ParkedRow, ParkedView, Store, StoreView,
};
use crate::json::{entry_trees, Json, JsonTree};
use crate::seqs::distinct_by;
use crate::text::{same, text_opt};
use vstd::prelude::*;

verus! {

// Finding ----------------------------------------------------------------

/// The first pattern with the name.
pub open spec fn pattern_with(nodes: Seq<NodeView>, name: Seq<char>) -> Option<Seq<char>>
    decreases nodes.len(),
{
    if nodes.len() == 0 {
        None
    } else if nodes[0].kind == "pattern"@ && nodes[0].name == name {
        Some(nodes[0].id)
    } else {
        pattern_with(nodes.drop_first(), name)
    }
}

/// The title of the first conversation with the id, and when it was created.
pub open spec fn head_of(nodes: Seq<NodeView>, id: Seq<char>) -> Option<(Seq<char>, Seq<char>)>
    decreases nodes.len(),
{
    if nodes.len() == 0 {
        None
    } else if nodes[0].id == id && nodes[0].kind == "conversation"@ {
        Some((nodes[0].name, nodes[0].created))
    } else {
        head_of(nodes.drop_first(), id)
    }
}

impl Store {
    /// The pattern with the name.
    pub fn pattern_named(&self, name: &str) -> (r: Option<String>)
        ensures
            text_opt(r) == pattern_with(self@.nodes, name@),
    {
        let ghost all = self@.nodes;
        let mut i: usize = 0;
        assert(all.skip(0) =~= all);
        while i < self.nodes.len()
            invariant
                i <= self.nodes@.len(),
                all == self@.nodes,
                pattern_with(all, name@) == pattern_with(all.skip(i as int), name@),
            decreases self.nodes@.len() - i,
        {
            assert(all.skip(i as int)[0] == self.nodes@[i as int]@);
            if same(self.nodes[i].kind.as_str(), "pattern") && same(
                self.nodes[i].name.as_str(),
                name,
            ) {
                return Some(self.nodes[i].id.clone());
            }
            assert(all.skip(i as int).drop_first() =~= all.skip(i + 1));
            i = i + 1;
        }
        None
    }

    /// The title of the conversation, and when it was created.
    pub fn conversation_head(&self, id: &str) -> (r: Option<(String, String)>)
        ensures
            match r {
                Some(x) => head_of(self@.nodes, id@) == Some((x.0@, x.1@)),
                None => head_of(self@.nodes, id@) is None,
            },
    {
        let ghost all = self@.nodes;
        let mut i: usize = 0;
        assert(all.skip(0) =~= all);
        while i < self.nodes.len()
            invariant
                i <= self.nodes@.len(),
                all == self@.nodes,
                head_of(all, id@) == head_of(all.skip(i as int), id@),
            decreases self.nodes@.len() - i,
        {
            assert(all.skip(i as int)[0] == self.nodes@[i as int]@);
            if same(self.nodes[i].id.as_str(), id) && same(
                self.nodes[i].kind.as_str(),
                "conversation",
            ) {
                return Some((self.nodes[i].name.clone(), self.nodes[i].created.clone()));
            }
            assert(all.skip(i as int).drop_first() =~= all.skip(i + 1));
            i = i + 1;
        }
        None
    }
}

// Marking orphans --------------------------------------------------------

/// The entries with the value under the key: in place of the one that is there,
/// or else behind the others.
pub open spec fn with_entry(
    entries: Seq<(Seq<char>, JsonTree)>,
    key: Seq<char>,
    value: JsonTree,
) -> Seq<(Seq<char>, JsonTree)>
    decreases entries.len(),
{
    if entries.len() == 0 {
        seq![(key, value)]
    } else if entries[0].0 == key {
        seq![(key, value)] + entries.drop_first()
    } else {
        seq![entries[0]] + with_entry(entries.drop_first(), key, value)
    }
}

/// The properties with the value under the key; what is no object stays.
pub open spec fn with_prop(props: JsonTree, key: Seq<char>, value: JsonTree) -> JsonTree {
    match props {
        JsonTree::Null => JsonTree::Object(seq![(key, value)]),
        JsonTree::Object(entries) => JsonTree::Object(with_entry(entries, key, value)),
        _ => props,
    }
}

/// The nodes with the mark on the named one.
pub open spec fn marked(nodes: Seq<NodeView>, id: Seq<char>, mark: Seq<char>) -> Seq<NodeView> {
    nodes.map_values(
        |n: NodeView|
            if n.id == id {
                NodeView {
                    props: with_prop(n.props, "orphan_state"@, JsonTree::Str(mark)),
                    ..n
                }
            } else {
                n
            },
    )
}

fn put_entry(entries: &Vec<(String, Json)>, key: &str, value: &Json) -> (r: Vec<(String, Json)>)
    ensures
        entry_trees(r@) == with_entry(entry_trees(entries@), key@, value@),
{
    let ghost all = entry_trees(entries@);
    let ghost whole = with_entry(all, key@, value@);
    let mut out: Vec<(String, Json)> = Vec::new();
    let mut i: usize = 0;
    assert(all.skip(0) =~= all);
    assert(entry_trees(out@) + with_entry(all.skip(0), key@, value@) =~= whole);
    while i < entries.len()
        invariant
            i <= entries@.len(),
            all == entry_trees(entries@),
            out@.len() == i,
            whole == with_entry(all, key@, value@),
            entry_trees(out@) + with_entry(all.skip(i as int), key@, value@) == whole,
        decreases entries@.len() - i,
    {
        let ghost rest = all.skip(i as int);
        let ghost before = entry_trees(out@);
        proof {
            assert(rest[0] == (entries@[i as int].0@, entries@[i as int].1@));
            assert(rest.drop_first() =~= all.skip(i + 1));
        }
        if same(entries[i].0.as_str(), key) {
            out.push((key.to_owned(), value.copy()));
            let ghost start = out@;
            proof {
                assert(entry_trees(out@) =~= before.push((key@, value@)));
            }
            let mut k: usize = i + 1;
            assert(entry_trees(out@) + all.skip(i + 1) =~= whole);
            while k < entries.len()
                invariant
                    i < k <= entries@.len(),
                    all == entry_trees(entries@),
                    entry_trees(out@) + all.skip(k as int) == whole,
                decreases entries@.len() - k,
            {
                let ghost had = entry_trees(out@);
                let e = (entries[k].0.clone(), entries[k].1.copy());
                out.push(e);
                proof {
                    let x = (entries@[k as int].0@, entries@[k as int].1@);
                    assert(all[k as int] == x);
                    assert(entry_trees(out@) =~= had.push(x));
                    assert(had + all.skip(k as int) =~= had.push(x) + all.skip(k + 1));
                }
                k = k + 1;
            }
            assert(entry_trees(out@) + all.skip(k as int) =~= entry_trees(out@));
            return out;
        }
        let e = (entries[i].0.clone(), entries[i].1.copy());
        out.push(e);
        proof {
            let x = rest[0];
            assert(entry_trees(out@) =~= before.push(x));
            assert(before + with_entry(rest, key@, value@) =~= before.push(x) + with_entry(
                all.skip(i + 1),
                key@,
                value@,
            ));
        }
        i = i + 1;
    }
    let ghost before = entry_trees(out@);
    assert(all.skip(i as int) =~= Seq::<(Seq<char>, JsonTree)>::empty());
    out.push((key.to_owned(), value.copy()));
    assert(entry_trees(out@) =~= before + seq![(key@, value@)]);
    out
}

pub(crate) fn put_prop(props: &Json, key: &str, value: &Json) -> (r: Json)
    ensures
        r@ == with_prop(props@, key@, value@),
{
    match props {
        Json::Null => {
            let entries = vec![(key.to_owned(), value.copy())];
            proof {
                crate::json::lemma_object_tree(entries);
                assert(entry_trees(entries@) =~= seq![(key@, value@)]);
            }
            Json::Object(entries)
        },
        Json::Object(entries) => {
            let out = put_entry(entries, key, value);
            proof {
                crate::json::lemma_object_tree(*entries);
                crate::json::lemma_object_tree(out);
            }
            Json::Object(out)
        },
        _ => props.copy(),
    }
}

impl Store {
    fn mark_orphan(&mut self, id: &str, mark: &str)
        ensures
            final(self)@ == (StoreView {
                nodes: marked(old(self)@.nodes, id@, mark@),
                ..old(self)@
            }),
    {
        let ghost before = self@.nodes;
        let ghost after = marked(before, id@, mark@);
        let value = Json::text(mark);
        let mut nodes: Vec<NodeRow> = Vec::new();
        std::mem::swap(&mut nodes, &mut self.nodes);
        let mut i: usize = 0;
        while i < nodes.len()
            invariant
                i <= nodes@.len(),
                nodes@.len() == before.len(),
                after == marked(before, id@, mark@),
                value@ == JsonTree::Str(mark@),
                forall|k: int| 0 <= k < i ==> (#[trigger] views(nodes@)[k]) == after[k],
                forall|k: int| i <= k < before.len() ==> (#[trigger] views(nodes@)[k]) == before[k],
            decreases nodes@.len() - i,
        {
            let ghost start = views(nodes@);
            assert(start[i as int] == nodes@[i as int]@);
            if same(nodes[i].id.as_str(), id) {
                let row = NodeRow {
                    id: nodes[i].id.clone(),
                    kind: nodes[i].kind.clone(),
                    name: nodes[i].name.clone(),
                    props: put_prop(&nodes[i].props, "orphan_state", &value),
                    created: nodes[i].created.clone(),
                    updated: nodes[i].updated.clone(),
                };
                nodes.set(i, row);
                assert(views(nodes@) =~= start.update(i as int, row@));
            }
            i = i + 1;
        }
        assert(views(nodes@) =~= after);
        self.nodes = nodes;
    }

    /// Marks the node as one that the user wants to see again.
    pub fn orphan_promote(&mut self, id: &str)
        ensures
            final(self)@ == (StoreView {
                nodes: marked(old(self)@.nodes, id@, "promoted"@),
                ..old(self)@
            }),
    {
        self.mark_orphan(id, "promoted");
    }

    /// Marks the node as one that the user has done with.
    pub fn orphan_archive(&mut self, id: &str)
        ensures
            final(self)@ == (StoreView {
                nodes: marked(old(self)@.nodes, id@, "archived"@),
                ..old(self)@
            }),
    {
        self.mark_orphan(id, "archived");
    }
}

// Soundness --------------------------------------------------------------

fn distinct_nodes(nodes: &Vec<NodeRow>) -> (r: bool)
    ensures
        r == distinct_by(views(nodes@), |n: NodeView| n.id),
{
    let ghost all = views(nodes@);
    let ghost f = |n: NodeView| n.id;
    let mut i: usize = 0;
    while i < nodes.len()
        invariant
            i <= nodes@.len(),
            all == views(nodes@),
            f == (|n: NodeView| n.id),
            forall|a: int, b: int| 0 <= a < b < i ==> f(#[trigger] all[a]) != f(#[trigger] all[b]),
        decreases nodes@.len() - i,
    {
        let mut k: usize = 0;
        while k < i
            invariant
                k <= i < nodes@.len(),
                all == views(nodes@),
                f == (|n: NodeView| n.id),
                forall|a: int| 0 <= a < k ==> f(#[trigger] all[a]) != f(all[i as int]),
            decreases i - k,
        {
            assert(all[k as int] == nodes@[k as int]@ && all[i as int] == nodes@[i as int]@);
            if same(nodes[k].id.as_str(), nodes[i].id.as_str()) {
                assert(f(all[k as int]) == f(all[i as int]));
                return false;
            }
            k = k + 1;
        }
        i = i + 1;
    }
    true
}

fn distinct_edges(edges: &Vec<EdgeRow>) -> (r: bool)
    ensures
        r == distinct_by(views(edges@), |e: EdgeView| edge_key(e)),
{
    let ghost all = views(edges@);
    let ghost f = |e: EdgeView| edge_key(e);
    let mut i: usize = 0;
    while i < edges.len()
        invariant
            i <= edges@.len(),
            all == views(edges@),
            f == (|e: EdgeView| edge_key(e)),
            forall|a: int, b: int| 0 <= a < b < i ==> f(#[trigger] all[a]) != f(#[trigger] all[b]),
        decreases edges@.len() - i,
    {
        let mut k: usize = 0;
        while k < i
            invariant
                k <= i < edges@.len(),
                all == views(edges@),
                f == (|e: EdgeView| edge_key(e)),
                forall|a: int| 0 <= a < k ==> f(#[trigger] all[a]) != f(all[i as int]),
            decreases i - k,
        {
            assert(all[k as int] == edges@[k as int]@ && all[i as int] == edges@[i as int]@);
            if same(edges[k].src.as_str(), edges[i].src.as_str()) && same(
                edges[k].dst.as_str(),
                edges[i].dst.as_str(),
            ) && same(edges[k].kind.as_str(), edges[i].kind.as_str()) {
                assert(f(all[k as int]) == f(all[i as int]));
                return false;
            }
            k = k + 1;
        }
        i = i + 1;
    }
    true
}

fn distinct_parked(parked: &Vec<ParkedRow>) -> (r: bool)
    ensures
        r == distinct_by(views(parked@), |p: ParkedView| p.id),
{
    let ghost all = views(parked@);
    let ghost f = |p: ParkedView| p.id;
    let mut i: usize = 0;
    while i < parked.len()
        invariant
            i <= parked@.len(),
            all == views(parked@),
            f == (|p: ParkedView| p.id),
            forall|a: int, b: int| 0 <= a < b < i ==> f(#[trigger] all[a]) != f(#[trigger] all[b]),
        decreases parked@.len() - i,
    {
        let mut k: usize = 0;
        while k < i
            invariant
                k <= i < parked@.len(),
                all == views(parked@),
                f == (|p: ParkedView| p.id),
                forall|a: int| 0 <= a < k ==> f(#[trigger] all[a]) != f(all[i as int]),
            decreases i - k,
        {
            assert(all[k as int] == parked@[k as int]@ && all[i as int] == parked@[i as int]@);
            if parked[k].id == parked[i].id {
                assert(f(all[k as int]) == f(all[i as int]));
                return false;
            }
            k = k + 1;
        }
        i = i + 1;
    }
    true
}

impl Store {
    fn edges_end(&self) -> (r: bool)
        ensures
            r == forall|i: int|
                0 <= i < self@.edges.len() ==> has_node(
                    self@.nodes,
                    (#[trigger] self@.edges[i]).src,
                ) && has_node(self@.nodes, self@.edges[i].dst),
    {
        let mut i: usize = 0;
        while i < self.edges.len()
            invariant
                i <= self.edges@.len(),
                forall|k: int|
                    0 <= k < i ==> has_node(self@.nodes, (#[trigger] self@.edges[k]).src)
                        && has_node(self@.nodes, self@.edges[k].dst),
            decreases self.edges@.len() - i,
        {
            assert(self@.edges[i as int] == self.edges@[i as int]@);
            if !self.contains_node(self.edges[i].src.as_str()) || !self.contains_node(
                self.edges[i].dst.as_str(),
            ) {
                return false;
            }
            i = i + 1;
        }
        true
    }

    fn parked_belong(&self) -> (r: bool)
        ensures
            r == forall|i: int|
                0 <= i < self@.parked.len() ==> is_conversation(
                    self@.nodes,
                    (#[trigger] self@.parked[i]).conversation_id,
                ) && self@.parked[i].id < self@.next_parked,
    {
        let mut i: usize = 0;
        while i < self.parked.len()
            invariant
                i <= self.parked@.len(),
                forall|k: int|
                    0 <= k < i ==> is_conversation(
                        self@.nodes,
                        (#[trigger] self@.parked[k]).conversation_id,
                    ) && self@.parked[k].id < self@.next_parked,
            decreases self.parked@.len() - i,
        {
            assert(self@.parked[i as int] == self.parked@[i as int]@);
            if !self.contains_conversation(self.parked[i].conversation_id.as_str())
                || self.parked[i].id >= self.next_parked {
                return false;
            }
            i = i + 1;
        }
        true
    }

    fn indexes_end(&self) -> (r: bool)
        ensures
            r == ((forall|i: int|
                0 <= i < self@.vectors.len() ==> has_node(
                    self@.nodes,
                    (#[trigger] self@.vectors[i]).node_id,
                )) && (forall|i: int|
                0 <= i < self@.words.len() ==> has_node(
                    self@.nodes,
                    (#[trigger] self@.words[i]).node_id,
                ))),
    {
        let mut i: usize = 0;
        while i < self.vectors.len()
            invariant
                i <= self.vectors@.len(),
                forall|k: int|
                    0 <= k < i ==> has_node(self@.nodes, (#[trigger] self@.vectors[k]).node_id),
            decreases self.vectors@.len() - i,
        {
            assert(self@.vectors[i as int] == self.vectors@[i as int]@);
            if !self.contains_node(self.vectors[i].node_id.as_str()) {
                return false;
            }
            i = i + 1;
        }
        let mut k: usize = 0;
        while k < self.words.len()
            invariant
                k <= self.words@.len(),
                forall|m: int|
                    0 <= m < k ==> has_node(self@.nodes, (#[trigger] self@.words[m]).node_id),
            decreases self.words@.len() - k,
        {
            assert(self@.words[k as int] == self.words@[k as int]@);
            if !self.contains_node(self.words[k].node_id.as_str()) {
                return false;
            }
            k = k + 1;
        }
        true
    }

    /// Whether the store is sound.
    pub fn is_sound(&self) -> (r: bool)
        ensures
            r == sound(self@),
    {
        distinct_nodes(&self.nodes) && distinct_edges(&self.edges) && distinct_parked(&self.parked)
            && self.edges_end() && self.parked_belong() && self.indexes_end()
    }
}

// Laws -------------------------------------------------------------------

/// A mark is read back under its key, whatever properties the node had before,
/// as long as they are an object or none.
pub proof fn marks_are_read_back(props: JsonTree, key: Seq<char>, value: JsonTree)
    requires
        props is Null || props is Object,
    ensures
        with_prop(props, key, value).get(key) == Some(value),
{
    match props {
        JsonTree::Object(entries) => {
            lemma_entry_read_back(entries, key, value);
        },
        _ => {
            assert(seq![(key, value)][0] == (key, value));
        },
    }
}

proof fn lemma_entry_read_back(
    entries: Seq<(Seq<char>, JsonTree)>,
    key: Seq<char>,
    value: JsonTree,
)
    ensures
        crate::json::lookup(with_entry(entries, key, value), key) == Some(value),
    decreases entries.len(),
{
    let w = with_entry(entries, key, value);
    if entries.len() == 0 || entries[0].0 == key {
        assert(w[0] == (key, value));
    } else {
        lemma_entry_read_back(entries.drop_first(), key, value);
        assert(w[0] == entries[0]);
        assert(w.drop_first() =~= with_entry(entries.drop_first(), key, value));
    }
}

/// A mark on one key leaves every other property as it was.
pub proof fn marks_leave_the_rest(
    entries: Seq<(Seq<char>, JsonTree)>,
    key: Seq<char>,
    value: JsonTree,
    other: Seq<char>,
)
    requires
        other != key,
    ensures
        crate::json::lookup(with_entry(entries, key, value), other) == crate::json::lookup(
            entries,
            other,
        ),
    decreases entries.len(),
{
    let w = with_entry(entries, key, value);
    if entries.len() == 0 {
        assert(w[0] == (key, value));
        assert(w.drop_first() =~= entries);
    } else if entries[0].0 == key {
        assert(w[0] == (key, value));
        assert(w.drop_first() =~= entries.drop_first());
    } else {
        marks_leave_the_rest(entries.drop_first(), key, value, other);
        assert(w[0] == entries[0]);
        assert(w.drop_first() =~= with_entry(entries.drop_first(), key, value));
    }
}

/// A pattern is found by its name wherever one has it, and it is the first that has;
/// nothing but patterns is found.
pub proof fn patterns_are_found_by_name(nodes: Seq<NodeView>, name: Seq<char>)
    ensures
        pattern_with(nodes, name) is None <==> forall|i: int|
            0 <= i < nodes.len() ==> !((#[trigger] nodes[i]).kind == "pattern"@ && nodes[i].name
                == name),
        pattern_with(nodes, name) matches Some(id) ==> exists|k: int|
            0 <= k < nodes.len() && (#[trigger] nodes[k]).id == id && nodes[k].kind == "pattern"@
                && nodes[k].name == name && forall|i: int|
                0 <= i < k ==> !((#[trigger] nodes[i]).kind == "pattern"@ && nodes[i].name == name),
    decreases nodes.len(),
{
    if nodes.len() > 0 {
        let rest = nodes.drop_first();
        assert forall|i: int| 0 <= i < rest.len() implies #[trigger] rest[i] == nodes[i + 1] by {}
        if nodes[0].kind == "pattern"@ && nodes[0].name == name {
            assert(nodes[0].id == pattern_with(nodes, name)->0);
        } else {
            patterns_are_found_by_name(rest, name);
            if pattern_with(rest, name) is None {
                assert forall|i: int| 0 <= i < nodes.len() implies !((
                #[trigger] nodes[i]).kind == "pattern"@ && nodes[i].name == name) by {
                    if i > 0 {
                        assert(rest[i - 1] == nodes[i]);
                    }
                }
            } else {
                let id = pattern_with(rest, name)->0;
                let k = choose|k: int|
                    0 <= k < rest.len() && (#[trigger] rest[k]).id == id && rest[k].kind
                        == "pattern"@ && rest[k].name == name && forall|i: int|
                        0 <= i < k ==> !((#[trigger] rest[i]).kind == "pattern"@ && rest[i].name
                            == name);
                assert(nodes[k + 1] == rest[k]);
                assert forall|i: int| 0 <= i < k + 1 implies !((
                #[trigger] nodes[i]).kind == "pattern"@ && nodes[i].name == name) by {
                    if i > 0 {
                        assert(rest[i - 1] == nodes[i]);
                    }
                }
            }
        }
    }
}

/// The head of a conversation is the title and the time of the first conversation
/// with the name; there is none exactly if no conversation has it.
pub proof fn heads_are_those_of_conversations(nodes: Seq<NodeView>, id: Seq<char>)
    ensures
        head_of(nodes, id) is None <==> forall|i: int|
            0 <= i < nodes.len() ==> !((#[trigger] nodes[i]).id == id && nodes[i].kind
                == "conversation"@),
        head_of(nodes, id) matches Some(h) ==> exists|k: int|
            0 <= k < nodes.len() && (#[trigger] nodes[k]).id == id && nodes[k].kind
                == "conversation"@ && nodes[k].name == h.0 && nodes[k].created == h.1,
    decreases nodes.len(),
{
    if nodes.len() > 0 {
        let rest = nodes.drop_first();
        assert forall|i: int| 0 <= i < rest.len() implies #[trigger] rest[i] == nodes[i + 1] by {}
        if nodes[0].id == id && nodes[0].kind == "conversation"@ {
            assert(nodes[0].id == id);
        } else {
            heads_are_those_of_conversations(rest, id);
            if head_of(rest, id) is None {
                assert forall|i: int| 0 <= i < nodes.len() implies !((#[trigger] nodes[i]).id == id
                    && nodes[i].kind == "conversation"@) by {
                    if i > 0 {
                        assert(rest[i - 1] == nodes[i]);
                    }
                }
            } else {
                let h = head_of(rest, id)->0;
                let k = choose|k: int|
                    0 <= k < rest.len() && (#[trigger] rest[k]).id == id && rest[k].kind
                        == "conversation"@ && rest[k].name == h.0 && rest[k].created == h.1;
                assert(nodes[k + 1] == rest[k]);
            }
        }
    }
}

/// A mark is put on every node with the name, under `orphan_state`, and nothing else
/// of any node changes.
pub proof fn marks_are_put_on_the_node(nodes: Seq<NodeView>, id: Seq<char>, mark: Seq<char>, i: int)
    requires
        0 <= i < nodes.len(),
    ensures
        marked(nodes, id, mark).len() == nodes.len(),
        nodes[i].id != id ==> marked(nodes, id, mark)[i] == nodes[i],
        ({
            let n = marked(nodes, id, mark)[i];
            n == (NodeView { props: n.props, ..nodes[i] })
        }),
        nodes[i].id == id && (nodes[i].props is Null || nodes[i].props is Object) ==> marked(
            nodes,
            id,
            mark,
        )[i].props.at("orphan_state"@) == JsonTree::Str(mark),
{
    if nodes[i].props is Null || nodes[i].props is Object {
        marks_are_read_back(nodes[i].props, "orphan_state"@, JsonTree::Str(mark));
    }
}

} // verus!
