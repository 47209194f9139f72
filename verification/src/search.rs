//! Searching the graph.

use crate::graph::{
    at_most, empty_graph, get_initial_graph, latest, latest_conversations, link_for, show_edge,
    show_nodes, shown, shown_nodes, view_from, GraphData, Link, Node, ShownGraph, ShownLink,
    ShownNode, SEED_CONVERSATIONS,
};
use crate::json::JsonTree;
use crate::natural::Natural;
use crate::seqs::{arrange, arranged, kept, lemma_kept_members, lemma_kept_step, Ranked};
use crate::store::{
    has_node, lemma_views_push, sound, views, EdgeRow, EdgeView, NodeView, Store, StoreView,
};
use crate::text::{contains_text, is_blank, same, texts, trimmed};
use vstd::prelude::*;

verus! {

// Fusing ranked lists ----------------------------------------------------

/// What is added to a rank before it is inverted.
pub const RRF_K: u128 = 60;

/// How many results each way of searching contributes at most.
pub const RETRIEVAL_POOL: usize = 30;

/// How many results are kept.
pub const FUSED_TOP: usize = 15;

/// The unit in which the scores for lists of up to `n` results are whole numbers:
/// the product of all the raised ranks.
pub open spec fn rrf_unit(n: nat) -> nat
    decreases n,
{
    if n == 0 {
        1
    } else {
        (60 + n) * rrf_unit((n - 1) as nat)
    }
}

/// The share of a result at the rank, counted from one, in lists of up to `n`
/// results: the inverse of the rank raised by sixty, in parts of the unit.
pub open spec fn share(n: nat, rank: nat) -> nat {
    rrf_unit(n) / (60 + rank)
}

/// What a list adds to the score of a result.
pub open spec fn list_score(n: nat, list: Seq<Seq<char>>, id: Seq<char>) -> nat
    decreases list.len(),
{
    if list.len() == 0 {
        0
    } else {
        list_score(n, list.drop_last(), id) + if list.last() == id {
            share(n, list.len())
        } else {
            0
        }
    }
}

/// What all the lists add to the score of a result.
pub open spec fn sum_of_shares(n: nat, lists: Seq<Seq<Seq<char>>>, id: Seq<char>) -> nat
    decreases lists.len(),
{
    if lists.len() == 0 {
        0
    } else {
        sum_of_shares(n, lists.drop_last(), id) + list_score(n, lists.last(), id)
    }
}

/// The length of the longest list.
pub open spec fn longest(lists: Seq<Seq<Seq<char>>>) -> nat
    decreases lists.len(),
{
    if lists.len() == 0 {
        0
    } else {
        let before = longest(lists.drop_last());
        if lists.last().len() > before {
            lists.last().len()
        } else {
            before
        }
    }
}

/// The score of a result, in parts of the unit for the longest list.
pub open spec fn score(lists: Seq<Seq<Seq<char>>>, id: Seq<char>) -> nat {
    sum_of_shares(longest(lists), lists, id)
}

/// The contents of the lists.
pub open spec fn list_texts(lists: Seq<Vec<String>>) -> Seq<Seq<Seq<char>>> {
    lists.map_values(|l: Vec<String>| texts(l@))
}

/// The names with those of the list that are new to them.
pub open spec fn names_with(known: Seq<Seq<char>>, list: Seq<Seq<char>>) -> Seq<Seq<char>>
    decreases list.len(),
{
    if list.len() == 0 {
        known
    } else {
        let before = names_with(known, list.drop_last());
        if before.contains(list.last()) {
            before
        } else {
            before.push(list.last())
        }
    }
}

/// All results, each once, in the order in which they come first.
pub open spec fn results(lists: Seq<Seq<Seq<char>>>) -> Seq<Seq<char>>
    decreases lists.len(),
{
    if lists.len() == 0 {
        Seq::empty()
    } else {
        names_with(results(lists.drop_last()), lists.last())
    }
}

/// A result with its score.
#[derive(Debug)]
pub struct Fused {
    pub score: Natural,
    pub id: String,
}

/// The highest score comes first.
impl Ranked for Fused {
    open spec fn ranks_before(self, other: Fused) -> bool {
        self.score@ > other.score@
    }

    proof fn ranking(a: Fused, b: Fused, c: Fused) {
    }

    fn precedes(&self, other: &Fused) -> (r: bool) {
        self.score.exceeds(&other.score)
    }
}

/// Whether the entries are those of the results, with their scores.
pub open spec fn scores(entries: Seq<Fused>, lists: Seq<Seq<Seq<char>>>) -> bool {
    entries.len() == results(lists).len() && forall|i: int|
        0 <= i < entries.len() ==> (#[trigger] entries[i]).id@ == results(lists)[i]
            && entries[i].score@ == score(lists, results(lists)[i])
}

/// The names of the entries.
pub open spec fn fused_names(entries: Seq<Fused>) -> Seq<Seq<char>> {
    entries.map_values(|f: Fused| f.id@)
}

/// Whether the names are those of all results, the highest score first.
pub open spec fn fuses(ids: Seq<Seq<char>>, lists: Seq<Seq<Seq<char>>>) -> bool {
    exists|entries: Seq<Fused>| #[trigger]
        scores(entries, lists) && ids == fused_names(arranged(entries))
}

/// The product of all the raised ranks but one.
spec fn others(n: nat, rank: nat) -> nat
    decreases n,
{
    if n == 0 {
        1
    } else if n == rank {
        others((n - 1) as nat, rank)
    } else {
        (60 + n) * others((n - 1) as nat, rank)
    }
}

proof fn lemma_others(n: nat, rank: nat)
    ensures
        rank > n ==> others(n, rank) == rrf_unit(n),
        1 <= rank <= n ==> others(n, rank) * (60 + rank) == rrf_unit(n),
    decreases n,
{
    if n > 0 {
        let m = (n - 1) as nat;
        lemma_others(m, rank);
        let o = others(m, rank);
        let d = 60 + rank;
        let e = 60 + n;
        if n == rank {
            assert(o * d == d * o) by (nonlinear_arith);
        } else if 1 <= rank <= m {
            assert((e * o) * d == e * (o * d)) by (nonlinear_arith);
        }
    }
}

proof fn lemma_share(n: nat, rank: nat)
    requires
        1 <= rank <= n,
    ensures
        share(n, rank) == others(n, rank),
        share(n, rank) * (60 + rank) == rrf_unit(n),
{
    lemma_others(n, rank);
    let o = others(n, rank);
    let d = 60 + rank;
    let u = rrf_unit(n);
    assert(u / d == o) by (nonlinear_arith)
        requires
            o * d == u,
            d > 0,
    ;
}

/// The share of a result at the rank.
fn share_of(n: usize, rank: usize) -> (r: Natural)
    requires
        1 <= rank <= n,
    ensures
        r@ == share(n as nat, rank as nat),
{
    let mut r = Natural::one();
    let mut k: usize = 0;
    while k < n
        invariant
            k <= n,
            r@ == others(k as nat, rank as nat),
        decreases n - k,
    {
        k = k + 1;
        if k != rank {
            let f: u128 = RRF_K + k as u128;
            proof {
                let o = others((k - 1) as nat, rank as nat);
                let fk = 60 + k as nat;
                assert(o * fk == fk * o) by (nonlinear_arith);
            }
            r = r.times(f);
        }
    }
    proof {
        lemma_share(n as nat, rank as nat);
    }
    r
}

fn score_in(n: usize, list: &Vec<String>, id: &str) -> (r: Natural)
    requires
        list@.len() <= n,
    ensures
        r@ == list_score(n as nat, texts(list@), id@),
{
    let ghost all = texts(list@);
    let mut total = Natural::zero();
    let mut i: usize = 0;
    assert(all.take(0) =~= Seq::<Seq<char>>::empty());
    while i < list.len()
        invariant
            i <= list@.len(),
            list@.len() <= n,
            all == texts(list@),
            total@ == list_score(n as nat, all.take(i as int), id@),
        decreases list@.len() - i,
    {
        proof {
            assert(all.take(i + 1).drop_last() =~= all.take(i as int));
            assert(all.take(i + 1).last() == list@[i as int]@);
        }
        if same(list[i].as_str(), id) {
            total = total.plus(&share_of(n, i + 1));
        }
        i = i + 1;
    }
    assert(all.take(i as int) =~= all);
    total
}

proof fn lemma_longest(lists: Seq<Seq<Seq<char>>>)
    ensures
        forall|i: int| 0 <= i < lists.len() ==> (#[trigger] lists[i]).len() <= longest(lists),
    decreases lists.len(),
{
    if lists.len() > 0 {
        let rest = lists.drop_last();
        lemma_longest(rest);
        assert forall|i: int| 0 <= i < lists.len() implies (#[trigger] lists[i]).len() <= longest(
            lists,
        ) by {
            if i < rest.len() {
                assert(rest[i] == lists[i]);
            }
        }
    }
}

fn longest_of(lists: &Vec<Vec<String>>) -> (r: usize)
    ensures
        r == longest(list_texts(lists@)),
        forall|i: int| 0 <= i < lists@.len() ==> (#[trigger] lists@[i])@.len() <= r,
{
    let ghost all = list_texts(lists@);
    let mut n: usize = 0;
    let mut i: usize = 0;
    assert(all.take(0) =~= Seq::<Seq<Seq<char>>>::empty());
    while i < lists.len()
        invariant
            i <= lists@.len(),
            all == list_texts(lists@),
            n == longest(all.take(i as int)),
        decreases lists@.len() - i,
    {
        proof {
            assert(all.take(i + 1).drop_last() =~= all.take(i as int));
            assert(all.take(i + 1).last() == texts(lists@[i as int]@));
        }
        if lists[i].len() > n {
            n = lists[i].len();
        }
        i = i + 1;
    }
    proof {
        assert(all.take(i as int) =~= all);
        lemma_longest(all);
        assert forall|k: int| 0 <= k < lists@.len() implies (#[trigger] lists@[k])@.len() <= n by {
            assert(all[k] == texts(lists@[k]@));
        }
    }
    n
}

fn total_score(n: usize, lists: &Vec<Vec<String>>, id: &str) -> (r: Natural)
    requires
        forall|i: int| 0 <= i < lists@.len() ==> (#[trigger] lists@[i])@.len() <= n,
    ensures
        r@ == sum_of_shares(n as nat, list_texts(lists@), id@),
{
    let ghost all = list_texts(lists@);
    let mut total = Natural::zero();
    let mut i: usize = 0;
    assert(all.take(0) =~= Seq::<Seq<Seq<char>>>::empty());
    while i < lists.len()
        invariant
            i <= lists@.len(),
            forall|i: int| 0 <= i < lists@.len() ==> (#[trigger] lists@[i])@.len() <= n,
            all == list_texts(lists@),
            total@ == sum_of_shares(n as nat, all.take(i as int), id@),
        decreases lists@.len() - i,
    {
        let more = score_in(n, &lists[i], id);
        proof {
            assert(all.take(i + 1).drop_last() =~= all.take(i as int));
            assert(all.take(i + 1).last() == texts(lists@[i as int]@));
        }
        total = total.plus(&more);
        i = i + 1;
    }
    assert(all.take(i as int) =~= all);
    total
}

fn all_results(lists: &Vec<Vec<String>>) -> (r: Vec<String>)
    ensures
        texts(r@) == results(list_texts(lists@)),
{
    let ghost all = list_texts(lists@);
    let mut out: Vec<String> = Vec::new();
    let mut i: usize = 0;
    assert(all.take(0) =~= Seq::<Seq<Seq<char>>>::empty());
    assert(texts(out@) =~= Seq::<Seq<char>>::empty());
    while i < lists.len()
        invariant
            i <= lists@.len(),
            all == list_texts(lists@),
            texts(out@) == results(all.take(i as int)),
        decreases lists@.len() - i,
    {
        let ghost known = texts(out@);
        let ghost list = texts(lists@[i as int]@);
        proof {
            assert(all.take(i + 1).drop_last() =~= all.take(i as int));
            assert(all.take(i + 1).last() == list);
            assert(list.take(0) =~= Seq::<Seq<char>>::empty());
        }
        let mut k: usize = 0;
        while k < lists[i].len()
            invariant
                i < lists@.len(),
                k <= lists@[i as int]@.len(),
                list == texts(lists@[i as int]@),
                texts(out@) == names_with(known, list.take(k as int)),
            decreases lists@[i as int]@.len() - k,
        {
            proof {
                assert(list.take(k + 1).drop_last() =~= list.take(k as int));
                assert(list.take(k + 1).last() == lists@[i as int]@[k as int]@);
            }
            if !contains_text(&out, lists[i][k].as_str()) {
                let id = lists[i][k].clone();
                proof {
                    crate::text::lemma_texts_push(out@, id);
                }
                out.push(id);
            }
            k = k + 1;
        }
        assert(list.take(k as int) =~= list);
        i = i + 1;
    }
    assert(all.take(i as int) =~= all);
    out
}

/// Fuses ranked lists by their reciprocal ranks: the results of all lists, the
/// highest score first.
pub fn rrf_fuse(ranked_lists: &Vec<Vec<String>>) -> (r: Vec<String>)
    ensures
        fuses(texts(r@), list_texts(ranked_lists@)),
{
    let ghost lists = list_texts(ranked_lists@);
    let ids = all_results(ranked_lists);
    let n: usize = longest_of(ranked_lists);
    let mut entries: Vec<Fused> = Vec::new();
    let mut i: usize = 0;
    while i < ids.len()
        invariant
            i <= ids@.len(),
            entries@.len() == i,
            lists == list_texts(ranked_lists@),
            texts(ids@) == results(lists),
            n == longest(lists),
            forall|i: int|
                0 <= i < ranked_lists@.len() ==> (#[trigger] ranked_lists@[i])@.len() <= n,
            forall|k: int|
                0 <= k < i ==> (#[trigger] entries@[k]).id@ == results(lists)[k]
                    && entries@[k].score@ == score(lists, results(lists)[k]),
        decreases ids@.len() - i,
    {
        assert(texts(ids@)[i as int] == ids@[i as int]@);
        let score = total_score(n, ranked_lists, ids[i].as_str());
        entries.push(Fused { score, id: ids[i].clone() });
        i = i + 1;
    }
    let ghost found = entries@;
    assert(scores(found, lists));
    let sorted = arrange(entries);
    let ghost names = fused_names(sorted@);
    let mut out: Vec<String> = Vec::new();
    let mut k: usize = 0;
    assert(texts(out@) =~= names.take(0));
    while k < sorted.len()
        invariant
            k <= sorted@.len(),
            names == fused_names(sorted@),
            texts(out@) == names.take(k as int),
        decreases sorted@.len() - k,
    {
        let id = sorted[k].id.clone();
        proof {
            crate::text::lemma_texts_push(out@, id);
            assert(names.take(k + 1) =~= names.take(k as int).push(id@));
        }
        out.push(id);
        k = k + 1;
    }
    assert(names.take(k as int) =~= names);
    out
}

// Expanding a graph ------------------------------------------------------

/// How many nodes are shown at most.
pub const GRAPH_NODE_CAP: usize = 25;

/// The value that a link has for an edge: how often it was found, or one where that
/// is not told as an integer.
pub open spec fn link_value(e: EdgeView) -> i64 {
    match e.props.at("count"@).as_i64() {
        Some(n) => n,
        None => 1,
    }
}

/// The value that a link has for an edge.
pub fn value_of(e: &EdgeRow) -> (r: i64)
    ensures
        r == link_value(e@),
{
    let told = match e.props.get("count") {
        Some(c) => c.as_i64(),
        None => None,
    };
    match told {
        Some(n) => n,
        None => 1,
    }
}

/// The names with one more, unless it is there.
pub open spec fn joined_by(s: Seq<Seq<char>>, x: Seq<char>) -> Seq<Seq<char>> {
    if s.contains(x) {
        s
    } else {
        s.push(x)
    }
}

/// The names, each once.
pub open spec fn once(s: Seq<Seq<char>>) -> Seq<Seq<char>> {
    names_with(Seq::empty(), s)
}

/// A graph under way: the names that are in it, the edges that were taken, and
/// whether it is full.
pub ghost struct Expansion {
    pub ids: Seq<Seq<char>>,
    pub edges: Seq<EdgeView>,
    pub full: bool,
}

/// One more edge: it is taken with both its ends, unless the graph is full.
pub open spec fn expanded(x: Expansion, e: EdgeView) -> Expansion {
    if x.full || (x.ids.len() >= GRAPH_NODE_CAP && !x.ids.contains(e.src) && !x.ids.contains(
        e.dst,
    )) {
        x
    } else {
        let ids = joined_by(joined_by(x.ids, e.src), e.dst);
        Expansion { ids, edges: x.edges.push(e), full: ids.len() >= GRAPH_NODE_CAP }
    }
}

/// The graph once the edges at the base were offered, one after the other.
pub open spec fn expansion(base: Seq<Seq<char>>, edges: Seq<EdgeView>) -> Expansion
    decreases edges.len(),
{
    if edges.len() == 0 {
        Expansion { ids: once(base), edges: Seq::empty(), full: false }
    } else {
        let x = expansion(base, edges.drop_last());
        let e = edges.last();
        if base.contains(e.src) || base.contains(e.dst) {
            expanded(x, e)
        } else {
            x
        }
    }
}

/// The names of the shown nodes.
pub open spec fn shown_ids(nodes: Seq<ShownNode>) -> Seq<Seq<char>> {
    nodes.map_values(|n: ShownNode| n.id)
}

/// The taken edges both of whose ends are shown, as they are shown.
pub open spec fn shown_links(edges: Seq<EdgeView>, ids: Seq<Seq<char>>) -> Seq<ShownLink> {
    kept(edges, |e: EdgeView| ids.contains(e.src) && ids.contains(e.dst)).map_values(
        |e: EdgeView| link_for(e, link_value(e)),
    )
}

/// The graph that is shown for the names: they and their neighbours, as far as
/// there is room.
pub open spec fn graph_of(v: StoreView, base: Seq<Seq<char>>) -> ShownGraph {
    if base.len() == 0 {
        empty_graph()
    } else {
        let x = expansion(base, v.edges);
        let nodes = at_most(shown_nodes(v.nodes, x.ids), GRAPH_NODE_CAP as int);
        ShownGraph { nodes, links: shown_links(x.edges, shown_ids(nodes)) }
    }
}

fn add_once(v: &mut Vec<String>, x: &str)
    ensures
        texts(final(v)@) == joined_by(texts(old(v)@), x@),
{
    if !contains_text(v, x) {
        let t = x.to_owned();
        proof {
            crate::text::lemma_texts_push(v@, t);
        }
        v.push(t);
    }
}

/// The names, each once.
pub fn names_once(v: &Vec<String>) -> (r: Vec<String>)
    ensures
        texts(r@) == once(texts(v@)),
{
    let ghost all = texts(v@);
    let mut out: Vec<String> = Vec::new();
    let mut i: usize = 0;
    assert(all.take(0) =~= Seq::<Seq<char>>::empty());
    assert(texts(out@) =~= Seq::<Seq<char>>::empty());
    while i < v.len()
        invariant
            i <= v@.len(),
            all == texts(v@),
            texts(out@) == names_with(Seq::empty(), all.take(i as int)),
        decreases v@.len() - i,
    {
        assert(all.take(i + 1).drop_last() =~= all.take(i as int));
        assert(all.take(i + 1).last() == v@[i as int]@);
        add_once(&mut out, v[i].as_str());
        i = i + 1;
    }
    assert(all.take(i as int) =~= all);
    out
}

/// The names in the graph once it is expanded, and the positions of the edges
/// that were taken.
fn expand(edges: &Vec<EdgeRow>, base: &Vec<String>) -> (r: (Vec<String>, Vec<usize>))
    ensures
        texts(r.0@) == expansion(texts(base@), views(edges@)).ids,
        forall|i: int| 0 <= i < r.1@.len() ==> #[trigger] r.1@[i] < edges@.len(),
        r.1@.map_values(|i: usize| views(edges@)[i as int]) == expansion(
            texts(base@),
            views(edges@),
        ).edges,
{
    let ghost all = views(edges@);
    let ghost b = texts(base@);
    let ghost f = |i: usize| all[i as int];
    let mut ids = names_once(base);
    let mut taken: Vec<usize> = Vec::new();
    let mut full = false;
    let mut i: usize = 0;
    assert(all.take(0) =~= Seq::<EdgeView>::empty());
    assert(taken@.map_values(f) =~= Seq::<EdgeView>::empty());
    while i < edges.len()
        invariant
            i <= edges@.len(),
            all == views(edges@),
            b == texts(base@),
            f == (|i: usize| all[i as int]),
            forall|i: int| 0 <= i < taken@.len() ==> #[trigger] taken@[i] < edges@.len(),
            expansion(b, all.take(i as int)) == (Expansion {
                ids: texts(ids@),
                edges: taken@.map_values(f),
                full,
            }),
        decreases edges@.len() - i,
    {
        let ghost e = all[i as int];
        proof {
            assert(all.take(i + 1).drop_last() =~= all.take(i as int));
            assert(all.take(i + 1).last() == e);
            assert(e == edges@[i as int]@);
            assert(texts(ids@).len() == ids@.len());
        }
        if contains_text(base, edges[i].src.as_str()) || contains_text(
            base,
            edges[i].dst.as_str(),
        ) {
            let room = !full && !(ids.len() >= GRAPH_NODE_CAP && !contains_text(
                &ids,
                edges[i].src.as_str(),
            ) && !contains_text(&ids, edges[i].dst.as_str()));
            if room {
                add_once(&mut ids, edges[i].src.as_str());
                add_once(&mut ids, edges[i].dst.as_str());
                assert(taken@.push(i).map_values(f) =~= taken@.map_values(f).push(e));
                taken.push(i);
                assert(texts(ids@).len() == ids@.len());
                full = ids.len() >= GRAPH_NODE_CAP;
            }
        }
        i = i + 1;
    }
    assert(all.take(i as int) =~= all);
    (ids, taken)
}

fn show_taken(edges: &Vec<EdgeRow>, taken: &Vec<usize>, ids: &Vec<String>) -> (r: Vec<Link>)
    requires
        forall|i: int| 0 <= i < taken@.len() ==> #[trigger] taken@[i] < edges@.len(),
    ensures
        views(r@) == shown_links(
            taken@.map_values(|i: usize| views(edges@)[i as int]),
            texts(ids@),
        ),
{
    let ghost all = taken@.map_values(|i: usize| views(edges@)[i as int]);
    let ghost p = |e: EdgeView| texts(ids@).contains(e.src) && texts(ids@).contains(e.dst);
    let ghost f = |e: EdgeView| link_for(e, link_value(e));
    let mut out: Vec<Link> = Vec::new();
    let mut i: usize = 0;
    assert(all.take(0) =~= Seq::<EdgeView>::empty());
    assert(views(out@) =~= kept(all.take(0), p).map_values(f));
    while i < taken.len()
        invariant
            i <= taken@.len(),
            all == taken@.map_values(|i: usize| views(edges@)[i as int]),
            forall|i: int| 0 <= i < taken@.len() ==> #[trigger] taken@[i] < edges@.len(),
            p == (|e: EdgeView| texts(ids@).contains(e.src) && texts(ids@).contains(e.dst)),
            f == (|e: EdgeView| link_for(e, link_value(e))),
            views(out@) == kept(all.take(i as int), p).map_values(f),
        decreases taken@.len() - i,
    {
        let k: usize = taken[i];
        proof {
            lemma_kept_step(all, p, i as int);
            assert(all[i as int] == edges@[k as int]@);
        }
        if contains_text(ids, edges[k].src.as_str()) && contains_text(ids, edges[k].dst.as_str()) {
            let l = show_edge(&edges[k], value_of(&edges[k]));
            proof {
                lemma_views_push(out@, l);
                assert(kept(all.take(i as int), p).push(all[i as int]).map_values(f) =~= kept(
                    all.take(i as int),
                    p,
                ).map_values(f).push(l@));
            }
            out.push(l);
        }
        i = i + 1;
    }
    assert(all.take(i as int) =~= all);
    out
}

fn ids_of(nodes: &Vec<Node>) -> (r: Vec<String>)
    ensures
        texts(r@) == shown_ids(views(nodes@)),
{
    let mut out: Vec<String> = Vec::new();
    let mut i: usize = 0;
    while i < nodes.len()
        invariant
            i <= nodes@.len(),
            out@.len() == i,
            forall|k: int| 0 <= k < i ==> (#[trigger] out@[k])@ == nodes@[k].id@,
        decreases nodes@.len() - i,
    {
        out.push(nodes[i].id.clone());
        i = i + 1;
    }
    assert(texts(out@) =~= shown_ids(views(nodes@)));
    out
}

/// The graph that is shown for the names: they and their neighbours, as far as
/// there is room.
pub fn fetch_graph_for_nodes(store: &Store, base_node_ids: &Vec<String>) -> (r: GraphData)
    ensures
        r@ == graph_of(store@, texts(base_node_ids@)),
{
    assert(texts(base_node_ids@).len() == base_node_ids@.len());
    if base_node_ids.len() == 0 {
        return GraphData::empty();
    }
    let (ids, taken) = expand(&store.edges, base_node_ids);
    let mut nodes = show_nodes(&store.nodes, &ids);
    let ghost before = views(nodes@);
    if nodes.len() > GRAPH_NODE_CAP {
        nodes.truncate(GRAPH_NODE_CAP);
    }
    assert(views(nodes@) =~= at_most(before, GRAPH_NODE_CAP as int));
    let shown = ids_of(&nodes);
    let links = show_taken(&store.edges, &taken, &shown);
    GraphData { nodes, links }
}

// Searching --------------------------------------------------------------

/// The pattern by which names are searched where the word index finds nothing.
pub fn like_pattern(query: &str) -> (r: String)
    ensures
        r@ == "%"@ + query@ + "%"@,
{
    let mut out = "%".to_owned();
    out.append(query);
    out.append("%");
    out
}

/// Whether the graph is what a search gives: for a blank question the first view;
/// else what is shown for the best results, or, where there are none, for the
/// conversations that changed last.
pub open spec fn answers(
    g: ShownGraph,
    v: StoreView,
    query: Seq<char>,
    words: Seq<Seq<char>>,
    vectors: Seq<Seq<char>>,
) -> bool {
    if trimmed(query).len() == 0 {
        exists|seeds: Seq<Seq<char>>| #[trigger]
            latest(seeds, v.nodes, SEED_CONVERSATIONS as int) && g == view_from(v, seeds)
    } else if words.len() == 0 && vectors.len() == 0 {
        exists|ids: Seq<Seq<char>>| #[trigger]
            latest(ids, v.nodes, FUSED_TOP as int) && g == graph_of(v, ids)
    } else {
        let lists = seq![words, vectors];
        exists|ids: Seq<Seq<char>>| #[trigger]
            fuses(ids, lists) && g == graph_of(v, at_most(ids, FUSED_TOP as int))
    }
}

/// What a search gives, from what the word index and the embeddings found.
pub fn search_nodes(
    store: &Store,
    query: &str,
    fts_results: Vec<String>,
    vector_results: Vec<String>,
) -> (r: GraphData)
    ensures
        answers(r@, store@, query@, texts(fts_results@), texts(vector_results@)),
{
    if is_blank(query) {
        return get_initial_graph(store);
    }
    let ghost words = texts(fts_results@);
    let ghost vectors = texts(vector_results@);
    assert(words.len() == fts_results@.len());
    assert(vectors.len() == vector_results@.len());
    if fts_results.len() == 0 && vector_results.len() == 0 {
        let ids = latest_conversations(&store.nodes, FUSED_TOP);
        assert(latest(texts(ids@), store@.nodes, FUSED_TOP as int));
        return fetch_graph_for_nodes(store, &ids);
    }
    let lists = vec![fts_results, vector_results];
    assert(list_texts(lists@) =~= seq![words, vectors]);
    let mut ids = rrf_fuse(&lists);
    let ghost fused = texts(ids@);
    assert(fuses(fused, seq![words, vectors]));
    if ids.len() > FUSED_TOP {
        ids.truncate(FUSED_TOP);
    }
    assert(texts(ids@) =~= at_most(fused, FUSED_TOP as int));
    fetch_graph_for_nodes(store, &ids)
}

// A search, step by step -------------------------------------------------

/// What a search waits for.
#[derive(Debug)]
pub enum Sought {
    /// The nodes in which the word index finds the question.
    Words,
    /// The nodes whose names are like the pattern.
    Names(String),
    /// The embedding of the question.
    Embedding,
    /// The nodes nearest to the embedding.
    Nearest(Vec<u32>),
    /// Nothing more.
    Nothing,
}

/// A search under way.
#[derive(Debug)]
pub struct Search {
    pub query: String,
    /// Whether there is an endpoint to embed the question.
    pub embeds: bool,
    pub words: Vec<String>,
    pub vectors: Vec<String>,
    pub sought: Sought,
}

/// What a search waits for, stated over contents.
pub ghost enum SoughtView {
    Words,
    Names(Seq<char>),
    Embedding,
    Nearest(Seq<u32>),
    Nothing,
}

/// What a search holds.
pub ghost struct SearchView {
    pub query: Seq<char>,
    pub embeds: bool,
    pub words: Seq<Seq<char>>,
    pub vectors: Seq<Seq<char>>,
    pub sought: SoughtView,
}

impl View for Search {
    type V = SearchView;

    open spec fn view(&self) -> SearchView {
        SearchView {
            query: self.query@,
            embeds: self.embeds,
            words: texts(self.words@),
            vectors: texts(self.vectors@),
            sought: match self.sought {
                Sought::Words => SoughtView::Words,
                Sought::Names(p) => SoughtView::Names(p@),
                Sought::Embedding => SoughtView::Embedding,
                Sought::Nearest(e) => SoughtView::Nearest(e@),
                Sought::Nothing => SoughtView::Nothing,
            },
        }
    }
}

/// A search at its beginning. For a blank question nothing is sought.
pub open spec fn begun(query: Seq<char>, embeds: bool) -> SearchView {
    SearchView {
        query,
        embeds,
        words: Seq::empty(),
        vectors: Seq::empty(),
        sought: if trimmed(query).len() == 0 {
            SoughtView::Nothing
        } else {
            SoughtView::Words
        },
    }
}

/// The search once the nodes were found by the words or the name. The question is
/// embedded next, if it can be.
pub open spec fn with_words(s: SearchView, ids: Seq<Seq<char>>) -> SearchView {
    SearchView {
        words: at_most(ids, RETRIEVAL_POOL as int),
        sought: if s.embeds {
            SoughtView::Embedding
        } else {
            SoughtView::Nothing
        },
        ..s
    }
}

/// The search once the word index gave the nodes: if there are none, they are
/// sought by their names.
pub open spec fn after_words(s: SearchView, ids: Seq<Seq<char>>) -> SearchView {
    if ids.len() == 0 {
        SearchView { sought: SoughtView::Names("%"@ + s.query + "%"@), ..s }
    } else {
        with_words(s, ids)
    }
}

/// The search once the endpoint has answered: without an embedding nothing more is
/// sought.
pub open spec fn after_embedding(s: SearchView, embedding: Option<Seq<u32>>) -> SearchView {
    SearchView {
        sought: match embedding {
            Some(e) => SoughtView::Nearest(e),
            None => SoughtView::Nothing,
        },
        ..s
    }
}

/// The search once the nearest nodes were found.
pub open spec fn after_nearest(s: SearchView, ids: Seq<Seq<char>>) -> SearchView {
    SearchView {
        vectors: at_most(ids, RETRIEVAL_POOL as int),
        sought: SoughtView::Nothing,
        ..s
    }
}

/// The results that one way of searching contributes.
fn first_results(ids: Vec<String>) -> (r: Vec<String>)
    ensures
        texts(r@) == at_most(texts(ids@), RETRIEVAL_POOL as int),
{
    let ghost all = texts(ids@);
    let mut ids = ids;
    if ids.len() > RETRIEVAL_POOL {
        ids.truncate(RETRIEVAL_POOL);
    }
    assert(texts(ids@) =~= at_most(all, RETRIEVAL_POOL as int));
    ids
}

impl Search {
    /// Begins a search. The question is embedded only where both an endpoint and a
    /// model are given.
    pub fn new(query: String, base_url: &Option<String>, embed_model: &Option<String>) -> (r: Search)
        ensures
            r@ == begun(query@, base_url is Some && embed_model is Some),
    {
        let sought = if is_blank(query.as_str()) {
            Sought::Nothing
        } else {
            Sought::Words
        };
        let r = Search {
            query,
            embeds: base_url.is_some() && embed_model.is_some(),
            words: Vec::new(),
            vectors: Vec::new(),
            sought,
        };
        assert(r@.words =~= Seq::empty());
        assert(r@.vectors =~= Seq::empty());
        r
    }

    fn take_words(&mut self, ids: Vec<String>)
        ensures
            final(self)@ == with_words(old(self)@, texts(ids@)),
    {
        self.words = first_results(ids);
        self.sought = if self.embeds {
            Sought::Embedding
        } else {
            Sought::Nothing
        };
    }

    /// Goes on with what the word index found.
    pub fn words_found(&mut self, ids: Vec<String>)
        requires
            old(self).sought is Words,
        ensures
            final(self)@ == after_words(old(self)@, texts(ids@)),
    {
        assert(texts(ids@).len() == ids@.len());
        if ids.len() == 0 {
            self.sought = Sought::Names(like_pattern(self.query.as_str()));
        } else {
            self.take_words(ids);
        }
    }

    /// Goes on with what was found by the name.
    pub fn names_found(&mut self, ids: Vec<String>)
        requires
            old(self).sought is Names,
        ensures
            final(self)@ == with_words(old(self)@, texts(ids@)),
    {
        assert(texts(ids@).len() == ids@.len());
        self.take_words(ids);
    }

    /// Goes on with the embedding of the question, if the endpoint gave one.
    pub fn embedded(&mut self, embedding: Option<Vec<u32>>)
        requires
            old(self).sought is Embedding,
        ensures
            final(self)@ == after_embedding(
                old(self)@,
                match embedding {
                    Some(e) => Some(e@),
                    None => None,
                },
            ),
    {
        self.sought = match embedding {
            Some(e) => Sought::Nearest(e),
            None => Sought::Nothing,
        };
    }

    /// Goes on with the nearest nodes.
    pub fn nearest_found(&mut self, ids: Vec<String>)
        requires
            old(self).sought is Nearest,
        ensures
            final(self)@ == after_nearest(old(self)@, texts(ids@)),
    {
        assert(texts(ids@).len() == ids@.len());
        self.vectors = first_results(ids);
        self.sought = Sought::Nothing;
    }

    /// What the search gives.
    pub fn finish(self, store: &Store) -> (r: GraphData)
        requires
            self.sought is Nothing,
        ensures
            answers(r@, store@, self@.query, self@.words, self@.vectors),
    {
        assert(texts(self.words@).len() == self.words@.len());
        assert(texts(self.vectors@).len() == self.vectors@.len());
        search_nodes(store, self.query.as_str(), self.words, self.vectors)
    }
}

// Laws -------------------------------------------------------------------

/// Every share of a score is exact: the unit is a multiple of every raised rank.
pub proof fn shares_are_exact(n: nat, rank: nat)
    requires
        1 <= rank <= n,
    ensures
        share(n, rank) * (60 + rank) == rrf_unit(n),
{
    lemma_share(n, rank);
}

/// A better rank always has the larger share.
pub proof fn better_ranks_have_larger_shares(n: nat, a: nat, b: nat)
    requires
        1 <= a < b <= n,
    ensures
        share(n, a) > share(n, b),
{
    shares_are_exact(n, a);
    shares_are_exact(n, b);
    lemma_unit_positive(n);
    let x = share(n, a);
    let y = share(n, b);
    let u = rrf_unit(n);
    assert(x > y) by (nonlinear_arith)
        requires
            x * (60 + a) == u,
            y * (60 + b) == u,
            u > 0,
            a < b,
    ;
}

proof fn lemma_unit_positive(n: nat)
    ensures
        rrf_unit(n) > 0,
    decreases n,
{
    if n > 0 {
        lemma_unit_positive((n - 1) as nat);
        let u = rrf_unit((n - 1) as nat);
        assert((60 + n) * u > 0) by (nonlinear_arith)
            requires
                u > 0,
        ;
    }
}

proof fn lemma_names_with(known: Seq<Seq<char>>, list: Seq<Seq<char>>)
    requires
        known.no_duplicates(),
    ensures
        names_with(known, list).no_duplicates(),
        forall|x: Seq<char>| #[trigger]
            names_with(known, list).contains(x) <==> known.contains(x) || list.contains(x),
    decreases list.len(),
{
    if list.len() > 0 {
        let rest = list.drop_last();
        lemma_names_with(known, rest);
        let before = names_with(known, rest);
        let after = names_with(known, list);
        assert forall|i: int, j: int|
            0 <= i < after.len() && 0 <= j < after.len() && i != j implies after[i] != after[j] by {
            if i == before.len() {
                assert(after[j] == before[j]);
                assert(before.contains(before[j]));
            } else if j == before.len() {
                assert(after[i] == before[i]);
                assert(before.contains(before[i]));
            } else {
                assert(after[i] == before[i] && after[j] == before[j]);
            }
        }
        assert forall|x: Seq<char>| #[trigger] after.contains(x) <==> known.contains(x)
            || list.contains(x) by {
            if after.contains(x) {
                let i = choose|i: int| 0 <= i < after.len() && after[i] == x;
                if i < before.len() {
                    assert(before[i] == x);
                    assert(before.contains(x));
                    if rest.contains(x) {
                        let k = choose|k: int| 0 <= k < rest.len() && rest[k] == x;
                        assert(list[k] == x);
                    }
                } else {
                    assert(list[list.len() - 1] == x);
                }
            }
            if known.contains(x) || list.contains(x) {
                if list.contains(x) && !known.contains(x) {
                    let k = choose|k: int| 0 <= k < list.len() && list[k] == x;
                    if k < rest.len() {
                        assert(rest[k] == x);
                        assert(rest.contains(x));
                    }
                }
                if before.contains(x) {
                    let i = choose|i: int| 0 <= i < before.len() && before[i] == x;
                    assert(after[i] == x);
                } else {
                    assert(x == list.last());
                    assert(after[before.len() as int] == x);
                }
            }
        }
    } else {
        assert forall|x: Seq<char>| #[trigger] names_with(known, list).contains(x)
            <==> known.contains(x) || list.contains(x) by {}
    }
}

proof fn lemma_results(lists: Seq<Seq<Seq<char>>>)
    ensures
        results(lists).no_duplicates(),
        forall|x: Seq<char>| #[trigger]
            results(lists).contains(x) <==> exists|i: int|
                0 <= i < lists.len() && (#[trigger] lists[i]).contains(x),
    decreases lists.len(),
{
    if lists.len() > 0 {
        let rest = lists.drop_last();
        lemma_results(rest);
        lemma_names_with(results(rest), lists.last());
        assert forall|x: Seq<char>| #[trigger] results(lists).contains(x) <==> exists|i: int|
            0 <= i < lists.len() && (#[trigger] lists[i]).contains(x) by {
            if results(lists).contains(x) {
                if results(rest).contains(x) {
                    let i = choose|i: int|
                        0 <= i < rest.len() && (#[trigger] rest[i]).contains(x);
                    assert(lists[i].contains(x));
                } else {
                    assert(lists[lists.len() - 1].contains(x));
                }
            }
            if exists|i: int| 0 <= i < lists.len() && (#[trigger] lists[i]).contains(x) {
                let i = choose|i: int| 0 <= i < lists.len() && (#[trigger] lists[i]).contains(x);
                if i < rest.len() {
                    assert(rest[i].contains(x));
                }
            }
        }
    }
}

/// A fused list has every result of the lists, each exactly once, and nothing
/// else.
pub proof fn fusing_keeps_every_result(ids: Seq<Seq<char>>, lists: Seq<Seq<Seq<char>>>)
    requires
        fuses(ids, lists),
    ensures
        ids.len() == results(lists).len(),
        forall|x: Seq<char>| #[trigger]
            ids.contains(x) <==> exists|i: int|
                0 <= i < lists.len() && (#[trigger] lists[i]).contains(x),
        forall|i: int, j: int|
            0 <= i < j < ids.len() ==> score(lists, #[trigger] ids[i]) >= score(
                lists,
                #[trigger] ids[j],
            ),
{
    let entries = choose|entries: Seq<Fused>| #[trigger]
        scores(entries, lists) && ids == fused_names(arranged(entries));
    let sorted = arranged(entries);
    lemma_results(lists);
    crate::seqs::arranging_orders(entries);
    assert forall|k: int| 0 <= k < sorted.len() implies (#[trigger] sorted[k]).score@ == score(
        lists,
        sorted[k].id@,
    ) && results(lists).contains(sorted[k].id@) by {
        assert(sorted.contains(sorted[k]));
        assert(entries.contains(sorted[k]));
        let i = choose|i: int| 0 <= i < entries.len() && entries[i] == sorted[k];
        assert(entries[i].id@ == results(lists)[i]);
    }
    assert forall|x: Seq<char>| #[trigger] ids.contains(x) <==> exists|i: int|
        0 <= i < lists.len() && (#[trigger] lists[i]).contains(x) by {
        if ids.contains(x) {
            let k = choose|k: int| 0 <= k < ids.len() && ids[k] == x;
            assert(sorted[k].id@ == x);
            assert(results(lists).contains(x));
        }
        if results(lists).contains(x) {
            let i = choose|i: int| 0 <= i < results(lists).len() && results(lists)[i] == x;
            assert(entries[i].id@ == x);
            assert(entries.contains(entries[i]));
            assert(sorted.contains(entries[i]));
            let k = choose|k: int| 0 <= k < sorted.len() && sorted[k] == entries[i];
            assert(ids[k] == x);
        }
    }
    assert forall|i: int, j: int| 0 <= i < j < ids.len() implies score(lists, #[trigger] ids[i])
        >= score(lists, #[trigger] ids[j]) by {
        assert(sorted[i].score@ == score(lists, sorted[i].id@));
        assert(sorted[j].score@ == score(lists, sorted[j].id@));
        assert(!sorted[j].ranks_before(sorted[i]));
    }
}

/// A shown graph has no more nodes than there is room for, and each of its links
/// joins two of them.
pub proof fn shown_graphs_are_limited_and_closed(v: StoreView, base: Seq<Seq<char>>)
    ensures
        graph_of(v, base).nodes.len() <= GRAPH_NODE_CAP,
        forall|i: int|
            0 <= i < graph_of(v, base).links.len() ==> shown_ids(
                graph_of(v, base).nodes,
            ).contains((#[trigger] graph_of(v, base).links[i]).source) && shown_ids(
                graph_of(v, base).nodes,
            ).contains(graph_of(v, base).links[i].target),
{
    if base.len() > 0 {
        let x = expansion(base, v.edges);
        let g = graph_of(v, base);
        let ids = shown_ids(g.nodes);
        let p = |e: EdgeView| ids.contains(e.src) && ids.contains(e.dst);
        lemma_kept_members(x.edges, p);
        assert forall|i: int| 0 <= i < g.links.len() implies ids.contains(
            (#[trigger] g.links[i]).source,
        ) && ids.contains(g.links[i].target) by {
            let e = kept(x.edges, p)[i];
            assert(kept(x.edges, p).contains(e));
            assert(p(e));
        }
    }
}

/// How many answers a search can still wait for.
pub open spec fn answers_left(s: SearchView) -> int {
    match s.sought {
        SoughtView::Words => 4,
        SoughtView::Names(_) => 3,
        SoughtView::Embedding => 2,
        SoughtView::Nearest(_) => 1,
        SoughtView::Nothing => 0,
    }
}

/// Whatever is found, a search comes to an end: each answer leaves fewer to wait
/// for. A search that cannot embed its question never waits for the nearest nodes.
pub proof fn searches_come_to_an_end(
    s: SearchView,
    ids: Seq<Seq<char>>,
    embedding: Option<Seq<u32>>,
)
    ensures
        s.sought is Words ==> answers_left(after_words(s, ids)) < answers_left(s),
        s.sought is Names ==> answers_left(with_words(s, ids)) < answers_left(s),
        s.sought is Embedding ==> answers_left(after_embedding(s, embedding)) < answers_left(s),
        s.sought is Nearest ==> answers_left(after_nearest(s, ids)) < answers_left(s),
        !s.embeds ==> with_words(s, ids).sought is Nothing,
        trimmed(s.query).len() == 0 ==> begun(s.query, s.embeds).sought is Nothing,
{
}

/// Whether the edge has one of the names at one of its ends.
spec fn near(base: Seq<Seq<char>>, e: EdgeView) -> bool {
    base.contains(e.src) || base.contains(e.dst)
}

/// What holds of the graph under way.
spec fn under_way(base: Seq<Seq<char>>, edges: Seq<EdgeView>, x: Expansion) -> bool {
    &&& x.ids.no_duplicates()
    &&& forall|i: int| 0 <= i < base.len() ==> x.ids.contains(#[trigger] base[i])
    &&& forall|i: int|
        0 <= i < x.ids.len() ==> base.contains(#[trigger] x.ids[i]) || exists|k: int|
            0 <= k < edges.len() && near(base, #[trigger] edges[k]) && (edges[k].src == x.ids[i]
                || edges[k].dst == x.ids[i])
    &&& forall|i: int|
        0 <= i < x.edges.len() ==> edges.contains(#[trigger] x.edges[i]) && near(base, x.edges[i])
            && x.ids.contains(x.edges[i].src) && x.ids.contains(x.edges[i].dst)
    &&& forall|k: int|
        0 <= k < edges.len() && near(base, #[trigger] edges[k]) ==> x.edges.contains(edges[k])
            || x.ids.len() >= 25
    &&& x.full ==> x.ids.len() >= 25
    &&& !x.full ==> x.ids.len() < 25 || x.ids == once(base)
    &&& x.ids.len() <= 25 || x.ids.len() <= once(base).len() + 1
}

proof fn lemma_joined_by(s: Seq<Seq<char>>, x: Seq<char>)
    requires
        s.no_duplicates(),
    ensures
        joined_by(s, x).no_duplicates(),
        joined_by(s, x).contains(x),
        forall|y: Seq<char>| s.contains(y) ==> #[trigger] joined_by(s, x).contains(y),
        forall|i: int|
            0 <= i < joined_by(s, x).len() ==> s.contains(#[trigger] joined_by(s, x)[i])
                || joined_by(s, x)[i] == x,
        s.contains(x) ==> joined_by(s, x) == s,
        joined_by(s, x).len() <= s.len() + 1,
{
    let t = joined_by(s, x);
    if !s.contains(x) {
        assert(t[s.len() as int] == x);
        assert forall|y: Seq<char>| s.contains(y) implies #[trigger] t.contains(y) by {
            let i = choose|i: int| 0 <= i < s.len() && s[i] == y;
            assert(t[i] == y);
        }
        assert forall|i: int, j: int| 0 <= i < t.len() && 0 <= j < t.len() && i != j implies t[i]
            != t[j] by {
            if i == s.len() {
                assert(s.contains(s[j]));
            } else if j == s.len() {
                assert(s.contains(s[i]));
            }
        }
    }
    assert forall|i: int| 0 <= i < t.len() implies s.contains(#[trigger] t[i]) || t[i] == x by {
        if i < s.len() {
            assert(s[i] == t[i]);
        }
    }
}

proof fn lemma_under_way(base: Seq<Seq<char>>, edges: Seq<EdgeView>)
    ensures
        under_way(base, edges, expansion(base, edges)),
    decreases edges.len(),
{
    let x = expansion(base, edges);
    if edges.len() == 0 {
        lemma_names_with(Seq::empty(), base);
        assert forall|i: int| 0 <= i < x.ids.len() implies base.contains(#[trigger] x.ids[i]) by {
            assert(x.ids.contains(x.ids[i]));
        }
        assert forall|i: int| 0 <= i < base.len() implies x.ids.contains(#[trigger] base[i]) by {
            assert(base.contains(base[i]));
        }
    } else {
        let rest = edges.drop_last();
        let e = edges.last();
        let last = edges.len() - 1;
        lemma_under_way(base, rest);
        let u = expansion(base, rest);
        assert forall|k: int| 0 <= k < rest.len() implies #[trigger] rest[k] == edges[k] by {}
        let mid = joined_by(u.ids, e.src);
        lemma_joined_by(u.ids, e.src);
        lemma_joined_by(mid, e.dst);
        assert forall|i: int| 0 <= i < x.ids.len() implies base.contains(#[trigger] x.ids[i])
            || exists|k: int|
            0 <= k < edges.len() && near(base, #[trigger] edges[k]) && (edges[k].src == x.ids[i]
                || edges[k].dst == x.ids[i]) by {
            let id = x.ids[i];
            if u.ids.contains(id) {
                let j = choose|j: int| 0 <= j < u.ids.len() && u.ids[j] == id;
                if !base.contains(u.ids[j]) {
                    let k = choose|k: int|
                        0 <= k < rest.len() && near(base, #[trigger] rest[k]) && (rest[k].src
                            == u.ids[j] || rest[k].dst == u.ids[j]);
                    assert(near(base, edges[k]));
                }
            } else {
                if !mid.contains(id) {
                    assert(id == e.dst);
                } else {
                    let j = choose|j: int| 0 <= j < mid.len() && mid[j] == id;
                    assert(u.ids.contains(mid[j]) || mid[j] == e.src);
                }
                assert(near(base, edges[last]));
            }
        }
        assert forall|i: int| 0 <= i < base.len() implies x.ids.contains(#[trigger] base[i]) by {
            assert(u.ids.contains(base[i]));
            assert(mid.contains(base[i]));
        }
        assert forall|i: int| 0 <= i < x.edges.len() implies edges.contains(#[trigger] x.edges[i])
            && near(base, x.edges[i]) && x.ids.contains(x.edges[i].src) && x.ids.contains(
            x.edges[i].dst,
        ) by {
            if i < u.edges.len() {
                assert(x.edges[i] == u.edges[i]);
                assert(rest.contains(u.edges[i]));
                let k = choose|k: int| 0 <= k < rest.len() && rest[k] == u.edges[i];
                assert(edges[k] == u.edges[i]);
                assert(mid.contains(u.edges[i].src) && mid.contains(u.edges[i].dst));
            } else {
                assert(edges[last] == e);
                assert(mid.contains(e.src));
            }
        }
        assert forall|k: int| 0 <= k < edges.len() && near(base, #[trigger] edges[k]) implies
            x.edges.contains(edges[k]) || x.ids.len() >= 25 by {
            if k < last {
                assert(near(base, rest[k]));
                if u.edges.contains(rest[k]) {
                    let j = choose|j: int| 0 <= j < u.edges.len() && u.edges[j] == rest[k];
                    assert(x.edges[j] == rest[k]);
                }
            } else if x != u {
                assert(x.edges[u.edges.len() as int] == e);
            }
        }
        if near(base, e) && x != u {
            if base.contains(e.src) {
                let j = choose|j: int| 0 <= j < base.len() && base[j] == e.src;
                assert(u.ids.contains(base[j]));
            }
            if base.contains(e.dst) {
                let j = choose|j: int| 0 <= j < base.len() && base[j] == e.dst;
                assert(u.ids.contains(base[j]));
                assert(mid.contains(e.dst));
            }
        }
    }
}

/// What is shown for some nodes of a sound store: they themselves, if they are no
/// more than 24, and of every edge at one of them, in either direction and of any
/// type, the link and both its ends, unless 25 nodes are shown. Nothing else is shown
/// than these nodes, their neighbours and the links between them.
pub proof fn neighbours_are_shown(v: StoreView, base: Seq<Seq<char>>)
    requires
        sound(v),
        base.len() > 0,
        forall|i: int|
            0 <= i < base.len() ==> exists|k: int|
                0 <= k < v.nodes.len() && (#[trigger] v.nodes[k]).id == #[trigger] base[i],
    ensures
        ({
            let g = graph_of(v, base);
            let at = |e: EdgeView| base.contains(e.src) || base.contains(e.dst);
            let there = |id: Seq<char>|
                exists|j: int| 0 <= j < g.nodes.len() && (#[trigger] g.nodes[j]).id == id;
            let drawn = |l: ShownLink, e: EdgeView|
                {
                    &&& l.source == e.src && l.target == e.dst && l.edge_type == e.kind
                    &&& l.value == match e.props.at("count"@) {
                        JsonTree::Number(n) => match n.signed {
                            Some(x) => x,
                            None => 1,
                        },
                        _ => 1i64,
                    }
                };
            &&& g.nodes.len() <= 25
            &&& base.len() <= 24 ==> forall|i: int| 0 <= i < base.len() ==> there(#[trigger] base[i])
            &&& forall|k: int|
                0 <= k < v.edges.len() && at(#[trigger] v.edges[k]) ==> g.nodes.len() == 25 || (
                there(v.edges[k].src) && there(v.edges[k].dst) && exists|j: int|
                    0 <= j < g.links.len() && drawn(#[trigger] g.links[j], v.edges[k]))
            &&& forall|j: int|
                0 <= j < g.links.len() ==> there((#[trigger] g.links[j]).source) && there(
                    g.links[j].target,
                ) && exists|k: int|
                    0 <= k < v.edges.len() && at(#[trigger] v.edges[k]) && drawn(
                        g.links[j],
                        v.edges[k],
                    )
            &&& forall|j: int|
                0 <= j < g.nodes.len() ==> {
                    let n = #[trigger] g.nodes[j];
                    &&& base.contains(n.id) || exists|k: int|
                        0 <= k < v.edges.len() && at(#[trigger] v.edges[k]) && (v.edges[k].src
                            == n.id || v.edges[k].dst == n.id)
                    &&& exists|k: int|
                        0 <= k < v.nodes.len() && (#[trigger] v.nodes[k]).id == n.id
                            && v.nodes[k].kind == n.group && v.nodes[k].name == n.name && (
                        n.props is None ==> v.nodes[k].props is Null) && (n.props matches Some(p)
                            ==> v.nodes[k].props == p)
                }
        }),
{
    let g = graph_of(v, base);
    let x = expansion(base, v.edges);
    let at = |e: EdgeView| base.contains(e.src) || base.contains(e.dst);
    let there = |id: Seq<char>|
        exists|j: int| 0 <= j < g.nodes.len() && (#[trigger] g.nodes[j]).id == id;
    let drawn = |l: ShownLink, e: EdgeView|
        {
            &&& l.source == e.src && l.target == e.dst && l.edge_type == e.kind
            &&& l.value == match e.props.at("count"@) {
                JsonTree::Number(n) => match n.signed {
                    Some(x) => x,
                    None => 1,
                },
                _ => 1i64,
            }
        };
    lemma_under_way(base, v.edges);
    let wanted = |n: NodeView| x.ids.contains(n.id);
    let picked = kept(v.nodes, wanted);
    let all = shown_nodes(v.nodes, x.ids);
    lemma_kept_members(v.nodes, wanted);
    crate::seqs::lemma_kept_distinct(v.nodes, wanted, |n: NodeView| n.id);
    let names = shown_ids(all);
    // Every name in the graph is that of a node, and so it is shown if there is room.
    assert forall|i: int| 0 <= i < x.ids.len() implies names.contains(#[trigger] x.ids[i]) by {
        let id = x.ids[i];
        assert(has_node(v.nodes, id)) by {
            if base.contains(id) {
                let b = choose|b: int| 0 <= b < base.len() && base[b] == id;
                let k = choose|k: int|
                    0 <= k < v.nodes.len() && (#[trigger] v.nodes[k]).id == base[b];
                assert(v.nodes[k].id == id);
            } else {
                let k = choose|k: int|
                    0 <= k < v.edges.len() && near(base, #[trigger] v.edges[k]) && (v.edges[k].src
                        == id || v.edges[k].dst == id);
                assert(has_node(v.nodes, v.edges[k].src) && has_node(v.nodes, v.edges[k].dst));
            }
        }
        let k = choose|k: int| 0 <= k < v.nodes.len() && (#[trigger] v.nodes[k]).id == id;
        assert(x.ids.contains(id));
        assert(wanted(v.nodes[k]));
        assert(v.nodes.contains(v.nodes[k]));
        assert(picked.contains(v.nodes[k]));
        let m = choose|m: int| 0 <= m < picked.len() && picked[m] == v.nodes[k];
        assert(names[m] == id);
    }
    crate::ingest::parser::lemma_no_longer(x.ids, names);
    assert(x.ids.len() <= all.len());
    // No name is shown twice, so that no more are shown than there are names.
    assert(names.no_duplicates()) by {
        let f = |n: NodeView| n.id;
        assert forall|i: int, j: int|
            0 <= i < names.len() && 0 <= j < names.len() && i != j implies names[i] != names[j] by {
            if i < j {
                assert(f(picked[i]) != f(picked[j]));
            } else {
                assert(f(picked[j]) != f(picked[i]));
            }
        }
    }
    assert forall|i: int| 0 <= i < names.len() implies x.ids.contains(#[trigger] names[i]) by {
        assert(picked.contains(picked[i]));
        assert(wanted(picked[i]));
    }
    crate::ingest::parser::lemma_no_longer(names, x.ids);
    assert(all.len() == x.ids.len());
    lemma_names_with(Seq::empty(), base);
    lemma_once_is_no_longer(base);
    let ids = shown_ids(g.nodes);
    assert forall|id: Seq<char>| #[trigger] ids.contains(id) == there(id) by {
        if ids.contains(id) {
            let j = choose|j: int| 0 <= j < ids.len() && ids[j] == id;
            assert(g.nodes[j].id == id);
        }
        if there(id) {
            let j = choose|j: int| 0 <= j < g.nodes.len() && (#[trigger] g.nodes[j]).id == id;
            assert(ids[j] == id);
        }
    }
    assert forall|id: Seq<char>| all.len() <= 25 && x.ids.contains(id) implies #[trigger] there(
        id,
    ) by {
        let i = choose|i: int| 0 <= i < x.ids.len() && x.ids[i] == id;
        assert(names.contains(x.ids[i]));
        let m = choose|m: int| 0 <= m < names.len() && names[m] == id;
        assert(g.nodes[m].id == id);
    }
    let both = |e: EdgeView| ids.contains(e.src) && ids.contains(e.dst);
    let taken = kept(x.edges, both);
    lemma_kept_members(x.edges, both);
    assert forall|k: int| 0 <= k < v.edges.len() && at(#[trigger] v.edges[k]) implies g.nodes.len()
        == 25 || (there(v.edges[k].src) && there(v.edges[k].dst) && exists|j: int|
        0 <= j < g.links.len() && drawn(#[trigger] g.links[j], v.edges[k])) by {
        let e = v.edges[k];
        assert(near(base, e));
        if all.len() < 25 {
            assert(x.edges.contains(e));
            let m = choose|m: int| 0 <= m < x.edges.len() && x.edges[m] == e;
            assert(x.ids.contains(x.edges[m].src) && x.ids.contains(x.edges[m].dst));
            assert(there(e.src) && there(e.dst));
            assert(both(e));
            assert(taken.contains(e));
            let j = choose|j: int| 0 <= j < taken.len() && taken[j] == e;
            assert(g.links[j] == link_for(e, link_value(e)));
        }
    }
    assert forall|j: int| 0 <= j < g.links.len() implies there((#[trigger] g.links[j]).source)
        && there(g.links[j].target) && exists|k: int|
        0 <= k < v.edges.len() && at(#[trigger] v.edges[k]) && drawn(g.links[j], v.edges[k]) by {
        let e = taken[j];
        assert(taken.contains(e));
        assert(both(e));
        assert(x.edges.contains(e));
        let m = choose|m: int| 0 <= m < x.edges.len() && x.edges[m] == e;
        assert(v.edges.contains(x.edges[m]));
        let k = choose|k: int| 0 <= k < v.edges.len() && v.edges[k] == e;
        assert(at(v.edges[k]));
    }
    assert forall|j: int| 0 <= j < g.nodes.len() implies ({
        let n = #[trigger] g.nodes[j];
        &&& base.contains(n.id) || exists|k: int|
            0 <= k < v.edges.len() && at(#[trigger] v.edges[k]) && (v.edges[k].src == n.id
                || v.edges[k].dst == n.id)
        &&& exists|k: int|
            0 <= k < v.nodes.len() && (#[trigger] v.nodes[k]).id == n.id && v.nodes[k].kind
                == n.group && v.nodes[k].name == n.name && (n.props is None ==> v.nodes[k].props is
                Null) && (n.props matches Some(p) ==> v.nodes[k].props == p)
    }) by {
        let n = g.nodes[j];
        assert(n == all[j]);
        assert(n == shown(picked[j]));
        assert(picked.contains(picked[j]));
        assert(wanted(picked[j]));
        let k = choose|k: int| 0 <= k < v.nodes.len() && v.nodes[k] == picked[j];
        assert(v.nodes[k].id == n.id);
        let i = choose|i: int| 0 <= i < x.ids.len() && x.ids[i] == n.id;
        if !base.contains(x.ids[i]) {
            let m = choose|m: int|
                0 <= m < v.edges.len() && near(base, #[trigger] v.edges[m]) && (v.edges[m].src
                    == x.ids[i] || v.edges[m].dst == x.ids[i]);
            assert(at(v.edges[m]));
        }
    }
    if base.len() <= 24 {
        assert forall|i: int| 0 <= i < base.len() implies there(#[trigger] base[i]) by {
            assert(x.ids.contains(base[i]));
        }
    }
}

proof fn lemma_once_is_no_longer(base: Seq<Seq<char>>)
    ensures
        once(base).len() <= base.len(),
    decreases base.len(),
{
    if base.len() > 0 {
        lemma_once_is_no_longer(base.drop_last());
    }
}

/// A graph is shown for nothing where no nodes are given.
pub proof fn nothing_is_shown_for_nothing(v: StoreView)
    ensures
        graph_of(v, Seq::empty()).nodes.len() == 0,
        graph_of(v, Seq::empty()).links.len() == 0,
{
}

proof fn lemma_list_score(n: nat, list: Seq<Seq<char>>, id: Seq<char>)
    requires
        list.no_duplicates(),
    ensures
        !list.contains(id) ==> list_score(n, list, id) == 0,
        forall|i: int|
            0 <= i < list.len() && #[trigger] list[i] == id ==> list_score(n, list, id) == share(
                n,
                (i + 1) as nat,
            ),
    decreases list.len(),
{
    if list.len() > 0 {
        let rest = list.drop_last();
        lemma_list_score(n, rest, id);
        assert(list[list.len() - 1] == list.last());
        assert(forall|i: int| 0 <= i < rest.len() ==> #[trigger] rest[i] == list[i]);
        if rest.contains(id) {
            let k = choose|k: int| 0 <= k < rest.len() && rest[k] == id;
            assert(list[k] == id);
        }
        assert forall|i: int| 0 <= i < list.len() && #[trigger] list[i] == id implies list_score(
            n,
            list,
            id,
        ) == share(n, (i + 1) as nat) by {
            if i < rest.len() {
                assert(rest[i] == id);
                assert(list[list.len() - 1] != id);
            } else {
                assert(!rest.contains(id));
            }
        }
    }
}

/// A result of a search by words and by nearness is scored by its places in the two
/// lists: at place `i`, counted from nought, a list gives it the part `61 + i` of the
/// unit, and a list that does not have it gives nothing.
pub proof fn results_are_scored_by_their_places(
    a: Seq<Seq<char>>,
    b: Seq<Seq<char>>,
    i: int,
    j: int,
)
    requires
        a.no_duplicates(),
        b.no_duplicates(),
        0 <= i < a.len(),
        0 <= j < b.len(),
    ensures
        ({
            let lists = seq![a, b];
            let unit = rrf_unit(
                if a.len() < b.len() {
                    b.len()
                } else {
                    a.len()
                },
            );
            &&& a[i] == b[j] ==> score(lists, a[i]) == unit / ((61 + i) as nat) + unit / ((61
                + j) as nat)
            &&& !b.contains(a[i]) ==> score(lists, a[i]) == unit / ((61 + i) as nat)
            &&& !a.contains(b[j]) ==> score(lists, b[j]) == unit / ((61 + j) as nat)
        }),
{
    let lists = seq![a, b];
    assert(lists.drop_last() =~= seq![a]);
    assert(lists.drop_last().drop_last() =~= Seq::<Seq<Seq<char>>>::empty());
    assert(lists.last() == b);
    assert(lists.drop_last().last() == a);
    assert(longest(lists.drop_last().drop_last()) == 0);
    assert(longest(lists.drop_last()) == a.len());
    let n = longest(lists);
    assert(sum_of_shares(n, lists.drop_last().drop_last(), a[i]) == 0);
    assert(sum_of_shares(n, lists.drop_last(), a[i]) == list_score(n, a, a[i]));
    assert(sum_of_shares(n, lists.drop_last().drop_last(), b[j]) == 0);
    assert(sum_of_shares(n, lists.drop_last(), b[j]) == list_score(n, a, b[j]));
    lemma_list_score(n, a, a[i]);
    lemma_list_score(n, b, a[i]);
    lemma_list_score(n, a, b[j]);
    lemma_list_score(n, b, b[j]);
}

/// A search shows the first fifteen of its fused results, if all its results are nodes
/// of a sound store.
pub proof fn the_best_results_are_shown(
    g: ShownGraph,
    v: StoreView,
    query: Seq<char>,
    words: Seq<Seq<char>>,
    vectors: Seq<Seq<char>>,
) -> (ids: Seq<Seq<char>>)
    requires
        answers(g, v, query, words, vectors),
        sound(v),
        trimmed(query).len() > 0,
        words.len() + vectors.len() > 0,
        forall|x: Seq<char>|
            words.contains(x) || vectors.contains(x) ==> #[trigger] has_node(v.nodes, x),
    ensures
        fuses(ids, seq![words, vectors]),
        forall|i: int|
            0 <= i < ids.len() && i < 15 ==> exists|j: int|
                0 <= j < g.nodes.len() && (#[trigger] g.nodes[j]).id == #[trigger] ids[i],
        g == graph_of(
            v,
            if ids.len() <= 15 {
                ids
            } else {
                ids.take(15)
            },
        ),
{
    let lists = seq![words, vectors];
    let ids = choose|ids: Seq<Seq<char>>| #[trigger]
        fuses(ids, lists) && g == graph_of(v, at_most(ids, FUSED_TOP as int));
    fusing_keeps_every_result(ids, lists);
    let base = at_most(ids, FUSED_TOP as int);
    assert(base.len() > 0) by {
        if words.len() > 0 {
            assert(words.contains(words[0]));
            assert(lists[0].contains(words[0]));
            assert(ids.contains(words[0]));
        } else {
            assert(vectors.contains(vectors[0]));
            assert(lists[1].contains(vectors[0]));
            assert(ids.contains(vectors[0]));
        }
    }
    assert forall|i: int| 0 <= i < base.len() implies exists|k: int|
        0 <= k < v.nodes.len() && (#[trigger] v.nodes[k]).id == #[trigger] base[i] by {
        assert(base[i] == ids[i]);
        assert(ids.contains(ids[i]));
        let m = choose|m: int| 0 <= m < lists.len() && (#[trigger] lists[m]).contains(ids[i]);
        assert(m == 0 || m == 1);
        assert(has_node(v.nodes, ids[i]));
    }
    neighbours_are_shown(v, base);
    assert forall|i: int| 0 <= i < ids.len() && i < 15 implies exists|j: int|
        0 <= j < g.nodes.len() && (#[trigger] g.nodes[j]).id == #[trigger] ids[i] by {
        assert(base[i] == ids[i]);
    }
    ids
}

/// A search without results shows the fifteen conversations that changed last, and a
/// blank question the twelve, each with what they lead to.
pub proof fn the_latest_are_shown_where_nothing_is_found(
    g: ShownGraph,
    v: StoreView,
    query: Seq<char>,
    words: Seq<Seq<char>>,
    vectors: Seq<Seq<char>>,
) -> (ids: Seq<Seq<char>>)
    requires
        answers(g, v, query, words, vectors),
        trimmed(query).len() == 0 || (words.len() == 0 && vectors.len() == 0),
    ensures
        trimmed(query).len() == 0 ==> latest(ids, v.nodes, 12) && g == view_from(v, ids),
        trimmed(query).len() > 0 ==> latest(ids, v.nodes, 15) && g == graph_of(v, ids),
{
    if trimmed(query).len() == 0 {
        choose|ids: Seq<Seq<char>>| #[trigger]
            latest(ids, v.nodes, SEED_CONVERSATIONS as int) && g == view_from(v, ids)
    } else {
        choose|ids: Seq<Seq<char>>| #[trigger]
            latest(ids, v.nodes, FUSED_TOP as int) && g == graph_of(v, ids)
    }
}

/// A search for something is first made by words; where they find nothing, by names
/// that hold the question; and then, if it can be embedded, by nearness. Of each list
/// the first thirty are taken, and nothing else of the search changes.
pub proof fn searches_go_from_words_to_nearness(
    query: Seq<char>,
    s: SearchView,
    ids: Seq<Seq<char>>,
    embedding: Option<Seq<u32>>,
)
    ensures
        begun(query, s.embeds).query == query,
        begun(query, s.embeds).embeds == s.embeds,
        begun(query, s.embeds).sought is Nothing <==> trimmed(query).len() == 0,
        trimmed(query).len() > 0 ==> begun(query, s.embeds).sought is Words,
        ids.len() == 0 ==> after_words(s, ids) == (SearchView {
            sought: SoughtView::Names("%"@ + s.query + "%"@),
            ..s
        }),
        ({
            let first = if ids.len() <= 30 {
                ids
            } else {
                ids.take(30)
            };
            let then_sought = if s.embeds {
                SoughtView::Embedding
            } else {
                SoughtView::Nothing
            };
            &&& with_words(s, ids) == (SearchView { words: first, sought: then_sought, ..s })
            &&& ids.len() > 0 ==> after_words(s, ids) == (SearchView {
                words: first,
                sought: then_sought,
                ..s
            })
            &&& after_nearest(s, ids) == (SearchView {
                vectors: first,
                sought: SoughtView::Nothing,
                ..s
            })
        }),
        embedding is None ==> after_embedding(s, embedding) == (SearchView {
            sought: SoughtView::Nothing,
            ..s
        }),
        embedding matches Some(e) ==> after_embedding(s, embedding) == (SearchView {
            sought: SoughtView::Nearest(e),
            ..s
        }),
{
}

proof fn lemma_new_names(known: Seq<Seq<char>>, list: Seq<Seq<char>>)
    requires
        list.no_duplicates(),
        forall|i: int| 0 <= i < list.len() ==> !known.contains(#[trigger] list[i]),
    ensures
        names_with(known, list) == known + list,
    decreases list.len(),
{
    if list.len() > 0 {
        let rest = list.drop_last();
        assert forall|i: int| 0 <= i < rest.len() implies !known.contains(#[trigger] rest[i]) by {
            assert(rest[i] == list[i]);
        }
        lemma_new_names(known, rest);
        let before = known + rest;
        assert(!before.contains(list.last())) by {
            if before.contains(list.last()) {
                let k = choose|k: int| 0 <= k < before.len() && before[k] == list.last();
                if k < known.len() {
                    assert(known[k] == list.last());
                    assert(known.contains(list[list.len() - 1]));
                } else {
                    assert(list[k - known.len()] == list[list.len() - 1]);
                }
            }
        }
        assert(before.push(list.last()) =~= known + list);
    } else {
        assert(known + list =~= known);
    }
}

/// The results of a search stand first in the order of the list of words, and then
/// those come that only the other list has; so results of one score stay in the order
/// in which they were found.
pub proof fn results_stand_as_they_were_found(a: Seq<Seq<char>>, b: Seq<Seq<char>>)
    requires
        a.no_duplicates(),
        b.no_duplicates(),
    ensures
        results(seq![a]) == a,
        (forall|i: int| 0 <= i < b.len() ==> !a.contains(#[trigger] b[i])) ==> results(seq![a, b])
            == a + b,
        (forall|i: int| 0 <= i < b.len() ==> a.contains(#[trigger] b[i])) ==> results(seq![a, b])
            == a,
{
    let one = seq![a];
    let both = seq![a, b];
    assert(one.drop_last() =~= Seq::<Seq<Seq<char>>>::empty());
    assert(results(one.drop_last()) == Seq::<Seq<char>>::empty());
    lemma_new_names(Seq::empty(), a);
    assert(Seq::<Seq<char>>::empty() + a =~= a);
    assert(one.last() == a);
    assert(both.drop_last() =~= one);
    assert(both.last() == b);
    assert(results(one) == a);
    assert(results(both) == names_with(a, b));
    if forall|i: int| 0 <= i < b.len() ==> !a.contains(#[trigger] b[i]) {
        lemma_new_names(a, b);
    }
    if forall|i: int| 0 <= i < b.len() ==> a.contains(#[trigger] b[i]) {
        lemma_known_names(a, b);
    }
}

proof fn lemma_known_names(known: Seq<Seq<char>>, list: Seq<Seq<char>>)
    requires
        forall|i: int| 0 <= i < list.len() ==> known.contains(#[trigger] list[i]),
    ensures
        names_with(known, list) == known,
    decreases list.len(),
{
    if list.len() > 0 {
        let rest = list.drop_last();
        assert forall|i: int| 0 <= i < rest.len() implies known.contains(#[trigger] rest[i]) by {
            assert(rest[i] == list[i]);
        }
        lemma_known_names(known, rest);
        assert(known.contains(list[list.len() - 1]));
    }
}

} // verus!
