//! The strongest way from one node of the graph to another.

use crate::graph::{empty_graph, GraphData};
use crate::ingest::parser::lemma_no_longer;
use crate::json::{Json, JsonTree};
use crate::search::{fetch_graph_for_nodes, graph_of, link_value, value_of};
use crate::store::{lemma_views_push, views, EdgeRow, EdgeView, NodeRow, NodeView, Store, StoreView};
use crate::text::{lex_lt, same, text_lt, texts};
use vstd::prelude::*;

verus! {

// Ways -------------------------------------------------------------------

/// Whether an edge joins the two nodes, in either direction.
pub open spec fn joins(e: EdgeView, a: Seq<char>, b: Seq<char>) -> bool {
    (e.src == a && e.dst == b) || (e.src == b && e.dst == a)
}

/// Whether the two nodes are neighbours.
pub open spec fn adjacent(edges: Seq<EdgeView>, a: Seq<char>, b: Seq<char>) -> bool {
    exists|i: int| 0 <= i < edges.len() && joins(#[trigger] edges[i], a, b)
}

/// Whether a sequence of nodes is a way: each is a neighbour of the one before.
pub open spec fn is_way(edges: Seq<EdgeView>, way: Seq<Seq<char>>) -> bool {
    &&& way.len() > 0
    &&& forall|i: int|
        0 <= i < way.len() - 1 ==> adjacent(edges, #[trigger] way[i], way[i + 1])
}

/// Whether a sequence of nodes is a way between the two.
pub open spec fn leads(
    edges: Seq<EdgeView>,
    way: Seq<Seq<char>>,
    from: Seq<char>,
    to: Seq<char>,
) -> bool {
    is_way(edges, way) && way[0] == from && way.last() == to
}

/// How many steps a way has at most.
pub const MAX_DEPTH: usize = 3;

/// Whether `path` is a way between the two nodes with the fewest steps there are,
/// or nothing where every way has too many.
pub open spec fn shortest_between(
    edges: Seq<EdgeView>,
    path: Seq<Seq<char>>,
    from: Seq<char>,
    to: Seq<char>,
) -> bool {
    if path.len() == 0 {
        forall|way: Seq<Seq<char>>| #[trigger]
            leads(edges, way, from, to) ==> way.len() > MAX_DEPTH + 1
    } else {
        &&& leads(edges, path, from, to)
        &&& path.len() <= MAX_DEPTH + 1
        &&& forall|way: Seq<Seq<char>>| #[trigger]
            leads(edges, way, from, to) ==> way.len() >= path.len()
    }
}

// Searching --------------------------------------------------------------

/// A node that was reached: from which other, and in how many steps.
struct Visit {
    id: String,
    parent: usize,
    depth: usize,
}

spec fn ids_of(v: Seq<Visit>) -> Seq<Seq<char>> {
    v.map_values(|x: Visit| x.id@)
}

/// Whether what was reached is what was reached step by step from the start.
spec fn reached(edges: Seq<EdgeView>, v: Seq<Visit>, from: Seq<char>) -> bool {
    &&& v.len() > 0
    &&& v[0].id@ == from
    &&& v[0].depth == 0
    &&& ids_of(v).no_duplicates()
    &&& forall|i: int|
        0 < i < v.len() ==> {
            &&& 0 <= (#[trigger] v[i]).parent < i
            &&& v[i].depth == v[v[i].parent as int].depth + 1
            &&& adjacent(edges, v[v[i].parent as int].id@, v[i].id@)
        }
    &&& forall|i: int, j: int|
        0 <= i <= j < v.len() ==> (#[trigger] v[i]).depth <= (#[trigger] v[j]).depth
    &&& forall|i: int| 0 <= i < v.len() ==> (#[trigger] v[i]).depth <= MAX_DEPTH
}

/// Whether the node was reached in no more than so many steps.
spec fn has_within(v: Seq<Visit>, id: Seq<char>, depth: int) -> bool {
    exists|i: int| 0 <= i < v.len() && (#[trigger] v[i]).id@ == id && v[i].depth <= depth
}

/// Whether every neighbour of the first `head` nodes was reached from there, as
/// far as the search goes.
spec fn closed(edges: Seq<EdgeView>, v: Seq<Visit>, head: int) -> bool {
    forall|i: int, id: Seq<char>|
        0 <= i < head && (#[trigger] v[i]).depth < MAX_DEPTH && #[trigger] adjacent(
            edges,
            v[i].id@,
            id,
        ) ==> has_within(v, id, v[i].depth + 1)
}

proof fn lemma_has_within_push(v: Seq<Visit>, x: Visit, id: Seq<char>, depth: int)
    requires
        has_within(v, id, depth),
    ensures
        has_within(v.push(x), id, depth),
{
    let i = choose|i: int| 0 <= i < v.len() && (#[trigger] v[i]).id@ == id && v[i].depth <= depth;
    assert(v.push(x)[i] == v[i]);
}

/// All nodes of a way that is short enough were reached, in no more steps than
/// the way takes, as far as the nodes before were all looked at.
proof fn lemma_way_reached(
    edges: Seq<EdgeView>,
    v: Seq<Visit>,
    head: int,
    from: Seq<char>,
    way: Seq<Seq<char>>,
    k: int,
    limit: int,
)
    requires
        reached(edges, v, from),
        closed(edges, v, head),
        is_way(edges, way),
        way[0] == from,
        0 <= k < way.len(),
        k <= limit <= MAX_DEPTH,
        0 <= head <= v.len(),
        forall|i: int| 0 <= i < v.len() && (#[trigger] v[i]).depth < limit ==> i < head,
    ensures
        has_within(v, way[k], k),
    decreases k,
{
    if k == 0 {
        assert(v[0].id@ == way[0]);
    } else {
        lemma_way_reached(edges, v, head, from, way, k - 1, limit);
        let i = choose|i: int|
            0 <= i < v.len() && (#[trigger] v[i]).id@ == way[k - 1] && v[i].depth <= k - 1;
        assert(i < head);
        assert(adjacent(edges, way[k - 1], way[k - 1 + 1]));
        assert(has_within(v, way[k], v[i].depth + 1));
        let j = choose|j: int|
            0 <= j < v.len() && (#[trigger] v[j]).id@ == way[k] && v[j].depth <= v[i].depth + 1;
        assert(v[j].depth <= k);
    }
}

/// All names at the ends of edges.
spec fn all_ends(edges: Seq<EdgeView>) -> Seq<Seq<char>> {
    edges.map_values(|e: EdgeView| e.src) + edges.map_values(|e: EdgeView| e.dst)
}

proof fn lemma_adjacent_is_end(edges: Seq<EdgeView>, a: Seq<char>, b: Seq<char>)
    requires
        adjacent(edges, a, b),
    ensures
        all_ends(edges).contains(b),
{
    let i = choose|i: int| 0 <= i < edges.len() && joins(#[trigger] edges[i], a, b);
    let ends = all_ends(edges);
    if edges[i].dst == b {
        assert(ends[edges.len() + i] == b);
    } else {
        assert(ends[i] == b);
    }
}

proof fn lemma_reached_is_limited(edges: Seq<EdgeView>, v: Seq<Visit>, from: Seq<char>)
    requires
        reached(edges, v, from),
    ensures
        v.len() <= 2 * edges.len() + 1,
{
    let names = all_ends(edges).push(from);
    assert forall|i: int| 0 <= i < ids_of(v).len() implies names.contains(
        #[trigger] ids_of(v)[i],
    ) by {
        if i == 0 {
            assert(names[all_ends(edges).len() as int] == from);
        } else {
            let p = v[i].parent as int;
            lemma_adjacent_is_end(edges, v[p].id@, v[i].id@);
            let k = choose|k: int|
                0 <= k < all_ends(edges).len() && all_ends(edges)[k] == v[i].id@;
            assert(names[k] == v[i].id@);
        }
    }
    lemma_no_longer(ids_of(v), names);
}

fn was_reached(v: &Vec<Visit>, id: &str) -> (r: bool)
    ensures
        r == ids_of(v@).contains(id@),
{
    let mut i: usize = 0;
    while i < v.len()
        invariant
            i <= v@.len(),
            forall|k: int| 0 <= k < i ==> #[trigger] ids_of(v@)[k] != id@,
        decreases v@.len() - i,
    {
        assert(ids_of(v@)[i as int] == v@[i as int].id@);
        if same(v[i].id.as_str(), id) {
            return true;
        }
        i = i + 1;
    }
    false
}

/// Reaches the node from the one at `head`, unless it was reached before.
fn reach(edges: &Vec<EdgeRow>, v: &mut Vec<Visit>, head: usize, id: &str, Ghost(from): Ghost<
    Seq<char>,
>)
    requires
        reached(views(edges@), old(v)@, from),
        closed(views(edges@), old(v)@, head as int),
        head < old(v)@.len(),
        old(v)@[head as int].depth < MAX_DEPTH,
        forall|i: int|
            0 <= i < old(v)@.len() ==> (#[trigger] old(v)@[i]).depth <= old(
                v,
            )@[head as int].depth + 1,
        adjacent(views(edges@), old(v)@[head as int].id@, id@),
    ensures
        reached(views(edges@), final(v)@, from),
        closed(views(edges@), final(v)@, head as int),
        final(v)@.len() >= old(v)@.len(),
        forall|i: int| 0 <= i < old(v)@.len() ==> #[trigger] final(v)@[i] == old(v)@[i],
        forall|i: int|
            0 <= i < final(v)@.len() ==> (#[trigger] final(v)@[i]).depth <= old(
                v,
            )@[head as int].depth + 1,
        has_within(final(v)@, id@, old(v)@[head as int].depth + 1),
        forall|x: Seq<char>, d: int|
            has_within(old(v)@, x, d) ==> #[trigger] has_within(final(v)@, x, d),
{
    let ghost before = v@;
    let ghost all = views(edges@);
    let depth: usize = v[head].depth;
    if was_reached(v, id) {
        proof {
            let i = choose|i: int| 0 <= i < ids_of(before).len() && ids_of(before)[i] == id@;
            assert(before[i].id@ == id@);
            assert(before[i].depth <= depth + 1);
        }
        return;
    }
    let x = Visit { id: id.to_owned(), parent: head, depth: depth + 1 };
    v.push(x);
    proof {
        let after = v@;
        let n = before.len() as int;
        assert(after[n] == x);
        assert(ids_of(after).no_duplicates()) by {
            assert forall|i: int, j: int|
                0 <= i < ids_of(after).len() && 0 <= j < ids_of(after).len() && i
                    != j implies ids_of(after)[i] != ids_of(after)[j] by {
                if i == n {
                    assert(ids_of(before)[j] == ids_of(after)[j]);
                    assert(ids_of(before).contains(ids_of(before)[j]));
                } else if j == n {
                    assert(ids_of(before)[i] == ids_of(after)[i]);
                    assert(ids_of(before).contains(ids_of(before)[i]));
                } else {
                    assert(ids_of(before)[i] == ids_of(after)[i]);
                    assert(ids_of(before)[j] == ids_of(after)[j]);
                }
            }
        }
        assert forall|i: int| 0 < i < after.len() implies {
            &&& 0 <= (#[trigger] after[i]).parent < i
            &&& after[i].depth == after[after[i].parent as int].depth + 1
            &&& adjacent(all, after[after[i].parent as int].id@, after[i].id@)
        } by {
            if i < n {
                assert(after[i] == before[i]);
                assert(after[before[i].parent as int] == before[before[i].parent as int]);
            } else {
                assert(after[head as int] == before[head as int]);
            }
        }
        assert forall|i: int, j: int| 0 <= i <= j < after.len() implies (
        #[trigger] after[i]).depth <= (#[trigger] after[j]).depth by {
            if j < n {
                assert(after[i] == before[i] && after[j] == before[j]);
            } else if i < n {
                assert(after[i] == before[i]);
            }
        }
        assert forall|y: Seq<char>, d: int|
            has_within(before, y, d) implies #[trigger] has_within(after, y, d) by {
            lemma_has_within_push(before, x, y, d);
        }
        assert forall|i: int, y: Seq<char>|
            0 <= i < head && (#[trigger] after[i]).depth < MAX_DEPTH && #[trigger] adjacent(
                all,
                after[i].id@,
                y,
            ) implies has_within(after, y, after[i].depth + 1) by {
            assert(after[i] == before[i]);
            assert(has_within(before, y, before[i].depth + 1));
        }
        assert(after[n].id@ == id@);
        assert(reached(all, after, from));
    }
}

/// Reaches all neighbours of the node at `head`.
fn reach_neighbours(edges: &Vec<EdgeRow>, v: &mut Vec<Visit>, head: usize, Ghost(from): Ghost<
    Seq<char>,
>)
    requires
        reached(views(edges@), old(v)@, from),
        closed(views(edges@), old(v)@, head as int),
        head < old(v)@.len(),
        old(v)@[head as int].depth < MAX_DEPTH,
        forall|i: int|
            0 <= i < old(v)@.len() ==> (#[trigger] old(v)@[i]).depth <= old(
                v,
            )@[head as int].depth + 1,
    ensures
        reached(views(edges@), final(v)@, from),
        closed(views(edges@), final(v)@, head + 1),
        final(v)@.len() >= old(v)@.len(),
        forall|i: int| 0 <= i < old(v)@.len() ==> #[trigger] final(v)@[i] == old(v)@[i],
        forall|i: int|
            0 <= i < final(v)@.len() ==> (#[trigger] final(v)@[i]).depth <= old(
                v,
            )@[head as int].depth + 1,
{
    let ghost all = views(edges@);
    let ghost start = v@;
    let ghost h = v@[head as int];
    let cur = v[head].id.clone();
    let mut i: usize = 0;
    while i < edges.len()
        invariant
            i <= edges@.len(),
            all == views(edges@),
            cur@ == h.id@,
            reached(all, v@, from),
            closed(all, v@, head as int),
            head < v@.len(),
            v@[head as int] == h,
            h.depth < MAX_DEPTH,
            start.len() <= v@.len(),
            head < start.len(),
            forall|k: int| 0 <= k < start.len() ==> #[trigger] v@[k] == start[k],
            forall|k: int| 0 <= k < v@.len() ==> (#[trigger] v@[k]).depth <= h.depth + 1,
            forall|k: int, x: Seq<char>|
                0 <= k < i && joins(#[trigger] all[k], h.id@, x) ==> #[trigger] has_within(
                    v@,
                    x,
                    h.depth + 1,
                ),
        decreases edges@.len() - i,
    {
        let ghost e = all[i as int];
        let ghost before = v@;
        assert(e == edges@[i as int]@);
        if same(edges[i].src.as_str(), cur.as_str()) {
            assert(joins(all[i as int], h.id@, e.dst));
            reach(edges, v, head, edges[i].dst.as_str(), Ghost(from));
        }
        if same(edges[i].dst.as_str(), cur.as_str()) {
            assert(joins(all[i as int], h.id@, e.src));
            reach(edges, v, head, edges[i].src.as_str(), Ghost(from));
        }
        proof {
            assert forall|k: int, x: Seq<char>|
                0 <= k < i + 1 && joins(
                    #[trigger] all[k],
                    h.id@,
                    x,
                ) implies #[trigger] has_within(v@, x, h.depth + 1) by {
                if k < i {
                    assert(has_within(before, x, h.depth + 1));
                }
            }
        }
        i = i + 1;
    }
    proof {
        assert forall|k: int, x: Seq<char>|
            0 <= k < head + 1 && (#[trigger] v@[k]).depth < MAX_DEPTH && #[trigger] adjacent(
                all,
                v@[k].id@,
                x,
            ) implies has_within(v@, x, v@[k].depth + 1) by {
            if k == head {
                let m = choose|m: int| 0 <= m < all.len() && joins(#[trigger] all[m], h.id@, x);
                assert(has_within(v@, x, h.depth + 1));
            }
        }
    }
}

/// The way by which the node at `head` was reached.
fn way_to(v: &Vec<Visit>, head: usize, Ghost(edges): Ghost<Seq<EdgeView>>, Ghost(from): Ghost<
    Seq<char>,
>) -> (r: Vec<String>)
    requires
        reached(edges, v@, from),
        head < v@.len(),
    ensures
        leads(edges, texts(r@), from, v@[head as int].id@),
        r@.len() == v@[head as int].depth + 1,
{
    let mut back: Vec<String> = Vec::new();
    let mut at: usize = head;
    let ghost last = v@[head as int].id@;
    back.push(v[at].id.clone());
    assert(texts(back@) =~= seq![last]);
    while at > 0
        invariant
            reached(edges, v@, from),
            at < v@.len(),
            head < v@.len(),
            last == v@[head as int].id@,
            back@.len() > 0,
            texts(back@)[0] == last,
            texts(back@).last() == v@[at as int].id@,
            back@.len() + v@[at as int].depth == v@[head as int].depth + 1,
            forall|i: int|
                0 <= i < back@.len() - 1 ==> adjacent(
                    edges,
                    #[trigger] texts(back@)[i + 1],
                    texts(back@)[i],
                ),
        decreases at,
    {
        let ghost before = texts(back@);
        let p: usize = v[at].parent;
        let id = v[p].id.clone();
        proof {
            crate::text::lemma_texts_push(back@, id);
            assert(adjacent(edges, v@[p as int].id@, v@[at as int].id@));
        }
        back.push(id);
        proof {
            let after = texts(back@);
            assert(after == before.push(id@));
            assert forall|i: int| 0 <= i < back@.len() - 1 implies adjacent(
                edges,
                #[trigger] after[i + 1],
                after[i],
            ) by {
                if i + 1 < before.len() {
                    assert(after[i + 1] == before[i + 1]);
                    assert(after[i] == before[i]);
                }
            }
        }
        at = p;
    }
    assert(v@[0].id@ == from);
    let ghost b = texts(back@);
    let mut out: Vec<String> = Vec::new();
    let mut n: usize = back.len();
    while n > 0
        invariant
            n <= back@.len(),
            b == texts(back@),
            out@.len() == back@.len() - n,
            forall|k: int| 0 <= k < out@.len() ==> #[trigger] texts(out@)[k] == b[b.len() - 1 - k],
        decreases n,
    {
        let ghost before = texts(out@);
        let id = back[n - 1].clone();
        assert(b[n - 1] == id@);
        proof {
            crate::text::lemma_texts_push(out@, id);
        }
        out.push(id);
        proof {
            assert forall|k: int| 0 <= k < out@.len() implies #[trigger] texts(out@)[k]
                == b[b.len() - 1 - k] by {
                if k < before.len() {
                    assert(texts(out@)[k] == before[k]);
                }
            }
        }
        n = n - 1;
    }
    proof {
        let way = texts(out@);
        assert(way[0] == b[b.len() - 1]);
        assert(way[way.len() - 1] == b[0]);
        assert forall|i: int| 0 <= i < way.len() - 1 implies adjacent(
            edges,
            #[trigger] way[i],
            way[i + 1],
        ) by {
            let j = b.len() - 2 - i;
            assert(way[i] == b[j + 1]);
            assert(way[i + 1] == b[j]);
            assert(adjacent(edges, b[j + 1], b[j]));
        }
    }
    out
}

/// The first time the goal is looked at, it was reached in the fewest steps.
proof fn lemma_first_is_shortest(
    edges: Seq<EdgeView>,
    v: Seq<Visit>,
    head: int,
    from: Seq<char>,
    to: Seq<char>,
)
    requires
        reached(edges, v, from),
        closed(edges, v, head),
        0 <= head < v.len(),
        v[head].id@ == to,
        forall|i: int| 0 <= i < head ==> (#[trigger] v[i]).id@ != to,
    ensures
        forall|way: Seq<Seq<char>>| #[trigger]
            leads(edges, way, from, to) ==> way.len() >= v[head].depth + 1,
{
    let d = v[head].depth as int;
    assert forall|way: Seq<Seq<char>>| #[trigger] leads(edges, way, from, to) implies way.len()
        >= d + 1 by {
        let k = way.len() - 1;
        if k < d {
            assert forall|i: int| 0 <= i < v.len() && (#[trigger] v[i]).depth < d implies i
                < head by {
                if i >= head {
                    assert(v[head].depth <= v[i].depth);
                }
            }
            lemma_way_reached(edges, v, head, from, way, k, d);
            let j = choose|j: int|
                0 <= j < v.len() && (#[trigger] v[j]).id@ == way[k] && v[j].depth <= k;
            assert(j < head);
            assert(v[j].id@ != to);
        }
    }
}

/// Where everything near was looked at and the goal was not among it, no way to
/// it is short enough.
proof fn lemma_nothing_is_near(
    edges: Seq<EdgeView>,
    v: Seq<Visit>,
    from: Seq<char>,
    to: Seq<char>,
)
    requires
        reached(edges, v, from),
        closed(edges, v, v.len() as int),
        forall|i: int| 0 <= i < v.len() ==> (#[trigger] v[i]).id@ != to,
    ensures
        forall|way: Seq<Seq<char>>| #[trigger]
            leads(edges, way, from, to) ==> way.len() > MAX_DEPTH + 1,
{
    assert forall|way: Seq<Seq<char>>| #[trigger] leads(edges, way, from, to) implies way.len()
        > MAX_DEPTH + 1 by {
        let k = way.len() - 1;
        if k <= MAX_DEPTH {
            lemma_way_reached(edges, v, v.len() as int, from, way, k, MAX_DEPTH as int);
            let j = choose|j: int|
                0 <= j < v.len() && (#[trigger] v[j]).id@ == way[k] && v[j].depth <= k;
            assert(v[j].id@ != to);
        }
    }
}

/// What holds of the next node to look at.
proof fn lemma_next_head(
    edges: Seq<EdgeView>,
    before: Seq<Visit>,
    after: Seq<Visit>,
    head: int,
    from: Seq<char>,
    to: Seq<char>,
)
    requires
        reached(edges, after, from),
        0 <= head < before.len() <= after.len(),
        forall|i: int| 0 <= i < before.len() ==> #[trigger] after[i] == before[i],
        forall|i: int| 0 <= i < after.len() ==> (#[trigger] after[i]).depth <= before[head].depth + 1,
        forall|i: int| 0 <= i <= head ==> (#[trigger] before[i]).id@ != to,
    ensures
        head + 1 < after.len() ==> forall|i: int|
            0 <= i < after.len() ==> (#[trigger] after[i]).depth <= after[head + 1].depth + 1,
        forall|i: int| 0 <= i < head + 1 ==> (#[trigger] after[i]).id@ != to,
{
    if head + 1 < after.len() {
        assert(after[head].depth <= after[head + 1].depth);
    }
    assert forall|i: int| 0 <= i < head + 1 implies (#[trigger] after[i]).id@ != to by {
        assert(after[i] == before[i]);
    }
}

/// The shortest way between two nodes, if one is short enough.
#[verifier::rlimit(40)]
pub fn shortest_path(edges: &Vec<EdgeRow>, from: &str, to: &str) -> (r: Vec<String>)
    ensures
        shortest_between(views(edges@), texts(r@), from@, to@),
{
    let ghost all = views(edges@);
    let ghost f = from@;
    let mut v: Vec<Visit> = Vec::new();
    v.push(Visit { id: from.to_owned(), parent: 0, depth: 0 });
    let mut head: usize = 0;
    assert(reached(all, v@, f));
    while head < v.len()
        invariant
            head <= v@.len(),
            all == views(edges@),
            f == from@,
            reached(all, v@, f),
            closed(all, v@, head as int),
            head < v@.len() ==> forall|i: int|
                0 <= i < v@.len() ==> (#[trigger] v@[i]).depth <= v@[head as int].depth + 1,
            forall|i: int| 0 <= i < head ==> (#[trigger] v@[i]).id@ != to@,
        decreases 2 * all.len() + 1 - head,
    {
        if same(v[head].id.as_str(), to) {
            let path = way_to(&v, head, Ghost(all), Ghost(f));
            proof {
                lemma_first_is_shortest(all, v@, head as int, f, to@);
                assert(texts(path@).len() == path@.len());
            }
            return path;
        }
        let ghost before = v@;
        let ghost hd = v@[head as int].depth;
        if v[head].depth < MAX_DEPTH {
            reach_neighbours(edges, &mut v, head, Ghost(f));
        } else {
            assert(closed(all, v@, head + 1));
        }
        proof {
            lemma_reached_is_limited(all, v@, f);
            lemma_next_head(all, before, v@, head as int, f, to@);
        }
        head = head + 1;
    }
    let none: Vec<String> = Vec::new();
    proof {
        assert(texts(none@) =~= Seq::<Seq<char>>::empty());
        lemma_nothing_is_near(all, v@, f, to@);
    }
    none
}

// Strength ---------------------------------------------------------------

/// How often an edge was found. It is one where that is not told as an integer; of
/// yes and no, yes is one and no is none.
pub open spec fn edge_backing(e: EdgeView) -> i64 {
    if e.props.at("count"@) == JsonTree::Bool(false) {
        0
    } else {
        link_value(e)
    }
}

fn backing_of_edge(e: &EdgeRow) -> (r: i64)
    ensures
        r == edge_backing(e@),
{
    match e.props.get("count") {
        Some(Json::Bool(false)) => 0,
        _ => value_of(e),
    }
}

/// How often the link between two nodes was found, as the first edge that joins
/// them has it.
pub open spec fn backing(edges: Seq<EdgeView>, a: Seq<char>, b: Seq<char>) -> i64
    decreases edges.len(),
{
    if edges.len() == 0 {
        1
    } else if joins(edges[0], a, b) {
        edge_backing(edges[0])
    } else {
        backing(edges.drop_first(), a, b)
    }
}

/// The weakest link of a way.
pub open spec fn weakest(edges: Seq<EdgeView>, way: Seq<Seq<char>>) -> i64
    decreases way.len(),
{
    if way.len() < 2 {
        i64::MAX
    } else {
        let before = weakest(edges, way.drop_last());
        let last = backing(edges, way[way.len() - 2], way.last());
        if last < before {
            last
        } else {
            before
        }
    }
}

/// The strength of a way: that of its weakest link, or zero where it has none.
pub open spec fn strength_of(edges: Seq<EdgeView>, way: Seq<Seq<char>>) -> i64 {
    if way.len() < 2 {
        0
    } else {
        weakest(edges, way)
    }
}

/// Whether `path` is what is found between the two nodes: of the ways that are
/// short enough one whose weakest link is the strongest, and of those one with the
/// fewest steps; or nothing where every way is too long.
pub open spec fn found_between(
    edges: Seq<EdgeView>,
    path: Seq<Seq<char>>,
    from: Seq<char>,
    to: Seq<char>,
) -> bool {
    if path.len() == 0 {
        forall|way: Seq<Seq<char>>| #[trigger]
            leads(edges, way, from, to) ==> way.len() > MAX_DEPTH + 1
    } else {
        &&& leads(edges, path, from, to)
        &&& path.len() <= MAX_DEPTH + 1
        &&& forall|way: Seq<Seq<char>>| #[trigger]
            leads(edges, way, from, to) && way.len() <= MAX_DEPTH + 1 ==> weakest(edges, way)
                < weakest(edges, path) || (weakest(edges, way) == weakest(edges, path)
                && way.len() >= path.len())
    }
}

fn backing_of(edges: &Vec<EdgeRow>, a: &str, b: &str) -> (r: i64)
    ensures
        r == backing(views(edges@), a@, b@),
{
    let ghost all = views(edges@);
    let mut i: usize = 0;
    assert(all.skip(0) =~= all);
    while i < edges.len()
        invariant
            i <= edges@.len(),
            all == views(edges@),
            backing(all, a@, b@) == backing(all.skip(i as int), a@, b@),
        decreases edges@.len() - i,
    {
        assert(all.skip(i as int)[0] == edges@[i as int]@);
        if (same(edges[i].src.as_str(), a) && same(edges[i].dst.as_str(), b)) || (same(
            edges[i].src.as_str(),
            b,
        ) && same(edges[i].dst.as_str(), a)) {
            return backing_of_edge(&edges[i]);
        }
        assert(all.skip(i as int).drop_first() =~= all.skip(i + 1));
        i = i + 1;
    }
    1
}

/// The strength of a way.
pub fn path_strength(edges: &Vec<EdgeRow>, way: &Vec<String>) -> (r: i64)
    ensures
        r == strength_of(views(edges@), texts(way@)),
{
    let ghost all = views(edges@);
    let ghost w = texts(way@);
    let mut strength: i64 = i64::MAX;
    if way.len() >= 2 {
        let mut i: usize = 1;
        assert(w.take(1).len() == 1);
        while i < way.len()
            invariant
                1 <= i <= way@.len(),
                all == views(edges@),
                w == texts(way@),
                strength == weakest(all, w.take(i as int)),
            decreases way@.len() - i,
        {
            let n: i64 = backing_of(edges, way[i - 1].as_str(), way[i].as_str());
            proof {
                let next = w.take(i + 1);
                assert(next.drop_last() =~= w.take(i as int));
                assert(next.last() == way@[i as int]@);
                assert(next[next.len() - 2] == way@[i - 1]@);
            }
            if n < strength {
                strength = n;
            }
            i = i + 1;
        }
        assert(w.take(i as int) =~= w);
        strength
    } else {
        0
    }
}

// The strongest way ------------------------------------------------------

proof fn lemma_backing_symmetric(edges: Seq<EdgeView>, a: Seq<char>, b: Seq<char>)
    ensures
        backing(edges, a, b) == backing(edges, b, a),
    decreases edges.len(),
{
    if edges.len() > 0 {
        lemma_backing_symmetric(edges.drop_first(), a, b);
    }
}

/// Whether the way has no link that is weaker than the limit.
spec fn holds_up(edges: Seq<EdgeView>, way: Seq<Seq<char>>, limit: i64) -> bool {
    forall|i: int|
        0 <= i < way.len() - 1 ==> backing(edges, #[trigger] way[i], way[i + 1]) >= limit
}

proof fn lemma_holds_up(edges: Seq<EdgeView>, way: Seq<Seq<char>>, limit: i64)
    requires
        way.len() >= 2,
    ensures
        holds_up(edges, way, limit) <==> weakest(edges, way) >= limit,
        exists|i: int|
            0 <= i < way.len() - 1 && weakest(edges, way) == backing(
                edges,
                #[trigger] way[i],
                way[i + 1],
            ),
    decreases way.len(),
{
    let rest = way.drop_last();
    let n = way.len() as int;
    if n > 2 {
        lemma_holds_up(edges, rest, limit);
        if holds_up(edges, way, limit) {
            assert forall|i: int| 0 <= i < rest.len() - 1 implies backing(
                edges,
                #[trigger] rest[i],
                rest[i + 1],
            ) >= limit by {
                assert(backing(edges, way[i], way[i + 1]) >= limit);
            }
            assert(backing(edges, way[n - 2], way[n - 2 + 1]) >= limit);
        }
        if weakest(edges, way) >= limit {
            assert forall|i: int| 0 <= i < n - 1 implies backing(
                edges,
                #[trigger] way[i],
                way[i + 1],
            ) >= limit by {
                if i < n - 2 {
                    assert(backing(edges, rest[i], rest[i + 1]) >= limit);
                }
            }
        }
        let k = choose|k: int|
            0 <= k < rest.len() - 1 && weakest(edges, rest) == backing(
                edges,
                #[trigger] rest[k],
                rest[k + 1],
            );
        if weakest(edges, way) == weakest(edges, rest) {
            assert(weakest(edges, way) == backing(edges, way[k], way[k + 1]));
        } else {
            assert(weakest(edges, way) == backing(edges, way[n - 2], way[n - 2 + 1]));
        }
    } else {
        assert(weakest(edges, rest) == i64::MAX);
        assert(weakest(edges, way) == backing(edges, way[0], way[0int + 1]));
        if holds_up(edges, way, limit) {
            assert(backing(edges, way[0], way[0int + 1]) >= limit);
        }
    }
}

/// Whether the edges join exactly those nodes whose link is no weaker than the
/// limit.
spec fn joins_strong(strong: Seq<EdgeView>, edges: Seq<EdgeView>, limit: i64) -> bool {
    forall|a: Seq<char>, b: Seq<char>| #[trigger]
        adjacent(strong, a, b) <==> adjacent(edges, a, b) && backing(edges, a, b) >= limit
}

proof fn lemma_strong_ways(
    strong: Seq<EdgeView>,
    edges: Seq<EdgeView>,
    limit: i64,
    way: Seq<Seq<char>>,
)
    requires
        joins_strong(strong, edges, limit),
        way.len() >= 2,
    ensures
        is_way(strong, way) <==> is_way(edges, way) && weakest(edges, way) >= limit,
{
    lemma_holds_up(edges, way, limit);
    if is_way(strong, way) {
        assert forall|i: int| 0 <= i < way.len() - 1 implies adjacent(
            edges,
            #[trigger] way[i],
            way[i + 1],
        ) && backing(edges, way[i], way[i + 1]) >= limit by {
            assert(adjacent(strong, way[i], way[i + 1]));
        }
    }
    if is_way(edges, way) && holds_up(edges, way, limit) {
        assert forall|i: int| 0 <= i < way.len() - 1 implies adjacent(
            strong,
            #[trigger] way[i],
            way[i + 1],
        ) by {
            assert(adjacent(edges, way[i], way[i + 1]));
            assert(backing(edges, way[i], way[i + 1]) >= limit);
        }
    }
}

/// How often each link was found.
fn all_backings(edges: &Vec<EdgeRow>) -> (r: Vec<i64>)
    ensures
        r@.len() == edges@.len(),
        forall|i: int|
            0 <= i < r@.len() ==> #[trigger] r@[i] == backing(
                views(edges@),
                edges@[i]@.src,
                edges@[i]@.dst,
            ),
{
    let mut out: Vec<i64> = Vec::new();
    let mut i: usize = 0;
    while i < edges.len()
        invariant
            i <= edges@.len(),
            out@.len() == i,
            forall|k: int|
                0 <= k < i ==> #[trigger] out@[k] == backing(
                    views(edges@),
                    edges@[k]@.src,
                    edges@[k]@.dst,
                ),
        decreases edges@.len() - i,
    {
        out.push(backing_of(edges, edges[i].src.as_str(), edges[i].dst.as_str()));
        i = i + 1;
    }
    out
}

/// Whether one of the first `n` edges joins the two nodes and is no weaker than the
/// limit.
spec fn joined_strongly(
    edges: Seq<EdgeView>,
    values: Seq<i64>,
    limit: i64,
    n: int,
    a: Seq<char>,
    b: Seq<char>,
) -> bool {
    exists|k: int| 0 <= k < n && joins(#[trigger] edges[k], a, b) && values[k] >= limit
}

/// The links that are no weaker than the limit.
fn strong_links(edges: &Vec<EdgeRow>, values: &Vec<i64>, limit: i64) -> (r: Vec<EdgeRow>)
    requires
        values@.len() == edges@.len(),
        forall|i: int|
            0 <= i < values@.len() ==> #[trigger] values@[i] == backing(
                views(edges@),
                edges@[i]@.src,
                edges@[i]@.dst,
            ),
    ensures
        joins_strong(views(r@), views(edges@), limit),
{
    let ghost all = views(edges@);
    let mut out: Vec<EdgeRow> = Vec::new();
    let mut i: usize = 0;
    while i < edges.len()
        invariant
            i <= edges@.len(),
            all == views(edges@),
            values@.len() == edges@.len(),
            forall|a: Seq<char>, b: Seq<char>| #[trigger]
                adjacent(views(out@), a, b) <==> joined_strongly(all, values@, limit, i as int, a, b),
        decreases edges@.len() - i,
    {
        let ghost before = views(out@);
        assert(all[i as int] == edges@[i as int]@);
        if values[i] >= limit {
            let row = EdgeRow {
                src: edges[i].src.clone(),
                dst: edges[i].dst.clone(),
                kind: String::new(),
                props: Json::Null,
            };
            proof {
                lemma_views_push(out@, row);
            }
            out.push(row);
        }
        proof {
            let after = views(out@);
            assert forall|a: Seq<char>, b: Seq<char>| #[trigger]
                adjacent(after, a, b) <==> joined_strongly(all, values@, limit, i + 1, a, b) by {
                if adjacent(after, a, b) {
                    let m = choose|m: int| 0 <= m < after.len() && joins(#[trigger] after[m], a, b);
                    if m < before.len() {
                        assert(before[m] == after[m]);
                        assert(adjacent(before, a, b));
                        let k = choose|k: int|
                            0 <= k < i && joins(#[trigger] all[k], a, b) && values@[k] >= limit;
                        assert(joins(all[k], a, b));
                    } else {
                        assert(joins(all[i as int], a, b));
                    }
                }
                if joined_strongly(all, values@, limit, i + 1, a, b) {
                    let k = choose|k: int|
                        0 <= k < i + 1 && joins(#[trigger] all[k], a, b) && values@[k] >= limit;
                    if k < i {
                        assert(joined_strongly(all, values@, limit, i as int, a, b));
                        assert(adjacent(before, a, b));
                        let m = choose|m: int|
                            0 <= m < before.len() && joins(#[trigger] before[m], a, b);
                        assert(after[m] == before[m]);
                    } else {
                        assert(joins(after[before.len() as int], a, b));
                    }
                }
            }
        }
        i = i + 1;
    }
    proof {
        let strong = views(out@);
        assert forall|a: Seq<char>, b: Seq<char>| #[trigger]
            adjacent(strong, a, b) <==> adjacent(all, a, b) && backing(all, a, b) >= limit by {
            lemma_backing_symmetric(all, a, b);
            if adjacent(strong, a, b) {
                let k = choose|k: int|
                    0 <= k < all.len() && joins(#[trigger] all[k], a, b) && values@[k] >= limit;
                assert(values@[k] == backing(all, edges@[k]@.src, edges@[k]@.dst));
            }
            if adjacent(all, a, b) && backing(all, a, b) >= limit {
                let k = choose|k: int| 0 <= k < all.len() && joins(#[trigger] all[k], a, b);
                assert(values@[k] == backing(all, edges@[k]@.src, edges@[k]@.dst));
                assert(joins(all[k], a, b) && values@[k] >= limit);
            }
        }
    }
    out
}

/// The greatest of the values that lie below the bound, if there is a bound.
fn next_below(values: &Vec<i64>, bound: Option<i64>) -> (r: Option<i64>)
    ensures
        match r {
            Some(x) => values@.contains(x) && (bound matches Some(b) ==> x < b) && forall|i: int|
                0 <= i < values@.len() && (bound matches Some(b) ==> values@[i] < b)
                    ==> #[trigger] values@[i] <= x,
            None => bound matches Some(b) ==> forall|i: int|
                0 <= i < values@.len() ==> #[trigger] values@[i] >= b,
        },
        r is None && bound is None ==> values@.len() == 0,
{
    let mut best: Option<i64> = None;
    let mut i: usize = 0;
    while i < values.len()
        invariant
            i <= values@.len(),
            match best {
                Some(x) => values@.contains(x) && (bound matches Some(b) ==> x < b) && forall|
                    k: int,
                |
                    0 <= k < i && (bound matches Some(b) ==> values@[k] < b)
                        ==> #[trigger] values@[k] <= x,
                None => forall|k: int|
                    0 <= k < i ==> bound is Some && #[trigger] values@[k] >= bound->0,
            },
        decreases values@.len() - i,
    {
        let x: i64 = values[i];
        let below = match bound {
            Some(b) => x < b,
            None => true,
        };
        if below {
            assert(values@[i as int] == x);
            match best {
                Some(y) => {
                    if x > y {
                        best = Some(x);
                    }
                },
                None => {
                    best = Some(x);
                },
            }
        }
        i = i + 1;
    }
    proof {
        if best is None && values@.len() > 0 {
            assert(values@[0] >= bound->0);
        }
    }
    best
}

/// The strongest way between two nodes, if one is short enough: the links are
/// taken in from the strongest down until there is a way.
pub fn strongest_path(edges: &Vec<EdgeRow>, from: &str, to: &str) -> (r: Vec<String>)
    ensures
        found_between(views(edges@), texts(r@), from@, to@),
{
    let ghost all = views(edges@);
    if same(from, to) {
        let r = vec![from.to_owned()];
        assert(texts(r@) =~= seq![from@]);
        return r;
    }
    let values = all_backings(edges);
    let mut bound: Option<i64> = None;
    loop
        invariant
            all == views(edges@),
            from@ != to@,
            values@.len() == edges@.len(),
            forall|i: int|
                0 <= i < values@.len() ==> #[trigger] values@[i] == backing(
                    all,
                    edges@[i]@.src,
                    edges@[i]@.dst,
                ),
            bound matches Some(b) ==> forall|way: Seq<Seq<char>>| #[trigger]
                leads(all, way, from@, to@) && way.len() <= MAX_DEPTH + 1 ==> weakest(all, way) < b,
        decreases below(values@, bound),
    {
        match next_below(&values, bound) {
            None => {
                let none: Vec<String> = Vec::new();
                proof {
                    assert(texts(none@) =~= Seq::<Seq<char>>::empty());
                    assert forall|way: Seq<Seq<char>>| #[trigger]
                        leads(all, way, from@, to@) implies way.len() > MAX_DEPTH + 1 by {
                        if way.len() <= MAX_DEPTH + 1 {
                            lemma_weakest_is_a_value(edges@, all, values@, way);
                        }
                    }
                }
                return none;
            },
            Some(limit) => {
                let strong = strong_links(edges, &values, limit);
                let path = shortest_path(&strong, from, to);
                proof {
                    let links = views(strong@);
                    assert(texts(path@).len() == path@.len());
                    assert forall|way: Seq<Seq<char>>| #[trigger]
                        leads(all, way, from@, to@) && way.len() <= MAX_DEPTH + 1 implies weakest(
                        all,
                        way,
                    ) < limit || leads(links, way, from@, to@) by {
                        lemma_strong_ways(links, all, limit, way);
                    }
                    assert forall|way: Seq<Seq<char>>| #[trigger]
                        leads(all, way, from@, to@) && way.len() <= MAX_DEPTH + 1 implies weakest(
                        all,
                        way,
                    ) <= limit by {
                        let k = lemma_weakest_is_a_value(edges@, all, values@, way);
                        assert(values@[k] <= limit);
                    }
                    if path@.len() > 0 {
                        lemma_strong_ways(links, all, limit, texts(path@));
                        assert(leads(all, texts(path@), from@, to@));
                    }
                    lemma_fewer_below(values@, bound, limit);
                }
                if path.len() > 0 {
                    return path;
                }
                bound = Some(limit);
            },
        }
    }
}

/// The weakest link of a way is one of the edges.
proof fn lemma_weakest_is_a_value(
    rows: Seq<EdgeRow>,
    all: Seq<EdgeView>,
    values: Seq<i64>,
    way: Seq<Seq<char>>,
) -> (k: int)
    requires
        all == views(rows),
        values.len() == rows.len(),
        forall|i: int|
            0 <= i < values.len() ==> #[trigger] values[i] == backing(
                all,
                rows[i]@.src,
                rows[i]@.dst,
            ),
        is_way(all, way),
        way.len() >= 2,
    ensures
        0 <= k < values.len(),
        values[k] == weakest(all, way),
{
    lemma_holds_up(all, way, 0);
    let i = choose|i: int|
        0 <= i < way.len() - 1 && weakest(all, way) == backing(
            all,
            #[trigger] way[i],
            way[i + 1],
        );
    assert(adjacent(all, way[i], way[i + 1]));
    let k = choose|k: int| 0 <= k < all.len() && joins(#[trigger] all[k], way[i], way[i + 1]);
    assert(all[k] == rows[k]@);
    lemma_backing_symmetric(all, way[i], way[i + 1]);
    assert(values[k] == backing(all, rows[k]@.src, rows[k]@.dst));
    k
}

proof fn lemma_fewer_below(values: Seq<i64>, bound: Option<i64>, limit: i64)
    requires
        values.contains(limit),
        bound matches Some(b) ==> limit < b,
    ensures
        below(values, Some(limit)) < below(values, bound),
    decreases values.len(),
{
    let rest = values.drop_last();
    let n = values.len() - 1;
    lemma_no_more_below(rest, bound, limit);
    if rest.contains(limit) {
        lemma_fewer_below(rest, bound, limit);
    } else {
        let i = choose|i: int| 0 <= i < values.len() && values[i] == limit;
        if i < n {
            assert(rest[i] == limit);
        }
        assert(values[n] == limit);
    }
}

proof fn lemma_no_more_below(values: Seq<i64>, bound: Option<i64>, limit: i64)
    requires
        bound matches Some(b) ==> limit < b,
    ensures
        below(values, Some(limit)) <= below(values, bound),
    decreases values.len(),
{
    if values.len() > 0 {
        lemma_no_more_below(values.drop_last(), bound, limit);
    }
}

/// How many of the values lie below the bound.
spec fn below(values: Seq<i64>, bound: Option<i64>) -> nat {
    crate::seqs::kept(values, |x: i64| bound matches Some(b) ==> x < b).len()
}

// By name ----------------------------------------------------------------

/// The node that a name stands for: of those with the name the one whose kind
/// comes first, and of these the first.
pub open spec fn named(nodes: Seq<NodeView>, name: Seq<char>) -> Option<NodeView>
    decreases nodes.len(),
{
    if nodes.len() == 0 {
        None
    } else {
        let n = nodes.last();
        match named(nodes.drop_last(), name) {
            None => if n.name == name {
                Some(n)
            } else {
                None
            },
            Some(m) => if n.name == name && lex_lt(n.kind, m.kind) {
                Some(n)
            } else {
                Some(m)
            },
        }
    }
}

/// The node that a name stands for.
pub fn resolve(nodes: &Vec<NodeRow>, name: &str) -> (r: Option<String>)
    ensures
        match (r, named(views(nodes@), name@)) {
            (Some(id), Some(n)) => id@ == n.id,
            (None, None) => true,
            _ => false,
        },
{
    let ghost all = views(nodes@);
    let mut best: Option<usize> = None;
    let mut i: usize = 0;
    assert(all.take(0) =~= Seq::<NodeView>::empty());
    while i < nodes.len()
        invariant
            i <= nodes@.len(),
            all == views(nodes@),
            match best {
                Some(k) => k < nodes@.len() && named(all.take(i as int), name@) == Some(
                    nodes@[k as int]@,
                ),
                None => named(all.take(i as int), name@) is None,
            },
        decreases nodes@.len() - i,
    {
        proof {
            assert(all.take(i + 1).drop_last() =~= all.take(i as int));
            assert(all.take(i + 1).last() == nodes@[i as int]@);
        }
        if same(nodes[i].name.as_str(), name) {
            match best {
                None => {
                    best = Some(i);
                },
                Some(k) => {
                    if text_lt(nodes[i].kind.as_str(), nodes[k].kind.as_str()) {
                        best = Some(i);
                    }
                },
            }
        }
        i = i + 1;
    }
    assert(all.take(i as int) =~= all);
    match best {
        Some(k) => Some(nodes[k].id.clone()),
        None => None,
    }
}

/// A way that is shown.
#[derive(Debug)]
pub struct PathResult {
    pub path: Vec<String>,
    pub strength: i64,
    pub graph: GraphData,
}

/// Whether nothing is shown.
pub open spec fn shows_nothing(r: PathResult) -> bool {
    r.path@.len() == 0 && r.strength == 0 && r.graph@ == empty_graph()
}

/// Whether the result shows the way between the two nodes, with its strength.
pub open spec fn shows_way(r: PathResult, v: StoreView, from: Seq<char>, to: Seq<char>) -> bool {
    &&& found_between(v.edges, texts(r.path@), from, to)
    &&& if r.path@.len() == 0 {
        shows_nothing(r)
    } else {
        r.strength == strength_of(v.edges, texts(r.path@)) && r.graph@ == graph_of(
            v,
            texts(r.path@),
        )
    }
}

fn no_path() -> (r: PathResult)
    ensures
        shows_nothing(r),
{
    PathResult { path: Vec::new(), strength: 0, graph: GraphData::empty() }
}

/// The node that an optional name stands for.
pub open spec fn named_opt(nodes: Seq<NodeView>, name: Option<&str>) -> Option<NodeView> {
    match name {
        Some(s) => named(nodes, s@),
        None => None,
    }
}

/// The strongest way between the nodes with the names; nothing where one of them
/// is missing or no way is short enough.
pub fn lens_path(store: &Store, from_name: Option<&str>, to_name: Option<&str>) -> (r: PathResult)
    ensures
        match (named_opt(store@.nodes, from_name), named_opt(store@.nodes, to_name)) {
            (Some(a), Some(b)) => shows_way(r, store@, a.id, b.id),
            _ => shows_nothing(r),
        },
{
    let from = match from_name {
        Some(s) => resolve(&store.nodes, s),
        None => None,
    };
    let to = match to_name {
        Some(s) => resolve(&store.nodes, s),
        None => None,
    };
    match (from, to) {
        (Some(a), Some(b)) => {
            let path = strongest_path(&store.edges, a.as_str(), b.as_str());
            assert(texts(path@).len() == path@.len());
            if path.len() == 0 {
                let r = no_path();
                assert(texts(r.path@) =~= texts(path@));
                return r;
            }
            let strength: i64 = path_strength(&store.edges, &path);
            let graph = fetch_graph_for_nodes(store, &path);
            PathResult { path, strength, graph }
        },
        _ => no_path(),
    }
}

// Laws -------------------------------------------------------------------

/// No link of a way is weaker than the way.
pub proof fn no_link_is_weaker(edges: Seq<EdgeView>, way: Seq<Seq<char>>, i: int)
    requires
        0 <= i < way.len() - 1,
    ensures
        weakest(edges, way) <= backing(edges, way[i], way[i + 1]),
    decreases way.len(),
{
    let rest = way.drop_last();
    if i < way.len() - 2 {
        no_link_is_weaker(edges, rest, i);
        assert(rest[i] == way[i] && rest[i + 1] == way[i + 1]);
    }
}

/// Neighbourhood has no direction, so that a way read backwards is a way.
pub proof fn ways_can_be_walked_back(
    edges: Seq<EdgeView>,
    way: Seq<Seq<char>>,
    from: Seq<char>,
    to: Seq<char>,
)
    requires
        leads(edges, way, from, to),
    ensures
        leads(edges, way.reverse(), to, from),
{
    let back = way.reverse();
    assert(back[0] == way[way.len() - 1]);
    assert(back[back.len() - 1] == way[0]);
    assert forall|i: int| 0 <= i < back.len() - 1 implies adjacent(
        edges,
        #[trigger] back[i],
        back[i + 1],
    ) by {
        let j = way.len() - 2 - i;
        assert(adjacent(edges, way[j], way[j + 1]));
        assert(back[i] == way[j + 1]);
        assert(back[i + 1] == way[j]);
        let k = choose|k: int| 0 <= k < edges.len() && joins(#[trigger] edges[k], way[j], way[j + 1]);
        assert(joins(edges[k], way[j + 1], way[j]));
    }
}

/// No way between two different nodes that is short enough is stronger than the one
/// that is found, and of those that are as strong none has fewer steps.
pub proof fn strongest_ways_come_first(
    edges: Seq<EdgeView>,
    path: Seq<Seq<char>>,
    way: Seq<Seq<char>>,
    from: Seq<char>,
    to: Seq<char>,
)
    requires
        from != to,
        found_between(edges, path, from, to),
        leads(edges, way, from, to),
        way.len() <= MAX_DEPTH + 1,
    ensures
        path.len() >= 2,
        strength_of(edges, way) <= strength_of(edges, path),
        strength_of(edges, way) == strength_of(edges, path) ==> path.len() <= way.len(),
{
    assert(way.len() >= 2);
    if path.len() > 0 {
        assert(leads(edges, path, from, to));
    }
}

/// A name stands for nothing only if no node of any kind has it. Otherwise it stands
/// for a node that has it, none of the nodes that have it is of a kind that comes
/// before, and none before it is of its kind.
pub proof fn names_stand_for_nodes(nodes: Seq<NodeView>, name: Seq<char>)
    ensures
        named(nodes, name) is None <==> forall|i: int|
            0 <= i < nodes.len() ==> (#[trigger] nodes[i]).name != name,
        named(nodes, name) matches Some(n) ==> exists|k: int|
            {
                &&& 0 <= k < nodes.len() && #[trigger] nodes[k] == n && n.name == name
                &&& forall|i: int|
                    0 <= i < nodes.len() && (#[trigger] nodes[i]).name == name ==> !lex_lt(
                        nodes[i].kind,
                        n.kind,
                    ) && (nodes[i].kind == n.kind ==> i >= k)
            },
    decreases nodes.len(),
{
    if nodes.len() > 0 {
        let rest = nodes.drop_last();
        let last = nodes.len() - 1;
        names_stand_for_nodes(rest, name);
        assert forall|i: int| 0 <= i < rest.len() implies #[trigger] rest[i] == nodes[i] by {}
        match named(rest, name) {
            None => {
                assert forall|i: int| 0 <= i < rest.len() implies (
                #[trigger] nodes[i]).name != name by {
                    assert(rest[i].name != name);
                }
                crate::text::lemma_lex_irreflexive(nodes[last].kind);
                if nodes[last].name == name {
                    assert(named(nodes, name) == Some(nodes[last]));
                }
            },
            Some(m) => {
                let k = choose|k: int|
                    {
                        &&& 0 <= k < rest.len() && #[trigger] rest[k] == m && m.name == name
                        &&& forall|i: int|
                            0 <= i < rest.len() && (#[trigger] rest[i]).name == name ==> !lex_lt(
                                rest[i].kind,
                                m.kind,
                            ) && (rest[i].kind == m.kind ==> i >= k)
                    };
                assert(nodes[k].name == name);
                let n = nodes[last];
                let taken = n.name == name && lex_lt(n.kind, m.kind);
                let at = if taken {
                    last
                } else {
                    k
                };
                let best = nodes[at];
                assert(named(nodes, name) == Some(best));
                assert forall|i: int|
                    0 <= i < nodes.len() && (#[trigger] nodes[i]).name == name implies !lex_lt(
                    nodes[i].kind,
                    best.kind,
                ) && (nodes[i].kind == best.kind ==> i >= at) by {
                    crate::text::lemma_lex_irreflexive(best.kind);
                    if i < last {
                        assert(rest[i].name == name);
                        if taken {
                            if lex_lt(rest[i].kind, n.kind) {
                                crate::text::lemma_lex_transitive(rest[i].kind, n.kind, m.kind);
                            }
                        }
                    }
                }
                assert(nodes[at] == best);
            },
        }
    }
}

/// Every edge can be walked, whatever its type and however often it was found, from
/// either end to the other; and every step of a way is along an edge.
pub proof fn steps_are_edges(edges: Seq<EdgeView>, way: Seq<Seq<char>>, i: int)
    ensures
        0 <= i < edges.len() ==> is_way(edges, seq![edges[i].src, edges[i].dst]) && is_way(
            edges,
            seq![edges[i].dst, edges[i].src],
        ),
        is_way(edges, way) && 0 <= i < way.len() - 1 ==> exists|k: int|
            0 <= k < edges.len() && (((#[trigger] edges[k]).src == way[i] && edges[k].dst == way[i
                + 1]) || (edges[k].src == way[i + 1] && edges[k].dst == way[i])),
{
    if 0 <= i < edges.len() {
        let w = seq![edges[i].src, edges[i].dst];
        let b = seq![edges[i].dst, edges[i].src];
        assert(joins(edges[i], w[0], w[1]));
        assert(joins(edges[i], b[0], b[1]));
        assert forall|j: int| 0 <= j < w.len() - 1 implies adjacent(
            edges,
            #[trigger] w[j],
            w[j + 1],
        ) by {}
        assert forall|j: int| 0 <= j < b.len() - 1 implies adjacent(
            edges,
            #[trigger] b[j],
            b[j + 1],
        ) by {}
    }
    if is_way(edges, way) && 0 <= i < way.len() - 1 {
        assert(adjacent(edges, way[i], way[i + 1]));
        let k = choose|k: int| 0 <= k < edges.len() && joins(#[trigger] edges[k], way[i], way[i + 1]);
        assert(joins(edges[k], way[i], way[i + 1]));
    }
}

/// Where one can come from one node to the other along edges in three steps or
/// fewer, a path is found; and what is found starts at the one, ends at the other,
/// goes along edges, and has three steps at most.
pub proof fn near_nodes_have_a_path(
    edges: Seq<EdgeView>,
    path: Seq<Seq<char>>,
    way: Seq<Seq<char>>,
    from: Seq<char>,
    to: Seq<char>,
)
    requires
        found_between(edges, path, from, to),
    ensures
        1 <= way.len() <= 4 && way[0] == from && way.last() == to && (forall|i: int|
            0 <= i < way.len() - 1 ==> exists|k: int|
                0 <= k < edges.len() && (((#[trigger] edges[k]).src == #[trigger] way[i]
                    && edges[k].dst == way[i + 1]) || (edges[k].src == way[i + 1] && edges[k].dst
                    == way[i]))) ==> path.len() > 0,
        path.len() > 0 ==> {
            &&& path.len() <= 4 && path[0] == from && path.last() == to
            &&& forall|i: int|
                0 <= i < path.len() - 1 ==> exists|k: int|
                    0 <= k < edges.len() && (((#[trigger] edges[k]).src == #[trigger] path[i]
                        && edges[k].dst == path[i + 1]) || (edges[k].src == path[i + 1]
                        && edges[k].dst == path[i]))
        },
{
    if 1 <= way.len() <= 4 && way[0] == from && way.last() == to && (forall|i: int|
        0 <= i < way.len() - 1 ==> exists|k: int|
            0 <= k < edges.len() && (((#[trigger] edges[k]).src == #[trigger] way[i] && edges[k].dst
                == way[i + 1]) || (edges[k].src == way[i + 1] && edges[k].dst == way[i]))) {
        assert forall|i: int| 0 <= i < way.len() - 1 implies adjacent(
            edges,
            #[trigger] way[i],
            way[i + 1],
        ) by {
            let k = choose|k: int|
                0 <= k < edges.len() && (((#[trigger] edges[k]).src == way[i] && edges[k].dst
                    == way[i + 1]) || (edges[k].src == way[i + 1] && edges[k].dst == way[i]));
            assert(joins(edges[k], way[i], way[i + 1]));
        }
        assert(leads(edges, way, from, to));
    }
    if path.len() > 0 {
        assert forall|i: int| 0 <= i < path.len() - 1 implies exists|k: int|
            0 <= k < edges.len() && (((#[trigger] edges[k]).src == #[trigger] path[i]
                && edges[k].dst == path[i + 1]) || (edges[k].src == path[i + 1] && edges[k].dst
                == path[i])) by {
            steps_are_edges(edges, path, i);
        }
    }
}

/// The strength of a path with a step is how often its least found step was found: no
/// step was found less often, and one was found just as often. A path without a step
/// has none.
pub proof fn strength_is_that_of_the_weakest_step(edges: Seq<EdgeView>, way: Seq<Seq<char>>)
    ensures
        way.len() <= 1 ==> strength_of(edges, way) == 0,
        way.len() >= 2 ==> {
            &&& forall|i: int|
                0 <= i < way.len() - 1 ==> strength_of(edges, way) <= backing(
                    edges,
                    #[trigger] way[i],
                    way[i + 1],
                )
            &&& exists|i: int|
                0 <= i < way.len() - 1 && strength_of(edges, way) == backing(
                    edges,
                    #[trigger] way[i],
                    way[i + 1],
                )
        },
    decreases way.len(),
{
    if way.len() >= 2 {
        assert forall|i: int| 0 <= i < way.len() - 1 implies weakest(edges, way) <= backing(
            edges,
            #[trigger] way[i],
            way[i + 1],
        ) by {
            no_link_is_weaker(edges, way, i);
        }
        let rest = way.drop_last();
        let last = way.len() - 2;
        assert(way[last + 1] == way.last());
        let end = backing(edges, way[last], way[last + 1]);
        if rest.len() < 2 {
            assert(weakest(edges, rest) == i64::MAX);
            assert(weakest(edges, way) == end);
        }
        if weakest(edges, way) == end {
            assert(strength_of(edges, way) == backing(edges, way[last], way[last + 1]));
        } else {
            assert(weakest(edges, way) == weakest(edges, rest));
            if rest.len() >= 2 {
                strength_is_that_of_the_weakest_step(edges, rest);
                let i = choose|i: int|
                    0 <= i < rest.len() - 1 && strength_of(edges, rest) == backing(
                        edges,
                        #[trigger] rest[i],
                        rest[i + 1],
                    );
                assert(way[i] == rest[i] && way[i + 1] == rest[i + 1]);
            }
        }
    }
}

/// A step was found as often as the first edge between its ends tells, in either
/// direction: an integer counts as it stands, `false` as never, and anything else as
/// once.
pub proof fn steps_were_found_as_often_as_told(
    edges: Seq<EdgeView>,
    a: Seq<char>,
    b: Seq<char>,
    i: int,
)
    requires
        0 <= i < edges.len(),
        (edges[i].src == a && edges[i].dst == b) || (edges[i].src == b && edges[i].dst == a),
        forall|k: int|
            0 <= k < i ==> !((#[trigger] edges[k]).src == a && edges[k].dst == b) && !(edges[k].src
                == b && edges[k].dst == a),
    ensures
        backing(edges, a, b) == match edges[i].props.at("count"@) {
            JsonTree::Number(n) => match n.signed {
                Some(x) => x,
                None => 1,
            },
            JsonTree::Bool(t) => if t {
                1
            } else {
                0
            },
            _ => 1i64,
        },
    decreases edges.len(),
{
    if i > 0 {
        assert(!joins(edges[0], a, b));
        let rest = edges.drop_first();
        assert(rest[i - 1] == edges[i]);
        assert forall|k: int| 0 <= k < i - 1 implies !((#[trigger] rest[k]).src == a && rest[k].dst
            == b) && !(rest[k].src == b && rest[k].dst == a) by {
            assert(rest[k] == edges[k + 1]);
        }
        steps_were_found_as_often_as_told(rest, a, b, i - 1);
    }
}

/// The link between two nodes was found as often as the first edge tells that joins
/// them; where none does, it counts as found once.
pub proof fn the_first_edge_tells_how_often(
    edges: Seq<EdgeView>,
    e: EdgeView,
    a: Seq<char>,
    b: Seq<char>,
)
    ensures
        (e.src == a && e.dst == b) || (e.src == b && e.dst == a) ==> backing(seq![e] + edges, a, b)
            == edge_backing(e),
        !((e.src == a && e.dst == b) || (e.src == b && e.dst == a)) ==> backing(
            seq![e] + edges,
            a,
            b,
        ) == backing(edges, a, b),
        edges.len() == 0 ==> backing(edges, a, b) == 1,
{
    assert((seq![e] + edges).drop_first() =~= edges);
}

} // verus!
