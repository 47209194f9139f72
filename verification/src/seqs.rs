//! Sequences: what is kept of them, and in what order it is put.

use vstd::prelude::*;

verus! {

// Keeping some -----------------------------------------------------------

/// The members for which `p` holds, in their order.
pub open spec fn kept<T>(s: Seq<T>, p: spec_fn(T) -> bool) -> Seq<T>
    decreases s.len(),
{
    if s.len() == 0 {
        Seq::empty()
    } else {
        let before = kept(s.drop_last(), p);
        if p(s.last()) {
            before.push(s.last())
        } else {
            before
        }
    }
}

pub proof fn lemma_kept_step<T>(s: Seq<T>, p: spec_fn(T) -> bool, i: int)
    requires
        0 <= i < s.len(),
    ensures
        kept(s.take(i + 1), p) == if p(s[i]) {
            kept(s.take(i), p).push(s[i])
        } else {
            kept(s.take(i), p)
        },
{
    assert(s.take(i + 1).drop_last() =~= s.take(i));
}

/// What is kept is exactly what is there and wanted.
pub proof fn lemma_kept_members<T>(s: Seq<T>, p: spec_fn(T) -> bool)
    ensures
        forall|x: T| #[trigger] kept(s, p).contains(x) <==> s.contains(x) && p(x),
        kept(s, p).len() <= s.len(),
    decreases s.len(),
{
    if s.len() > 0 {
        let rest = s.drop_last();
        lemma_kept_members(rest, p);
        assert forall|x: T| #[trigger] kept(s, p).contains(x) <==> s.contains(x) && p(x) by {
            let before = kept(rest, p);
            if s.contains(x) && p(x) {
                let i = choose|i: int| 0 <= i < s.len() && s[i] == x;
                if i < rest.len() {
                    assert(rest[i] == x);
                    assert(rest.contains(x));
                    assert(before.contains(x));
                    let k = choose|k: int| 0 <= k < before.len() && before[k] == x;
                    assert(kept(s, p)[k] == x);
                } else {
                    assert(kept(s, p)[before.len() as int] == x);
                }
            }
            if kept(s, p).contains(x) {
                let k = choose|k: int| 0 <= k < kept(s, p).len() && kept(s, p)[k] == x;
                if k < before.len() {
                    assert(before[k] == x);
                    assert(before.contains(x));
                    assert(rest.contains(x));
                    let i = choose|i: int| 0 <= i < rest.len() && rest[i] == x;
                    assert(s[i] == x);
                } else {
                    assert(s.last() == x);
                    assert(s[s.len() - 1] == x);
                }
            }
        }
    } else {
        assert forall|x: T| #[trigger] kept(s, p).contains(x) <==> s.contains(x) && p(x) by {}
    }
}

/// What is kept is what filtering leaves.
pub proof fn keeping_is_filtering<T>(s: Seq<T>, p: spec_fn(T) -> bool)
    ensures
        kept(s, p) == s.filter(p),
    decreases s.len(),
{
    reveal(Seq::filter);
    if s.len() > 0 {
        keeping_is_filtering(s.drop_last(), p);
    } else {
        assert(kept(s, p) =~= s.filter(p));
    }
}

/// Where everything is wanted, everything is kept.
pub proof fn lemma_kept_all<T>(s: Seq<T>, p: spec_fn(T) -> bool)
    requires
        forall|i: int| 0 <= i < s.len() ==> p(#[trigger] s[i]),
    ensures
        kept(s, p) == s,
    decreases s.len(),
{
    if s.len() > 0 {
        assert forall|i: int| 0 <= i < s.drop_last().len() implies p(
            #[trigger] s.drop_last()[i],
        ) by {
            assert(s.drop_last()[i] == s[i]);
        }
        lemma_kept_all(s.drop_last(), p);
        assert(s.drop_last().push(s.last()) =~= s);
        assert(p(s[s.len() - 1]));
    } else {
        assert(kept(s, p) =~= s);
    }
}

/// Where two wishes agree on every member, the same is kept.
pub proof fn lemma_kept_same<T>(s: Seq<T>, p: spec_fn(T) -> bool, q: spec_fn(T) -> bool)
    requires
        forall|i: int| 0 <= i < s.len() ==> p(#[trigger] s[i]) == q(s[i]),
    ensures
        kept(s, p) == kept(s, q),
    decreases s.len(),
{
    if s.len() > 0 {
        assert forall|i: int| 0 <= i < s.drop_last().len() implies p(
            #[trigger] s.drop_last()[i],
        ) == q(s.drop_last()[i]) by {
            assert(s.drop_last()[i] == s[i]);
        }
        lemma_kept_same(s.drop_last(), p, q);
        assert(p(s[s.len() - 1]) == q(s[s.len() - 1]));
    }
}

/// Whether no two members have the same key.
pub open spec fn distinct_by<T, K>(s: Seq<T>, key: spec_fn(T) -> K) -> bool {
    forall|i: int, j: int| 0 <= i < j < s.len() ==> key(#[trigger] s[i]) != key(#[trigger] s[j])
}

/// What is kept of members with distinct keys has distinct keys.
pub proof fn lemma_kept_distinct<T, K>(s: Seq<T>, p: spec_fn(T) -> bool, key: spec_fn(T) -> K)
    requires
        distinct_by(s, key),
    ensures
        distinct_by(kept(s, p), key),
    decreases s.len(),
{
    if s.len() > 0 {
        let rest = s.drop_last();
        assert(distinct_by(rest, key)) by {
            assert forall|i: int, j: int| 0 <= i < j < rest.len() implies key(#[trigger] rest[i])
                != key(#[trigger] rest[j]) by {
                assert(rest[i] == s[i] && rest[j] == s[j]);
            }
        }
        lemma_kept_distinct(rest, p, key);
        lemma_kept_members(rest, p);
        let before = kept(rest, p);
        assert forall|i: int, j: int| 0 <= i < j < kept(s, p).len() implies key(
            #[trigger] kept(s, p)[i],
        ) != key(#[trigger] kept(s, p)[j]) by {
            if j < before.len() {
                assert(kept(s, p)[i] == before[i] && kept(s, p)[j] == before[j]);
            } else {
                assert(before.contains(before[i]));
                let k = choose|k: int| 0 <= k < rest.len() && rest[k] == before[i];
                assert(s[k] == before[i]);
                assert(s[s.len() - 1] == kept(s, p)[j]);
            }
        }
    }
}

/// Keeping a part of what was kept is keeping what both want.
pub proof fn lemma_kept_twice<T>(s: Seq<T>, p: spec_fn(T) -> bool, q: spec_fn(T) -> bool)
    ensures
        kept(kept(s, p), q) == kept(s, |x: T| p(x) && q(x)),
    decreases s.len(),
{
    if s.len() > 0 {
        lemma_kept_twice(s.drop_last(), p, q);
        let before = kept(s.drop_last(), p);
        if p(s.last()) {
            assert(before.push(s.last()).drop_last() =~= before);
        }
    }
}

// Order ------------------------------------------------------------------

/// Values that can be put in an order: a strict one, in which values that
/// neither precedes the other may differ.
pub trait Ranked: Sized {
    spec fn ranks_before(self, other: Self) -> bool;

    proof fn ranking(a: Self, b: Self, c: Self)
        ensures
            !a.ranks_before(a),
            a.ranks_before(b) && b.ranks_before(c) ==> a.ranks_before(c),
            !a.ranks_before(b) && !b.ranks_before(c) ==> !a.ranks_before(c),
    ;

    fn precedes(&self, other: &Self) -> (r: bool)
        ensures
            r == self.ranks_before(*other),
    ;
}

/// Whether no member ranks before an earlier one.
pub open spec fn ordered<T: Ranked>(s: Seq<T>) -> bool {
    forall|i: int, j: int| 0 <= i < j < s.len() ==> !(#[trigger] s[j]).ranks_before(#[trigger] s[i])
}

/// The ordered sequence with `x` put behind all that it does not precede.
pub open spec fn placed<T: Ranked>(s: Seq<T>, x: T) -> Seq<T>
    decreases s.len(),
{
    if s.len() == 0 {
        seq![x]
    } else if x.ranks_before(s.last()) {
        placed(s.drop_last(), x).push(s.last())
    } else {
        s.push(x)
    }
}

/// The members in order; those that neither precedes the other stay as they
/// came.
pub open spec fn arranged<T: Ranked>(s: Seq<T>) -> Seq<T>
    decreases s.len(),
{
    if s.len() == 0 {
        Seq::empty()
    } else {
        placed(arranged(s.drop_last()), s.last())
    }
}

proof fn lemma_placed<T: Ranked>(s: Seq<T>, x: T, j: int)
    requires
        0 <= j <= s.len(),
        forall|i: int| j <= i < s.len() ==> x.ranks_before(#[trigger] s[i]),
        j > 0 ==> !x.ranks_before(s[j - 1]),
    ensures
        placed(s, x) == s.insert(j, x),
    decreases s.len(),
{
    if s.len() == 0 {
        assert(s.insert(j, x) =~= seq![x]);
    } else if j == s.len() {
        assert(s.insert(j, x) =~= s.push(x));
    } else {
        assert(x.ranks_before(s[s.len() - 1]));
        assert forall|i: int| j <= i < s.drop_last().len() implies x.ranks_before(
            #[trigger] s.drop_last()[i],
        ) by {
            assert(s.drop_last()[i] == s[i]);
        }
        lemma_placed(s.drop_last(), x, j);
        assert(s.drop_last().insert(j, x).push(s.last()) =~= s.insert(j, x));
    }
}

proof fn lemma_placed_ordered<T: Ranked>(s: Seq<T>, x: T)
    requires
        ordered(s),
    ensures
        ordered(placed(s, x)),
        placed(s, x).to_multiset() == s.to_multiset().insert(x),
        placed(s, x).len() == s.len() + 1,
        forall|y: T| #[trigger] placed(s, x).contains(y) <==> s.contains(y) || y == x,
    decreases s.len(),
{
    broadcast use vstd::seq_lib::group_to_multiset_ensures;

    if s.len() == 0 {
        assert(placed(s, x) =~= s.push(x));
        assert(placed(s, x)[0] == x);
    } else if x.ranks_before(s.last()) {
        let rest = s.drop_last();
        let r = placed(rest, x);
        assert(ordered(rest)) by {
            assert forall|i: int, j: int| 0 <= i < j < rest.len() implies !(
            #[trigger] rest[j]).ranks_before(#[trigger] rest[i]) by {
                assert(rest[i] == s[i] && rest[j] == s[j]);
            }
        }
        lemma_placed_ordered(rest, x);
        assert(rest.push(s.last()) =~= s);
        assert(s.to_multiset() =~= rest.to_multiset().insert(s.last()));
        assert(placed(s, x).to_multiset() =~= s.to_multiset().insert(x));
        assert forall|i: int, j: int| 0 <= i < j < placed(s, x).len() implies !(
        #[trigger] placed(s, x)[j]).ranks_before(#[trigger] placed(s, x)[i]) by {
            if j < r.len() {
                assert(placed(s, x)[j] == r[j] && placed(s, x)[i] == r[i]);
            } else {
                let y = placed(s, x)[i];
                assert(y == r[i]);
                assert(r.contains(y));
                T::ranking(s.last(), x, s.last());
                if rest.contains(y) {
                    let k = choose|k: int| 0 <= k < rest.len() && rest[k] == y;
                    assert(s[k] == y);
                    assert(!s[s.len() - 1].ranks_before(s[k]));
                }
            }
        }
        assert forall|y: T| #[trigger] placed(s, x).contains(y) <==> s.contains(y) || y == x by {
            if placed(s, x).contains(y) {
                let k = choose|k: int| 0 <= k < placed(s, x).len() && placed(s, x)[k] == y;
                if k < r.len() {
                    assert(r[k] == y);
                    assert(r.contains(y));
                    if rest.contains(y) {
                        let m = choose|m: int| 0 <= m < rest.len() && rest[m] == y;
                        assert(s[m] == y);
                    }
                } else {
                    assert(s[s.len() - 1] == y);
                }
            }
            if s.contains(y) || y == x {
                if s.contains(y) {
                    let m = choose|m: int| 0 <= m < s.len() && s[m] == y;
                    if m < rest.len() {
                        assert(rest[m] == y);
                        assert(rest.contains(y));
                    } else {
                        assert(placed(s, x)[r.len() as int] == y);
                    }
                }
                if rest.contains(y) || y == x {
                    assert(r.contains(y));
                    let k = choose|k: int| 0 <= k < r.len() && r[k] == y;
                    assert(placed(s, x)[k] == y);
                }
            }
        }
    } else {
        let r = s.push(x);
        assert forall|i: int, j: int| 0 <= i < j < r.len() implies !(
        #[trigger] r[j]).ranks_before(#[trigger] r[i]) by {
            if j < s.len() {
                assert(r[i] == s[i] && r[j] == s[j]);
            } else if i < s.len() - 1 {
                assert(!s[s.len() - 1].ranks_before(s[i]));
                T::ranking(x, s.last(), s[i]);
            }
        }
        assert forall|y: T| #[trigger] r.contains(y) <==> s.contains(y) || y == x by {
            if r.contains(y) && y != x {
                let k = choose|k: int| 0 <= k < r.len() && r[k] == y;
                assert(s[k] == y);
            }
            if s.contains(y) {
                let k = choose|k: int| 0 <= k < s.len() && s[k] == y;
                assert(r[k] == y);
            }
            if y == x {
                assert(r[s.len() as int] == y);
            }
        }
    }
}

/// Arranging puts the members in order and keeps every one of them.
pub proof fn arranging_orders<T: Ranked>(s: Seq<T>)
    ensures
        ordered(arranged(s)),
        arranged(s).to_multiset() == s.to_multiset(),
        arranged(s).len() == s.len(),
        forall|y: T| #[trigger] arranged(s).contains(y) <==> s.contains(y),
    decreases s.len(),
{
    broadcast use vstd::seq_lib::group_to_multiset_ensures;

    if s.len() == 0 {
        assert(arranged(s) =~= s);
    } else {
        let rest = s.drop_last();
        arranging_orders(rest);
        lemma_placed_ordered(arranged(rest), s.last());
        assert(rest.push(s.last()) =~= s);
        assert forall|y: T| #[trigger] arranged(s).contains(y) <==> s.contains(y) by {
            if s.contains(y) {
                let k = choose|k: int| 0 <= k < s.len() && s[k] == y;
                if k < rest.len() {
                    assert(rest[k] == y);
                    assert(rest.contains(y));
                    assert(arranged(rest).contains(y));
                }
            }
            if arranged(s).contains(y) {
                if y != s.last() {
                    assert(arranged(rest).contains(y));
                    assert(rest.contains(y));
                    let k = choose|k: int| 0 <= k < rest.len() && rest[k] == y;
                    assert(s[k] == y);
                } else {
                    assert(s[s.len() - 1] == y);
                }
            }
        }
    }
}

proof fn lemma_placed_ties<T: Ranked>(s: Seq<T>, x: T, t: T)
    ensures
        ({
            let tied = |y: T| !y.ranks_before(t) && !t.ranks_before(y);
            placed(s, x).filter(tied) == if tied(x) {
                s.filter(tied).push(x)
            } else {
                s.filter(tied)
            }
        }),
    decreases s.len(),
{
    let tied = |y: T| !y.ranks_before(t) && !t.ranks_before(y);
    reveal(Seq::filter);
    if s.len() == 0 {
        assert(seq![x].drop_last() =~= Seq::<T>::empty());
        assert(s.filter(tied) =~= Seq::<T>::empty());
        assert(seq![x].filter(tied) =~= if tied(x) {
            s.filter(tied).push(x)
        } else {
            s.filter(tied)
        });
    } else if x.ranks_before(s.last()) {
        let rest = s.drop_last();
        lemma_placed_ties(rest, x, t);
        let p = placed(rest, x);
        assert(p.push(s.last()).drop_last() =~= p);
        T::ranking(x, t, s.last());
        if tied(x) {
            assert(!tied(s.last()));
        }
    } else {
        assert(s.push(x).drop_last() =~= s);
    }
}

/// Members that rank alike stay in the order in which they came.
pub proof fn ties_stay_as_they_came<T: Ranked>(s: Seq<T>, t: T)
    ensures
        arranged(s).filter(|y: T| !y.ranks_before(t) && !t.ranks_before(y)) == s.filter(
            |y: T| !y.ranks_before(t) && !t.ranks_before(y),
        ),
    decreases s.len(),
{
    reveal(Seq::filter);
    if s.len() > 0 {
        ties_stay_as_they_came(s.drop_last(), t);
        lemma_placed_ties(arranged(s.drop_last()), s.last(), t);
    } else {
        assert(arranged(s) =~= s);
    }
}

/// The first `n` of the members in order are those that rank first: whatever is left
/// out ranks before none of them, and nothing is left out while there is room.
pub proof fn the_first_rank_first<T: Ranked>(s: Seq<T>, n: int, top: Seq<T>)
    requires
        n >= 0,
        s.len() <= n ==> top == arranged(s),
        s.len() > n ==> top == arranged(s).take(n),
    ensures
        forall|i: int| 0 <= i < top.len() ==> s.contains(#[trigger] top[i]),
        forall|x: T| #[trigger]
            s.contains(x) ==> top.contains(x) || (top.len() == n && forall|i: int|
                0 <= i < top.len() ==> !x.ranks_before(#[trigger] top[i])),
        forall|i: int, j: int|
            0 <= i < j < top.len() ==> !(#[trigger] top[j]).ranks_before(#[trigger] top[i]),
{
    arranging_orders(s);
    let all = arranged(s);
    assert forall|i: int| 0 <= i < top.len() implies s.contains(#[trigger] top[i]) by {
        assert(all.contains(all[i]));
    }
    assert forall|x: T| #[trigger] s.contains(x) implies top.contains(x) || (top.len() == n
        && forall|i: int| 0 <= i < top.len() ==> !x.ranks_before(#[trigger] top[i])) by {
        assert(all.contains(x));
        let k = choose|k: int| 0 <= k < all.len() && all[k] == x;
        if k < top.len() {
            assert(top[k] == x);
        } else {
            assert forall|i: int| 0 <= i < top.len() implies !x.ranks_before(#[trigger] top[i]) by {
                assert(!all[k].ranks_before(all[i]));
            }
        }
    }
}

/// The members of `v` in order.
pub fn arrange<T: Ranked>(v: Vec<T>) -> (r: Vec<T>)
    ensures
        r@ == arranged(v@),
{
    let ghost whole = v@;
    let mut out: Vec<T> = Vec::new();
    assert(whole.take(0) =~= Seq::<T>::empty());
    for x in it: v
        invariant
            whole == it.seq(),
            out@ == arranged(whole.take(it.index() as int)),
    {
        let ghost k = it.index() as int;
        let mut j: usize = out.len();
        while j > 0 && x.precedes(&out[j - 1])
            invariant
                0 <= j <= out@.len(),
                forall|i: int| j <= i < out@.len() ==> x.ranks_before(#[trigger] out@[i]),
            decreases j,
        {
            j = j - 1;
        }
        proof {
            lemma_placed(out@, x, j as int);
            assert(whole.take(k + 1).drop_last() =~= whole.take(k));
            assert(whole.take(k + 1).last() == x);
        }
        out.insert(j, x);
    }
    assert(whole.take(whole.len() as int) =~= whole);
    out
}

} // verus!
