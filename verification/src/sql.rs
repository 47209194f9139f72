//! What the database makes of the values of a JSON document: an integer where one
//! is asked for, and the order in which values are sorted.

use crate::double::{integer_units, places_follow_values, within, Double, DOUBLINGS_TO_ONE};
use crate::json::{Json, JsonTree};
use crate::text::{chars, lex_lt, text_lt};
use vstd::arithmetic::power2::{lemma_pow2_pos, pow2};
use vstd::prelude::*;

verus! {

// Integers ---------------------------------------------------------------

/// Whether the character may stand before a number.
pub open spec fn is_blank(c: char) -> bool {
    c == ' ' || c == '\t' || c == '\n' || c == '\u{b}' || c == '\u{c}' || c == '\r'
}

/// The text without the blanks that it begins with.
pub open spec fn unblanked(s: Seq<char>) -> Seq<char>
    decreases s.len(),
{
    if s.len() > 0 && is_blank(s[0]) {
        unblanked(s.drop_first())
    } else {
        s
    }
}

/// Whether the character is a decimal digit.
pub open spec fn is_digit(c: char) -> bool {
    '0' <= c && c <= '9'
}

/// The number that the digits at the beginning of the text give, written behind
/// those of `before`.
pub open spec fn number_at(before: nat, s: Seq<char>) -> nat
    decreases s.len(),
{
    if s.len() > 0 && is_digit(s[0]) {
        number_at((10 * before + (s[0] as int - '0' as int)) as nat, s.drop_first())
    } else {
        before
    }
}

/// The integer that the text begins with, behind blanks and with its sign; zero
/// where there is none, and the nearest that 64 bits hold where it is too large.
pub open spec fn leading_integer(s: Seq<char>) -> i64 {
    let t = unblanked(s);
    if t.len() > 0 && t[0] == '-' {
        within(-number_at(0, t.drop_first()))
    } else if t.len() > 0 && t[0] == '+' {
        within(number_at(0, t.drop_first()) as int)
    } else {
        within(number_at(0, t) as int)
    }
}

proof fn lemma_number_grows(before: nat, s: Seq<char>)
    ensures
        number_at(before, s) >= before,
    decreases s.len(),
{
    if s.len() > 0 && is_digit(s[0]) {
        lemma_number_grows((10 * before + (s[0] as int - '0' as int)) as nat, s.drop_first());
    }
}

/// The number that the digits from the position on give, as far as it can be told.
fn read_number(v: &Vec<char>, from: usize) -> (r: u64)
    requires
        from <= v@.len(),
    ensures
        ({
            let n = number_at(0, v@.skip(from as int));
            &&& n <= u64::MAX ==> r == n
            &&& n > u64::MAX ==> r == u64::MAX
        }),
{
    let ghost n = number_at(0, v@.skip(from as int));
    let mut i: usize = from;
    let mut told: u64 = 0;
    while i < v.len() && v[i] >= '0' && v[i] <= '9'
        invariant
            from <= i <= v@.len(),
            n == number_at(told as nat, v@.skip(i as int)),
            n == number_at(0, v@.skip(from as int)),
        decreases v@.len() - i,
    {
        let d: u64 = (v[i] as u32 - '0' as u32) as u64;
        let more: u128 = told as u128 * 10 + d as u128;
        proof {
            let rest = v@.skip(i as int);
            assert(rest[0] == v@[i as int]);
            assert(rest.drop_first() =~= v@.skip(i + 1));
            assert(is_digit(rest[0]));
            assert(more == 10 * told + (rest[0] as int - '0' as int));
            assert(n == number_at(more as nat, v@.skip(i + 1)));
            lemma_number_grows(more as nat, v@.skip(i + 1));
        }
        if more > u64::MAX as u128 {
            return u64::MAX;
        }
        told = more as u64;
        i = i + 1;
    }
    told
}

/// The integer that the text begins with.
pub fn read_leading_integer(s: &str) -> (r: i64)
    ensures
        r == leading_integer(s@),
{
    let v = chars(s);
    let mut i: usize = 0;
    assert(v@.skip(0) =~= v@);
    while i < v.len() && (v[i] == ' ' || v[i] == '\t' || v[i] == '\n' || v[i] == '\u{b}' || v[i]
        == '\u{c}' || v[i] == '\r')
        invariant
            i <= v@.len(),
            unblanked(v@) == unblanked(v@.skip(i as int)),
        decreases v@.len() - i,
    {
        assert(v@.skip(i as int)[0] == v@[i as int]);
        assert(v@.skip(i as int).drop_first() =~= v@.skip(i + 1));
        i = i + 1;
    }
    let ghost t = v@.skip(i as int);
    assert(unblanked(v@) == t);
    assert(i < v@.len() ==> t[0] == v@[i as int]);
    assert(i < v@.len() ==> t.drop_first() =~= v@.skip(i + 1));
    let most: u64 = i64::MAX as u64;
    if i < v.len() && v[i] == '-' {
        let n = read_number(&v, i + 1);
        if n > most {
            i64::MIN
        } else {
            -(n as i64)
        }
    } else {
        let n = if i < v.len() && v[i] == '+' {
            read_number(&v, i + 1)
        } else {
            read_number(&v, i)
        };
        if n > most {
            i64::MAX
        } else {
            n as i64
        }
    }
}

/// The value as an integer. The digits behind the point are dropped, a text is
/// read as far as it is an integer, and what is absent is `absent`.
pub open spec fn integer_or(v: JsonTree, absent: i64) -> i64 {
    match v {
        JsonTree::Null => absent,
        JsonTree::Bool(b) => if b {
            1
        } else {
            0
        },
        JsonTree::Number(n) => match n.signed {
            Some(i) => i,
            None => within(n.double.whole()),
        },
        JsonTree::Str(s) => leading_integer(s),
        JsonTree::Array(_) => 0,
        JsonTree::Object(_) => 0,
    }
}

/// The value under the key as an integer.
pub fn integer_at(props: &Json, key: &str, absent: i64) -> (r: i64)
    ensures
        r == integer_or(props@.at(key@), absent),
{
    match props.get(key) {
        None => absent,
        Some(v) => match v {
            Json::Null => absent,
            Json::Bool(b) => if *b {
                1
            } else {
                0
            },
            Json::Number(n) => match n.signed {
                Some(i) => i,
                None => n.double.truncated(),
            },
            Json::Str(s) => read_leading_integer(s.as_str()),
            Json::Array(_) => 0,
            Json::Object(_) => 0,
        },
    }
}

// Order ------------------------------------------------------------------

/// A value that others are sorted by.
#[derive(Debug)]
pub enum SortKey {
    Whole(i64),
    Real(Double),
    Text(String),
}

/// What values are sorted by: how many times the smallest double above zero a
/// number is, or the characters of a text.
pub ghost enum SortView {
    Number(int),
    Text(Seq<char>),
}

impl View for SortKey {
    type V = SortView;

    open spec fn view(&self) -> SortView {
        match self {
            SortKey::Whole(n) => SortView::Number(integer_units(*n as int)),
            SortKey::Real(d) => SortView::Number(d.units()),
            SortKey::Text(s) => SortView::Text(s@),
        }
    }
}

impl SortView {
    /// Whether the value is larger than the other. Every text is larger than every
    /// number.
    pub open spec fn above(self, other: SortView) -> bool {
        match self {
            SortView::Number(a) => match other {
                SortView::Number(b) => a > b,
                SortView::Text(_) => false,
            },
            SortView::Text(a) => match other {
                SortView::Number(_) => true,
                SortView::Text(b) => lex_lt(b, a),
            },
        }
    }
}

/// What a value is sorted by. What is absent counts as zero, and of a list or an
/// object only the bracket counts that opens it.
pub open spec fn sort_value(v: JsonTree) -> SortView {
    match v {
        JsonTree::Null => SortView::Number(0),
        JsonTree::Bool(b) => SortView::Number(
            if b {
                integer_units(1)
            } else {
                0
            },
        ),
        JsonTree::Number(n) => match n.signed {
            Some(i) => SortView::Number(integer_units(i as int)),
            None => SortView::Number(n.double.units()),
        },
        JsonTree::Str(s) => SortView::Text(s),
        JsonTree::Array(_) => SortView::Text("["@),
        JsonTree::Object(_) => SortView::Text("{"@),
    }
}

/// What the value under the key is sorted by.
pub fn sort_key_at(props: &Json, key: &str) -> (r: SortKey)
    ensures
        r@ == sort_value(props@.at(key@)),
{
    assert(integer_units(0) == 0) by (nonlinear_arith);
    match props.get(key) {
        None => SortKey::Whole(0),
        Some(v) => match v {
            Json::Null => SortKey::Whole(0),
            Json::Bool(b) => SortKey::Whole(
                if *b {
                    1
                } else {
                    0
                },
            ),
            Json::Number(n) => match n.signed {
                Some(i) => SortKey::Whole(i),
                None => SortKey::Real(n.double),
            },
            Json::Str(s) => SortKey::Text(s.clone()),
            Json::Array(_) => SortKey::Text("[".to_owned()),
            Json::Object(_) => SortKey::Text("{".to_owned()),
        },
    }
}

impl SortKey {
    /// Whether the value is larger than the other.
    pub fn exceeds(&self, other: &SortKey) -> (r: bool)
        ensures
            r == self@.above(other@),
    {
        match self {
            SortKey::Whole(a) => match other {
                SortKey::Whole(b) => {
                    proof {
                        lemma_units_ordered(*a as int, *b as int);
                    }
                    *a > *b
                },
                SortKey::Real(b) => b.falls_short_of(*a),
                SortKey::Text(_) => false,
            },
            SortKey::Real(a) => match other {
                SortKey::Whole(b) => a.exceeds(*b),
                SortKey::Real(b) => {
                    proof {
                        places_follow_values(*b, *a);
                    }
                    b.smaller(*a)
                },
                SortKey::Text(_) => false,
            },
            SortKey::Text(a) => match other {
                SortKey::Text(b) => text_lt(b.as_str(), a.as_str()),
                _ => true,
            },
        }
    }
}

proof fn lemma_units_ordered(a: int, b: int)
    ensures
        a > b <==> integer_units(a) > integer_units(b),
{
    let one = pow2(DOUBLINGS_TO_ONE as nat);
    lemma_pow2_pos(DOUBLINGS_TO_ONE as nat);
    assert((a > b) == (a * one > b * one)) by (nonlinear_arith)
        requires
            one > 0,
    ;
}

/// Values are sorted in one line: of two that differ exactly one is larger, and
/// what is larger than something is larger than what that is larger than.
pub proof fn values_are_in_one_line(a: SortView, b: SortView, c: SortView)
    ensures
        !a.above(a),
        a == b || a.above(b) || b.above(a),
        !(a.above(b) && b.above(a)),
        a.above(b) && b.above(c) ==> a.above(c),
{
    if let SortView::Text(x) = a {
        crate::text::lemma_lex_irreflexive(x);
        if let SortView::Text(y) = b {
            crate::text::lemma_lex_total(x, y);
            if lex_lt(x, y) && lex_lt(y, x) {
                crate::text::lemma_lex_transitive(x, y, x);
            }
            if let SortView::Text(z) = c {
                if lex_lt(z, y) && lex_lt(y, x) {
                    crate::text::lemma_lex_transitive(z, y, x);
                }
            }
        }
    }
}

/// Numbers are sorted by their size, whether they are written with a point or not;
/// texts by their characters, above every number; what is absent is zero.
pub proof fn values_are_sorted_by_size(a: int, b: int, d: Double, s: Seq<char>, t: Seq<char>)
    ensures
        SortView::Number(integer_units(a)).above(SortView::Number(integer_units(b))) <==> a > b,
        SortView::Number(d.units()).above(SortView::Number(integer_units(b))) <==> d.units() > b
            * pow2(1074),
        SortView::Number(integer_units(b)).above(SortView::Number(d.units())) <==> d.units() < b
            * pow2(1074),
        SortView::Text(s).above(SortView::Number(a)),
        !SortView::Number(a).above(SortView::Text(s)),
        SortView::Text(s).above(SortView::Text(t)) <==> lex_lt(t, s),
        sort_value(JsonTree::Null) == SortView::Number(integer_units(0)),
        sort_value(JsonTree::Bool(true)) == SortView::Number(integer_units(1)),
        sort_value(JsonTree::Bool(false)) == SortView::Number(integer_units(0)),
        sort_value(JsonTree::Str(s)) == SortView::Text(s),
{
    lemma_units_ordered(a, b);
    assert(0 * pow2(1074) == 0) by (nonlinear_arith);
}

/// A number with a sign and only digits, and whatever stands behind them, is read as
/// the number: with one more digit it is ten times as much and the digit.
pub proof fn leading_digits_are_read(before: nat, s: Seq<char>, c: char)
    requires
        forall|i: int| 0 <= i < s.len() ==> '0' <= #[trigger] s[i] && s[i] <= '9',
    ensures
        '0' <= c && c <= '9' ==> number_at(before, s.push(c)) == 10 * number_at(before, s) + (
        c as int - '0' as int),
        !('0' <= c && c <= '9') ==> number_at(before, s.push(c)) == number_at(before, s),
        s.len() > 0 ==> leading_integer(s) == within(number_at(0, s) as int),
        s.len() > 0 ==> leading_integer(seq!['-'] + s) == within(-number_at(0, s)),
        s.len() > 0 ==> leading_integer(seq!['+'] + s) == within(number_at(0, s) as int),
        leading_integer(seq![' '] + s) == leading_integer(s),
    decreases s.len(),
{
    if s.len() > 0 {
        let rest = s.drop_first();
        assert forall|i: int| 0 <= i < rest.len() implies '0' <= #[trigger] rest[i] && rest[i]
            <= '9' by {
            assert(rest[i] == s[i + 1]);
        }
        let next = (10 * before + (s[0] as int - '0' as int)) as nat;
        leading_digits_are_read(next, rest, c);
        assert(s.push(c).drop_first() =~= rest.push(c));
        assert(is_digit(s[0]));
        assert(!is_blank(s[0]));
        assert((seq!['-'] + s).drop_first() =~= s);
        assert((seq!['+'] + s).drop_first() =~= s);
    } else {
        assert(s.push(c).drop_first() =~= s);
        assert(number_at((10 * before + (c as int - '0' as int)) as nat, s) == (10 * before + (
        c as int - '0' as int)) as nat || !is_digit(c));
    }
    assert((seq![' '] + s).drop_first() =~= s);
    assert((seq![' '] + s)[0] == ' ');
}

/// Blanks before a number do not count: the tabulator, the four that end or feed a
/// line, and the space.
pub proof fn blanks_before_a_number_do_not_count(c: char, s: Seq<char>)
    ensures
        is_blank(c) <==> (9 <= c as u32 && c as u32 <= 13) || c as u32 == 32,
        (9 <= c as u32 && c as u32 <= 13) || c as u32 == 32 ==> leading_integer(seq![c] + s)
            == leading_integer(s),
{
    assert((seq![c] + s).drop_first() =~= s);
    assert((seq![c] + s)[0] == c);
}

/// Every value is read as an integer: one that is absent as it is given, a truth as one,
/// a number without what stands behind its point, and a list or an object as nought.
pub proof fn values_are_read_as_integers(v: JsonTree, absent: i64)
    ensures
        v is Null ==> integer_or(v, absent) == absent,
        v matches JsonTree::Bool(b) ==> (b <==> integer_or(v, absent) == 1) && (!b
            <==> integer_or(v, absent) == 0),
        v matches JsonTree::Number(n) ==> (n.signed matches Some(i) ==> integer_or(v, absent) == i),
        v matches JsonTree::Number(n) ==> (n.signed is None && i64::MIN <= n.double.whole()
            <= i64::MAX ==> integer_or(v, absent) == n.double.whole()),
        v matches JsonTree::Str(s) ==> integer_or(v, absent) == leading_integer(s),
        v is Array || v is Object ==> integer_or(v, absent) == 0,
{
}

} // verus!
