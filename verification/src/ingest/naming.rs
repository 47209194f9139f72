//! Names in the graph: of nodes, of tiers and of edges.

use crate::double::Double;
use crate::text::{
    chars, is_letter_or_digit, is_white_space, lemma_trimmed_end_of, letter_or_digit, lower,
    lowered, same, string_of, trim, trimmed, trimmed_end_of, trimming_is_final,
};
use vstd::prelude::*;
use vstd::utf8::is_ascii_chars;

verus! {

// Confidence -------------------------------------------------------------

/// 0.60: what is less certain is parked.
pub const PARKED_BITS: u64 = 0x3FE3_3333_3333_3333;

/// 0.85: what is as certain is solid.
pub const SOLID_BITS: u64 = 0x3FEB_3333_3333_3333;

/// Whether a confidence is too low for the graph.
pub open spec fn is_parked(confidence: Double) -> bool {
    confidence.below(Double { bits: PARKED_BITS })
}

/// Whether a confidence is too low for the graph.
pub fn parked(confidence: Double) -> (r: bool)
    ensures
        r == is_parked(confidence),
{
    confidence.lt(Double { bits: PARKED_BITS })
}

/// The tier of a node: solid or amber.
pub open spec fn tier(confidence: Double) -> Seq<char> {
    if confidence.at_least(Double { bits: SOLID_BITS }) {
        "solid"@
    } else {
        "amber"@
    }
}

/// The tier of a node with the confidence.
pub fn tier_for(confidence: Double) -> (r: &'static str)
    ensures
        r@ == tier(confidence),
{
    if confidence.ge(Double { bits: SOLID_BITS }) {
        "solid"
    } else {
        "amber"
    }
}

// Edges ------------------------------------------------------------------

/// The type of the edge from a conversation to a node of the kind.
pub open spec fn edge_type(kind: Seq<char>) -> Seq<char> {
    if kind == "topic"@ {
        "belongs_to"@
    } else if kind == "entity"@ {
        "mentions"@
    } else if kind == "concept"@ {
        "discusses"@
    } else if kind == "pattern"@ {
        "uses_pattern"@
    } else {
        "relates_to"@
    }
}

/// The type of the edge from a conversation to a node of the kind.
pub fn canonical_edge_type(kind: &str) -> (r: &'static str)
    ensures
        r@ == edge_type(kind@),
{
    if same(kind, "topic") {
        "belongs_to"
    } else if same(kind, "entity") {
        "mentions"
    } else if same(kind, "concept") {
        "discusses"
    } else if same(kind, "pattern") {
        "uses_pattern"
    } else {
        "relates_to"
    }
}

/// Whether edges of the type are derived from what a conversation says.
pub open spec fn is_derivation(t: Seq<char>) -> bool {
    t == "belongs_to"@ || t == "mentions"@ || t == "discusses"@ || t == "uses_pattern"@
}

/// Whether edges of the type are derived from what a conversation says.
pub fn derivation(t: &str) -> (r: bool)
    ensures
        r == is_derivation(t@),
{
    same(t, "belongs_to") || same(t, "mentions") || same(t, "discusses") || same(t, "uses_pattern")
}

// Names of nodes ---------------------------------------------------------

/// The text with every run of characters that are neither letters nor digits
/// made one dash.
pub open spec fn dashed(s: Seq<char>) -> Seq<char>
    decreases s.len(),
{
    if s.len() == 0 {
        Seq::empty()
    } else {
        let before = dashed(s.drop_last());
        if letter_or_digit(s.last()) {
            before.push(s.last())
        } else if before.len() > 0 && before.last() == '-' {
            before
        } else {
            before.push('-')
        }
    }
}

/// The text without the characters `c` at its start.
pub open spec fn trimmed_start_of(s: Seq<char>, c: char) -> Seq<char>
    decreases s.len(),
{
    if s.len() > 0 && s[0] == c {
        trimmed_start_of(s.drop_first(), c)
    } else {
        s
    }
}

/// The name that a node gets: lower case, letters and digits, joined by single
/// dashes.
pub open spec fn node_name(s: Seq<char>) -> Seq<char> {
    trimmed_end_of(trimmed_start_of(dashed(lowered(trimmed(s))), '-'), '-')
}

/// The name that a node gets.
pub fn normalize_name(s: &str) -> (r: String)
    ensures
        r@ == node_name(s@),
{
    let low_text = lower(trim(s));
    let v = chars(low_text.as_str());
    let ghost low = low_text@;
    let mut out: Vec<char> = Vec::new();
    let mut i: usize = 0;
    assert(low.take(0) =~= Seq::<char>::empty());
    while i < v.len()
        invariant
            i <= v@.len(),
            v@ == low,
            out@ == dashed(low.take(i as int)),
        decreases v@.len() - i,
    {
        assert(low.take(i + 1).drop_last() =~= low.take(i as int));
        let c = v[i];
        if is_letter_or_digit(c) {
            out.push(c);
        } else if out.len() == 0 || out[out.len() - 1] != '-' {
            out.push('-');
        }
        i = i + 1;
    }
    assert(low.take(i as int) =~= low);
    let mut from: usize = 0;
    assert(out@.skip(0) =~= out@);
    while from < out.len() && out[from] == '-'
        invariant
            from <= out@.len(),
            trimmed_start_of(out@, '-') == trimmed_start_of(out@.skip(from as int), '-'),
        decreases out@.len() - from,
    {
        assert(out@.skip(from as int).drop_first() =~= out@.skip(from + 1));
        from = from + 1;
    }
    let ghost core = out@.skip(from as int);
    let mut to: usize = out.len();
    assert(out@.subrange(from as int, to as int) =~= core);
    while from < to && out[to - 1] == '-'
        invariant
            from <= to <= out@.len(),
            core == out@.skip(from as int),
            trimmed_end_of(core, '-') == trimmed_end_of(
                out@.subrange(from as int, to as int),
                '-',
            ),
        decreases to - from,
    {
        assert(out@.subrange(from as int, to as int).drop_last() =~= out@.subrange(
            from as int,
            to - 1,
        ));
        to = to - 1;
    }
    string_of(&out, from, to)
}

// Laws -------------------------------------------------------------------

/// Whether a text is in the form that node names have.
pub open spec fn is_node_name(s: Seq<char>) -> bool {
    &&& forall|i: int| 0 <= i < s.len() ==> #[trigger] s[i] == '-' || letter_or_digit(s[i])
    &&& forall|i: int| 0 < i < s.len() ==> !(#[trigger] s[i] == '-' && s[i - 1] == '-')
    &&& s.len() > 0 ==> s[0] != '-' && s.last() != '-'
}

proof fn lemma_dashed_shape(s: Seq<char>)
    ensures
        forall|i: int|
            0 <= i < dashed(s).len() ==> #[trigger] dashed(s)[i] == '-' || letter_or_digit(
                dashed(s)[i],
            ),
        forall|i: int|
            0 < i < dashed(s).len() ==> !(#[trigger] dashed(s)[i] == '-' && dashed(s)[i - 1]
                == '-'),
    decreases s.len(),
{
    if s.len() > 0 {
        lemma_dashed_shape(s.drop_last());
        let before = dashed(s.drop_last());
        assert forall|i: int| 0 <= i < dashed(s).len() implies #[trigger] dashed(s)[i] == '-'
            || letter_or_digit(dashed(s)[i]) by {
            if i < before.len() {
                assert(dashed(s)[i] == before[i]);
            }
        }
        assert forall|i: int| 0 < i < dashed(s).len() implies !(#[trigger] dashed(s)[i] == '-'
            && dashed(s)[i - 1] == '-') by {
            assert(dashed(s)[i - 1] == before[i - 1]);
            if i < before.len() {
                assert(dashed(s)[i] == before[i]);
            }
        }
    }
}

proof fn lemma_trimmed_start_of(s: Seq<char>, c: char)
    ensures
        trimmed_start_of(s, c).len() <= s.len(),
        trimmed_start_of(s, c) == s.skip(s.len() - trimmed_start_of(s, c).len()),
        trimmed_start_of(s, c).len() > 0 ==> trimmed_start_of(s, c)[0] != c,
    decreases s.len(),
{
    if s.len() > 0 && s[0] == c {
        lemma_trimmed_start_of(s.drop_first(), c);
        let t = trimmed_start_of(s, c);
        assert(s.drop_first().skip(s.len() - 1 - t.len()) =~= s.skip(s.len() - t.len()));
    } else {
        assert(s.skip(0) =~= s);
    }
}

/// Every node name is made of letters, digits and single dashes, with no dash at
/// either end.
pub proof fn names_have_their_form(s: Seq<char>)
    ensures
        is_node_name(node_name(s)),
{
    let d = dashed(lowered(trimmed(s)));
    lemma_dashed_shape(lowered(trimmed(s)));
    lemma_trimmed_start_of(d, '-');
    let t = trimmed_start_of(d, '-');
    lemma_trimmed_end_of(t, '-');
    let n = node_name(s);
    let k = d.len() - t.len();
    assert(n =~= t.take(n.len() as int));
    assert forall|i: int| 0 <= i < n.len() implies #[trigger] n[i] == '-' || letter_or_digit(n[i]) by {
        assert(n[i] == d[i + k]);
    }
    assert forall|i: int| 0 < i < n.len() implies !(#[trigger] n[i] == '-' && n[i - 1] == '-') by {
        assert(n[i] == d[i + k]);
        assert(n[i - 1] == d[i - 1 + k]);
    }
}

/// Whether a character is an ASCII character but no capital letter.
spec fn small(c: char) -> bool {
    c <= '\u{7f}' && !('A' <= c <= 'Z')
}

proof fn lemma_dashed_from(s: Seq<char>)
    requires
        forall|i: int| 0 <= i < s.len() ==> small(#[trigger] s[i]),
    ensures
        forall|i: int| 0 <= i < dashed(s).len() ==> small(#[trigger] dashed(s)[i]),
    decreases s.len(),
{
    if s.len() > 0 {
        let t = s.drop_last();
        assert forall|i: int| 0 <= i < t.len() implies small(#[trigger] t[i]) by {
            assert(t[i] == s[i]);
        }
        lemma_dashed_from(t);
        assert forall|i: int| 0 <= i < dashed(s).len() implies small(#[trigger] dashed(s)[i]) by {
            if i < dashed(t).len() {
                assert(dashed(s)[i] == dashed(t)[i]);
            } else {
                assert(small(s[s.len() - 1]));
            }
        }
    }
}

proof fn lemma_dashed_again(s: Seq<char>)
    requires
        forall|i: int| 0 <= i < s.len() ==> #[trigger] s[i] == '-' || letter_or_digit(s[i]),
        forall|i: int| 0 < i < s.len() ==> !(#[trigger] s[i] == '-' && s[i - 1] == '-'),
    ensures
        dashed(s) == s,
    decreases s.len(),
{
    if s.len() > 0 {
        let t = s.drop_last();
        assert forall|i: int| 0 <= i < t.len() implies #[trigger] t[i] == '-' || letter_or_digit(
            t[i],
        ) by {
            assert(t[i] == s[i]);
        }
        assert forall|i: int| 0 < i < t.len() implies !(#[trigger] t[i] == '-' && t[i - 1]
            == '-') by {
            assert(t[i] == s[i]);
        }
        lemma_dashed_again(t);
        let c = s[s.len() - 1];
        assert(c == '-' || letter_or_digit(c));
        assert(dashed(s) =~= s);
    }
}

/// A name names itself: making a name of it again changes nothing. That is so for
/// every name that is in lower case as it stands and has no white space at its
/// ends.
pub proof fn names_are_stable(s: Seq<char>)
    requires
        lowered(node_name(s)) == node_name(s),
        trimmed(node_name(s)) == node_name(s),
    ensures
        node_name(node_name(s)) == node_name(s),
{
    let n = node_name(s);
    names_have_their_form(s);
    lemma_dashed_again(n);
    if n.len() > 0 {
        assert(n[0] != '-' && n.last() != '-');
    }
}

/// Every name that was made of ASCII text names itself.
pub proof fn ascii_names_are_stable(s: Seq<char>)
    requires
        is_ascii_chars(s),
    ensures
        node_name(node_name(s)) == node_name(s),
{
    let low = lowered(trimmed(s));
    let d = dashed(low);
    let t = trimmed_start_of(d, '-');
    let n = node_name(s);
    trimming_is_final(s);
    let (a, b) = choose|i: int, j: int|
        0 <= i <= j <= s.len() && trimmed(s) == #[trigger] s.subrange(i, j) && (forall|k: int|
            (0 <= k < i || j <= k < s.len()) ==> is_white_space(#[trigger] s[k]));
    assert forall|i: int| 0 <= i < trimmed(s).len() implies '\0' <= #[trigger] trimmed(s)[i]
        <= '\u{7f}' by {
        assert(trimmed(s)[i] == s[a + i]);
    }
    assert(is_ascii_chars(trimmed(s)));
    assert forall|i: int| 0 <= i < low.len() implies small(#[trigger] low[i]) by {
        assert('\0' <= trimmed(s)[i] <= '\u{7f}');
    }
    lemma_dashed_from(low);
    names_have_their_form(s);
    lemma_trimmed_start_of(d, '-');
    lemma_trimmed_end_of(t, '-');
    let k = d.len() - t.len();
    assert forall|i: int| 0 <= i < n.len() implies small(#[trigger] n[i]) by {
        assert(n[i] == t[i]);
        assert(t[i] == d[i + k]);
    }
    // Nothing is trimmed, and nothing is in upper case.
    if n.len() > 0 {
        assert(letter_or_digit(n[0]));
        assert(letter_or_digit(n[n.len() - 1]));
        assert(small(n[0]) && small(n[n.len() - 1]));
        assert(!is_white_space(n[0]) && !is_white_space(n.last()));
    }
    assert(trimmed(n) == n);
    assert(is_ascii_chars(n));
    assert(lowered(n) =~= n) by {
        assert forall|i: int| 0 <= i < n.len() implies lowered(n)[i] == n[i] by {
            assert(small(n[i]));
        }
    }
    names_are_stable(s);
}

/// What an edge is derived for is what can be found in a conversation: the edge of a
/// kind is a derived one exactly if the kind is topic, entity, concept or pattern,
/// every derived edge is that of one of these kinds, and no two of them share one.
pub proof fn findings_have_derived_edges(kind: Seq<char>, other: Seq<char>, t: Seq<char>)
    ensures
        is_derivation(edge_type(kind)) <==> kind == "topic"@ || kind == "entity"@ || kind
            == "concept"@ || kind == "pattern"@,
        is_derivation(t) <==> t == edge_type("topic"@) || t == edge_type("entity"@) || t
            == edge_type("concept"@) || t == edge_type("pattern"@),
        is_derivation(edge_type(kind)) && edge_type(kind) == edge_type(other) ==> kind == other,
{
    reveal_strlit("topic");
    reveal_strlit("entity");
    reveal_strlit("concept");
    reveal_strlit("pattern");
    reveal_strlit("belongs_to");
    reveal_strlit("mentions");
    reveal_strlit("discusses");
    reveal_strlit("uses_pattern");
    reveal_strlit("relates_to");
    assert("topic"@.len() == 5 && "entity"@.len() == 6 && "concept"@.len() == 7 && "pattern"@.len()
        == 7);
    assert("concept"@[0] == 'c' && "pattern"@[0] == 'p');
    assert("belongs_to"@.len() == 10 && "mentions"@.len() == 8 && "discusses"@.len() == 9
        && "uses_pattern"@.len() == 12 && "relates_to"@.len() == 10);
    assert("belongs_to"@[0] == 'b' && "relates_to"@[0] == 'r');
}

/// Whatever the confidence, an item is parked, amber or solid, and what is solid
/// is never parked.
pub proof fn solid_is_not_parked(confidence: Double)
    ensures
        tier(confidence) == "solid"@ ==> !is_parked(confidence),
        tier(confidence) == "solid"@ || tier(confidence) == "amber"@,
{
    reveal_strlit("solid");
    reveal_strlit("amber");
    assert("solid"@[0] == 's');
    assert("amber"@[0] == 'a');
}

/// What is found with less confidence than 0.6 is parked, and what is found with 0.85
/// or more is solid; what is no number is neither.
pub proof fn confidence_is_weighed(confidence: Double)
    ensures
        confidence.is_nan() ==> !is_parked(confidence) && tier(confidence) == "amber"@,
        !confidence.is_nan() ==> (is_parked(confidence) <==> confidence.level()
            < 0x3FE3_3333_3333_3333),
        !confidence.is_nan() ==> (tier(confidence) == "solid"@ <==> confidence.level()
            >= 0x3FEB_3333_3333_3333),
{
    let parked = Double { bits: PARKED_BITS };
    let solid = Double { bits: SOLID_BITS };
    crate::double::comparison_is_total_on_numbers(confidence, parked);
    crate::double::comparison_is_total_on_numbers(confidence, solid);
    assert("solid"@ != "amber"@) by {
        reveal_strlit("solid");
        reveal_strlit("amber");
        assert("solid"@[0] != "amber"@[0]);
    }
}

proof fn lemma_dashed_keeps(s: Seq<char>)
    ensures
        dashed(s).filter(|c: char| c != '-' && letter_or_digit(c)) == s.filter(
            |c: char| c != '-' && letter_or_digit(c),
        ),
    decreases s.len(),
{
    reveal(Seq::filter);
    let p = |c: char| c != '-' && letter_or_digit(c);
    if s.len() > 0 {
        lemma_dashed_keeps(s.drop_last());
        let before = dashed(s.drop_last());
        let c = s.last();
        if letter_or_digit(c) {
            assert(before.push(c).drop_last() =~= before);
        } else {
            assert(before.push('-').drop_last() =~= before);
        }
    }
}

proof fn lemma_no_dash_is_kept(s: Seq<char>)
    requires
        forall|i: int| 0 <= i < s.len() ==> #[trigger] s[i] == '-',
    ensures
        s.filter(|c: char| c != '-' && letter_or_digit(c)) == Seq::<char>::empty(),
    decreases s.len(),
{
    reveal(Seq::filter);
    if s.len() > 0 {
        lemma_no_dash_is_kept(s.drop_last());
        assert(s[s.len() - 1] == '-');
    }
}

proof fn lemma_trimmed_start_loses_dashes(s: Seq<char>)
    ensures
        trimmed_start_of(s, '-').filter(|c: char| c != '-' && letter_or_digit(c)) == s.filter(
            |c: char| c != '-' && letter_or_digit(c),
        ),
    decreases s.len(),
{
    let p = |c: char| c != '-' && letter_or_digit(c);
    if s.len() > 0 && s[0] == '-' {
        lemma_trimmed_start_loses_dashes(s.drop_first());
        let first = seq!['-'];
        assert(s =~= first + s.drop_first());
        Seq::filter_distributes_over_add(first, s.drop_first(), p);
        lemma_no_dash_is_kept(first);
        assert(first.filter(p) + s.drop_first().filter(p) =~= s.drop_first().filter(p));
    }
}

proof fn lemma_trimmed_end_loses_dashes(s: Seq<char>)
    ensures
        trimmed_end_of(s, '-').filter(|c: char| c != '-' && letter_or_digit(c)) == s.filter(
            |c: char| c != '-' && letter_or_digit(c),
        ),
    decreases s.len(),
{
    reveal(Seq::filter);
    if s.len() > 0 && s.last() == '-' {
        lemma_trimmed_end_loses_dashes(s.drop_last());
    }
}

/// The name of a node has every letter and digit of what it is made from, in small
/// letters and in order.
pub proof fn names_keep_their_letters(s: Seq<char>)
    ensures
        node_name(s).filter(|c: char| c != '-' && letter_or_digit(c)) == lowered(
            trimmed(s),
        ).filter(|c: char| c != '-' && letter_or_digit(c)),
{
    let t = lowered(trimmed(s));
    lemma_dashed_keeps(t);
    lemma_trimmed_start_loses_dashes(dashed(t));
    lemma_trimmed_end_loses_dashes(trimmed_start_of(dashed(t), '-'));
}

} // verus!
