//! What the properties of an edge tell: how often it was found, and in which
//! messages.

use super::lookup::{marks_are_read_back, marks_leave_the_rest, put_prop, with_prop};
use crate::double::Double;
use crate::graph::at_most;
use crate::json::{
    decimal_number, json_double, json_pointed, json_signed, json_texts, lookup, pointed_integer,
    signed_integer, text_array, Json, JsonTree, ObjectBuilder,
};
use crate::kg::extraction::{read_strings, strings_among};
use crate::sql::{integer_at, integer_or};
use crate::text::{contains_text, texts};
use vstd::prelude::*;

verus! {

// Counting ---------------------------------------------------------------

/// The bits of 9.22337203685478e18, which is one more than the largest integer with
/// fifteen digits kept.
pub const PAST_INTEGERS_BITS: u64 = 0x43e0_0000_0000_0002;

/// How often an edge was found, as its properties have it: never where they do not
/// tell.
pub open spec fn count_in(props: JsonTree) -> i64 {
    integer_or(props.at("count"@), 0)
}

/// The count with one time more. A number with a point stays one, without what
/// stands behind the point.
pub open spec fn one_more(count: JsonTree) -> JsonTree {
    let n = integer_or(count, 0);
    if n == i64::MAX {
        decimal_number(Double { bits: PAST_INTEGERS_BITS })
    } else if count is Number && count.as_i64() is None {
        pointed_integer((n + 1) as i64)
    } else {
        signed_integer((n + 1) as i64)
    }
}

fn count_once_more(props: &Json) -> (r: Json)
    ensures
        r@ == one_more(props@.at("count"@)),
{
    let n: i64 = integer_at(props, "count", 0);
    if n == i64::MAX {
        return json_double(Double { bits: PAST_INTEGERS_BITS });
    }
    let pointed = match props.get("count") {
        Some(Json::Number(c)) => c.signed.is_none(),
        _ => false,
    };
    if pointed {
        json_pointed(n + 1)
    } else {
        json_signed(n + 1)
    }
}

// Messages ---------------------------------------------------------------

/// The messages of an edge, as its properties have them.
pub open spec fn messages_in(props: JsonTree) -> Seq<Seq<char>> {
    match props.at("message_ids"@).as_array() {
        Some(v) => strings_among(v),
        None => Seq::empty(),
    }
}

/// The messages of an edge, as its properties have them.
pub fn edge_messages(props: &Json) -> (r: Vec<String>)
    ensures
        texts(r@) == messages_in(props@),
{
    let listed = match props.get("message_ids") {
        Some(v) => v.as_array(),
        None => None,
    };
    let ids = match listed {
        Some(v) => read_strings(v),
        None => Vec::new(),
    };
    assert(listed is None ==> texts(ids@) =~= Seq::<Seq<char>>::empty());
    ids
}

/// The most messages that are kept for an edge that is found again.
pub const MAX_EDGE_MESSAGES: usize = 20;

/// The messages of an edge that is found again: those that are new to it are put
/// behind the others, as long as there is room. What an edge has too many of is
/// left out.
pub open spec fn merged_ids(known: Seq<Seq<char>>, found: Seq<Seq<char>>) -> Seq<Seq<char>>
    decreases found.len(),
{
    if found.len() == 0 {
        at_most(known, MAX_EDGE_MESSAGES as int)
    } else {
        let before = merged_ids(known, found.drop_last());
        if before.len() < MAX_EDGE_MESSAGES && !before.contains(found.last()) {
            before.push(found.last())
        } else {
            before
        }
    }
}

/// Puts the messages that are new behind the others, as long as there is room.
/// There is room for `MAX_EDGE_MESSAGES` in all.
fn merge_message_ids(known: &mut Vec<String>, found: &Vec<String>)
    ensures
        texts(final(known)@) == merged_ids(texts(old(known)@), texts(found@)),
{
    let ghost before = texts(known@);
    let ghost all = texts(found@);
    if known.len() > MAX_EDGE_MESSAGES {
        known.truncate(MAX_EDGE_MESSAGES);
    }
    assert(texts(known@) =~= at_most(before, MAX_EDGE_MESSAGES as int));
    let mut i: usize = 0;
    assert(all.take(0) =~= Seq::<Seq<char>>::empty());
    while i < found.len()
        invariant
            i <= found@.len(),
            all == texts(found@),
            texts(known@) == merged_ids(before, all.take(i as int)),
        decreases found@.len() - i,
    {
        assert(all.take(i + 1).drop_last() =~= all.take(i as int));
        assert(all.take(i + 1).last() == found@[i as int]@);
        if known.len() < MAX_EDGE_MESSAGES && !contains_text(known, found[i].as_str()) {
            let id = found[i].clone();
            proof {
                crate::text::lemma_texts_push(known@, id);
            }
            known.push(id);
        }
        i = i + 1;
    }
    assert(all.take(i as int) =~= all);
}

// Finding ----------------------------------------------------------------

/// The properties of an edge that is found for the first time.
pub open spec fn first_props(ids: Seq<Seq<char>>) -> JsonTree {
    JsonTree::Object(
        seq![("count"@, one_more(JsonTree::Null)), ("message_ids"@, text_array(ids))],
    )
}

/// The properties of an edge that is found for the first time.
pub fn find_first(ids: &Vec<String>) -> (r: Json)
    ensures
        r@ == first_props(texts(ids@)),
{
    let mut b = ObjectBuilder::new();
    let nothing = Json::Null;
    b.entry("count", count_once_more(&nothing));
    b.entry("message_ids", json_texts(ids));
    let r = b.finish();
    assert(r@->Object_0 =~= first_props(texts(ids@))->Object_0);
    r
}

/// The properties of an edge once it is found again: it is counted once more, the
/// messages are put to the others, and the rest stays.
pub open spec fn props_again(props: JsonTree, ids: Seq<Seq<char>>) -> JsonTree {
    with_prop(
        with_prop(props, "count"@, one_more(props.at("count"@))),
        "message_ids"@,
        text_array(merged_ids(messages_in(props), ids)),
    )
}

/// The properties of an edge once it is found again.
pub fn find_again(props: &Json, ids: &Vec<String>) -> (r: Json)
    ensures
        r@ == props_again(props@, texts(ids@)),
{
    let mut known = edge_messages(props);
    merge_message_ids(&mut known, ids);
    let counted = put_prop(props, "count", &count_once_more(props));
    put_prop(&counted, "message_ids", &json_texts(&known))
}

// Laws -------------------------------------------------------------------

proof fn lemma_strings_among(ids: Seq<Seq<char>>)
    ensures
        strings_among(ids.map_values(|s: Seq<char>| JsonTree::Str(s))) == ids,
    decreases ids.len(),
{
    let v = ids.map_values(|s: Seq<char>| JsonTree::Str(s));
    if ids.len() > 0 {
        lemma_strings_among(ids.drop_last());
        assert(v.drop_last() =~= ids.drop_last().map_values(|s: Seq<char>| JsonTree::Str(s)));
        assert(v.last() == JsonTree::Str(ids.last()));
        assert(ids.drop_last().push(ids.last()) =~= ids);
    } else {
        assert(ids =~= Seq::empty());
    }
}

/// What is written of an edge that is found for the first time is read back: it was
/// found once, in these messages.
pub proof fn first_findings_are_read_back(ids: Seq<Seq<char>>)
    ensures
        count_in(first_props(ids)) == 1,
        messages_in(first_props(ids)) == ids,
{
    let entries = first_props(ids)->Object_0;
    reveal_strlit("count");
    reveal_strlit("message_ids");
    assert("count"@.len() == 5 && "message_ids"@.len() == 11);
    assert(entries.drop_first()[0] == entries[1]);
    reveal_with_fuel(lookup, 3);
    lemma_strings_among(ids);
}

/// An edge that is found again was found one time more than before, unless its count
/// is a number with a point or the largest integer; its messages are those that it
/// had and the new ones that there was room for; and nothing else of it changes.
pub proof fn findings_add_up(props: JsonTree, ids: Seq<Seq<char>>, other: Seq<char>)
    requires
        props is Null || props is Object,
    ensures
        !(props.at("count"@) is Number && props.at("count"@).as_i64() is None) && count_in(props)
            < i64::MAX ==> count_in(props_again(props, ids)) == count_in(props) + 1,
        messages_in(props_again(props, ids)) == merged_ids(messages_in(props), ids),
        other != "count"@ && other != "message_ids"@ ==> props_again(props, ids).get(other)
            == props.get(other),
{
    reveal_strlit("count");
    reveal_strlit("message_ids");
    assert("count"@.len() == 5 && "message_ids"@.len() == 11);
    let more = one_more(props.at("count"@));
    let list = text_array(merged_ids(messages_in(props), ids));
    let counted = with_prop(props, "count"@, more);
    lemma_strings_among(merged_ids(messages_in(props), ids));
    marks_are_read_back(props, "count"@, more);
    marks_are_read_back(counted, "message_ids"@, list);
    lemma_rest_left(props, "count"@, more, other);
    lemma_rest_left(counted, "message_ids"@, list, other);
    lemma_rest_left(counted, "message_ids"@, list, "count"@);
}

proof fn lemma_rest_left(props: JsonTree, key: Seq<char>, value: JsonTree, other: Seq<char>)
    requires
        props is Null || props is Object,
    ensures
        with_prop(props, key, value) is Object,
        other != key ==> with_prop(props, key, value).get(other) == props.get(other),
{
    if other != key {
        match props {
            JsonTree::Object(entries) => {
                marks_leave_the_rest(entries, key, value, other);
            },
            _ => {
                assert(seq![(key, value)].drop_first() =~= Seq::<(Seq<char>, JsonTree)>::empty());
                reveal_with_fuel(lookup, 2);
            },
        }
    }
}

/// The messages of an edge that is found again are those it had, in order, and then
/// those that are new, each once, until there are twenty.
pub proof fn found_messages_are_added(known: Seq<Seq<char>>, found: Seq<Seq<char>>)
    ensures
        merged_ids(known, found).len() <= 20,
        known.len() <= 20 ==> merged_ids(known, found).take(known.len() as int) == known
            && known.len() <= merged_ids(known, found).len(),
        known.len() > 20 ==> merged_ids(known, found) == known.take(20),
        forall|x: Seq<char>| #[trigger]
            merged_ids(known, found).contains(x) ==> known.contains(x) || found.contains(x),
        forall|i: int|
            0 <= i < found.len() ==> merged_ids(known, found).len() == 20 || merged_ids(
                known,
                found,
            ).contains(#[trigger] found[i]),
        known.no_duplicates() ==> merged_ids(known, found).no_duplicates(),
    decreases found.len(),
{
    let all = merged_ids(known, found);
    if found.len() == 0 {
        if known.len() <= 20 {
            assert(all.take(known.len() as int) =~= known);
        } else {
            assert(all =~= known.take(20));
            assert forall|x: Seq<char>| #[trigger] all.contains(x) implies known.contains(x)
                || found.contains(x) by {
                let i = choose|i: int| 0 <= i < all.len() && all[i] == x;
                assert(known[i] == x);
            }
        }
    } else {
        let rest = found.drop_last();
        let before = merged_ids(known, rest);
        let x = found.last();
        found_messages_are_added(known, rest);
        assert(found[found.len() - 1] == x);
        if known.len() <= 20 {
            assert(all.take(known.len() as int) =~= before.take(known.len() as int));
        }
        assert forall|y: Seq<char>| #[trigger] all.contains(y) implies known.contains(y)
            || found.contains(y) by {
            let i = choose|i: int| 0 <= i < all.len() && all[i] == y;
            if i < before.len() {
                assert(before[i] == y);
                assert(before.contains(y));
                if rest.contains(y) {
                    let k = choose|k: int| 0 <= k < rest.len() && rest[k] == y;
                    assert(found[k] == y);
                }
            }
        }
        assert forall|i: int| 0 <= i < found.len() implies all.len() == 20 || all.contains(
            #[trigger] found[i],
        ) by {
            if i < rest.len() {
                assert(rest[i] == found[i]);
                if before.contains(rest[i]) {
                    let k = choose|k: int| 0 <= k < before.len() && before[k] == rest[i];
                    assert(all[k] == found[i]);
                }
            } else if before.contains(x) {
                let k = choose|k: int| 0 <= k < before.len() && before[k] == x;
                assert(all[k] == x);
            } else if before.len() < 20 {
                assert(all[before.len() as int] == x);
            }
        }
        if known.no_duplicates() {
            assert forall|i: int, j: int|
                0 <= i < all.len() && 0 <= j < all.len() && i != j implies all[i] != all[j] by {
                if i < before.len() {
                    assert(before.contains(before[i]));
                }
                if j < before.len() {
                    assert(before.contains(before[j]));
                }
            }
        }
    }
}

/// A count is one more each time: a whole number stays one, one with a point keeps it,
/// what is no number counts as nought, and past the largest integer it is
/// 9.22337203685478e18.
pub proof fn counts_go_up_by_one(count: JsonTree)
    ensures
        integer_or(count, 0) < i64::MAX && !(count is Number && count.as_i64() is None)
            ==> one_more(count) == signed_integer((integer_or(count, 0) + 1) as i64),
        integer_or(count, 0) < i64::MAX && count is Number && count.as_i64() is None ==> one_more(
            count,
        ) == pointed_integer((integer_or(count, 0) + 1) as i64),
        integer_or(count, 0) == i64::MAX ==> one_more(count) == decimal_number(
            Double { bits: 0x43e0_0000_0000_0002 },
        ),
{
}

} // verus!
