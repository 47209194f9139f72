//! The text of a reply, in whatever shape a provider sends it.

use crate::json::{entry_trees, lookup, trees, Json, JsonTree};
use crate::text::{is_blank, same, trimmed};
use vstd::prelude::*;

verus! {

/// The keys under which providers put the text itself.
pub open spec fn is_text_key(k: Seq<char>) -> bool {
    k == "text"@ || k == "content"@ || k == "value"@ || k == "output_text"@
}

/// The keys under which replies carry what is not text.
pub open spec fn is_metadata_key(k: Seq<char>) -> bool {
    k == "role"@ || k == "type"@ || k == "name"@ || k == "id"@ || k == "model"@ || k == "index"@
        || k == "finish_reason"@
}

fn text_key(k: &str) -> (r: bool)
    ensures
        r == is_text_key(k@),
{
    same(k, "text") || same(k, "content") || same(k, "value") || same(k, "output_text")
}

fn metadata_key(k: &str) -> (r: bool)
    ensures
        r == is_metadata_key(k@),
{
    same(k, "role") || same(k, "type") || same(k, "name") || same(k, "id") || same(k, "model")
        || same(k, "index") || same(k, "finish_reason")
}

/// How deep the search for strings goes.
pub const MAX_DEPTH: usize = 10;

/// All strings in a document, down to `MAX_DEPTH` levels, one after the other.
/// In an object, what stands under a text key comes first, and what stands under
/// a metadata key is left out.
pub open spec fn strings_in(t: JsonTree, depth: nat) -> Seq<char>
    decreases MAX_DEPTH + 2 - depth, 0nat,
{
    if depth > MAX_DEPTH {
        Seq::empty()
    } else {
        match t {
            JsonTree::Str(s) => s,
            JsonTree::Array(items) => strings_in_list(items, depth + 1),
            JsonTree::Object(entries) => strings_under(entries, "text"@, depth + 1)
                + strings_under(entries, "content"@, depth + 1) + strings_under(
                entries,
                "value"@,
                depth + 1,
            ) + strings_under(entries, "output_text"@, depth + 1) + strings_in_entries(
                entries,
                depth + 1,
            ),
            _ => Seq::empty(),
        }
    }
}

/// The strings in the documents of a list.
pub open spec fn strings_in_list(items: Seq<JsonTree>, depth: nat) -> Seq<char>
    decreases MAX_DEPTH + 2 - depth, items.len() + 1,
{
    if items.len() == 0 {
        Seq::empty()
    } else {
        strings_in_list(items.drop_last(), depth) + strings_in(items.last(), depth)
    }
}

/// The strings under one key.
pub open spec fn strings_under(
    entries: Seq<(Seq<char>, JsonTree)>,
    key: Seq<char>,
    depth: nat,
) -> Seq<char>
    decreases MAX_DEPTH + 2 - depth, 1nat,
{
    match lookup(entries, key) {
        Some(v) => strings_in(v, depth),
        None => Seq::empty(),
    }
}

/// The strings under the keys that are neither text keys nor metadata keys.
pub open spec fn strings_in_entries(entries: Seq<(Seq<char>, JsonTree)>, depth: nat) -> Seq<char>
    decreases MAX_DEPTH + 2 - depth, entries.len() + 1,
{
    if entries.len() == 0 {
        Seq::empty()
    } else {
        let e = entries.last();
        let before = strings_in_entries(entries.drop_last(), depth);
        if is_text_key(e.0) || is_metadata_key(e.0) {
            before
        } else {
            before + strings_in(e.1, depth)
        }
    }
}

/// Appends the strings under `key` in the object `v`.
fn collect_under(v: &Json, key: &str, out: &mut String, depth: usize)
    requires
        depth <= MAX_DEPTH + 1,
        v@ is Object,
    ensures
        final(out)@ == old(out)@ + strings_under(v@->Object_0, key@, depth as nat),
    decreases MAX_DEPTH + 2 - depth, 1nat,
{
    match v.get(key) {
        Some(inner) => collect_strings(inner, out, depth),
        None => {
            assert(out@ =~= old(out)@ + Seq::<char>::empty());
        },
    }
}

/// Appends all strings in `v`.
fn collect_strings(v: &Json, out: &mut String, depth: usize)
    requires
        depth <= MAX_DEPTH + 1,
    ensures
        final(out)@ == old(out)@ + strings_in(v@, depth as nat),
    decreases MAX_DEPTH + 2 - depth, 0nat,
{
    if depth > MAX_DEPTH {
        assert(out@ =~= old(out)@ + strings_in(v@, depth as nat));
        return;
    }
    let ghost start = out@;
    match v {
        Json::Str(s) => {
            out.append(s.as_str());
        },
        Json::Array(items) => {
            proof {
                crate::json::lemma_array_tree(*items);
            }
            let ghost all = trees(items@);
            let mut i: usize = 0;
            assert(out@ =~= start + strings_in_list(all.take(0), (depth + 1) as nat));
            while i < items.len()
                invariant
                    depth <= MAX_DEPTH,
                    i <= items@.len(),
                    all == trees(items@),
                    out@ == start + strings_in_list(all.take(i as int), (depth + 1) as nat),
                decreases items@.len() - i,
            {
                let ghost before = out@;
                collect_strings(&items[i], out, depth + 1);
                let ghost next = all.take(i + 1);
                assert(next.drop_last() =~= all.take(i as int));
                assert(next.last() == items@[i as int]@);
                assert(out@ =~= start + strings_in_list(next, (depth + 1) as nat));
                i = i + 1;
            }
            assert(all.take(i as int) =~= all);
        },
        Json::Object(entries) => {
            proof {
                crate::json::lemma_object_tree(*entries);
            }
            let ghost all = entry_trees(entries@);
            let ghost d = (depth + 1) as nat;
            collect_under(v, "text", out, depth + 1);
            collect_under(v, "content", out, depth + 1);
            collect_under(v, "value", out, depth + 1);
            collect_under(v, "output_text", out, depth + 1);
            let ghost middle = out@;
            let mut i: usize = 0;
            assert(out@ =~= middle + strings_in_entries(all.take(0), d));
            while i < entries.len()
                invariant
                    depth <= MAX_DEPTH,
                    d == depth + 1,
                    i <= entries@.len(),
                    all == entry_trees(entries@),
                    out@ == middle + strings_in_entries(all.take(i as int), d),
                decreases entries@.len() - i,
            {
                let ghost next = all.take(i + 1);
                assert(next.drop_last() =~= all.take(i as int));
                assert(next.last() == (entries@[i as int].0@, entries@[i as int].1@));
                if !text_key(entries[i].0.as_str()) && !metadata_key(entries[i].0.as_str()) {
                    collect_strings(&entries[i].1, out, depth + 1);
                }
                assert(out@ =~= middle + strings_in_entries(next, d));
                i = i + 1;
            }
            assert(all.take(i as int) =~= all);
            assert(out@ =~= start + strings_in(v@, depth as nat));
        },
        _ => {
            assert(out@ =~= start + strings_in(v@, depth as nat));
        },
    }
}

/// The text of one part of a structured content.
pub open spec fn part_text(part: JsonTree) -> Seq<char> {
    match part.str_at("text"@) {
        Some(s) => s,
        None => match part.str_at("content"@) {
            Some(s) => s,
            None => Seq::empty(),
        },
    }
}

/// The texts of the parts, one after the other.
pub open spec fn parts_text(parts: Seq<JsonTree>) -> Seq<char>
    decreases parts.len(),
{
    if parts.len() == 0 {
        Seq::empty()
    } else {
        parts_text(parts.drop_last()) + part_text(parts.last())
    }
}

/// The text of a message content: a string is its own text, a list the text of
/// its parts, an object what stands under `text` or else under `content`; any
/// other shape gives the strings in it.
pub open spec fn content_text(t: JsonTree) -> Seq<char> {
    match t {
        JsonTree::Str(s) => s,
        JsonTree::Array(parts) => parts_text(parts),
        JsonTree::Object(_) => match t.str_at("text"@) {
            Some(s) => s,
            None => match t.str_at("content"@) {
                Some(s) => s,
                None => strings_in(t, 0),
            },
        },
        _ => Seq::empty(),
    }
}

/// The text of a message content.
pub fn coerce_message_content(content_val: &Json) -> (r: String)
    ensures
        r@ == content_text(content_val@),
{
    match content_val.as_str() {
        Some(s) => {
            return s.to_owned();
        },
        None => {},
    }
    match content_val.as_array() {
        Some(parts) => {
            let ghost all = trees(parts@);
            let mut out = String::new();
            let mut i: usize = 0;
            assert(all.take(0) =~= Seq::empty());
            while i < parts.len()
                invariant
                    i <= parts@.len(),
                    all == trees(parts@),
                    out@ == parts_text(all.take(i as int)),
                decreases parts@.len() - i,
            {
                let ghost next = all.take(i + 1);
                assert(next.drop_last() =~= all.take(i as int));
                assert(next.last() == parts@[i as int]@);
                match parts[i].str_at("text") {
                    Some(t) => {
                        out.append(t);
                    },
                    None => match parts[i].str_at("content") {
                        Some(t) => {
                            out.append(t);
                        },
                        None => {},
                    },
                }
                assert(out@ =~= parts_text(next));
                i = i + 1;
            }
            assert(all.take(i as int) =~= all);
            return out;
        },
        None => {},
    }
    match content_val.str_at("text") {
        Some(s) => {
            return s.to_owned();
        },
        None => {},
    }
    match content_val.str_at("content") {
        Some(s) => {
            return s.to_owned();
        },
        None => {},
    }
    let mut out = String::new();
    collect_strings(content_val, &mut out, 0);
    assert(out@ =~= content_text(content_val@));
    out
}

/// The arguments of a tool call.
pub open spec fn call_arguments(call: JsonTree) -> Seq<char> {
    match call.at("function"@).str_at("arguments"@) {
        Some(s) => s,
        None => Seq::empty(),
    }
}

/// The arguments of the tool calls, one after the other.
pub open spec fn calls_arguments(calls: Seq<JsonTree>) -> Seq<char>
    decreases calls.len(),
{
    if calls.len() == 0 {
        Seq::empty()
    } else {
        calls_arguments(calls.drop_last()) + call_arguments(calls.last())
    }
}

/// Whether anything but white space stands in the text.
pub open spec fn shows(s: Seq<char>) -> bool {
    trimmed(s).len() > 0
}

/// The text of a message: its content if that shows anything, else the message
/// itself read as a content, else the arguments of its tool calls, else those of
/// its function call.
pub open spec fn message_text(message: JsonTree) -> Option<Seq<char>> {
    let content = content_text(message.at("content"@));
    let whole = content_text(message);
    let calls = match message.at("tool_calls"@) {
        JsonTree::Array(calls) => calls_arguments(calls),
        _ => Seq::empty(),
    };
    let call = match message.at("function_call"@).str_at("arguments"@) {
        Some(s) => s,
        None => Seq::empty(),
    };
    if message is Null {
        None
    } else if shows(content) {
        Some(content)
    } else if shows(whole) {
        Some(whole)
    } else if shows(calls) {
        Some(calls)
    } else if shows(call) {
        Some(call)
    } else {
        None
    }
}

/// The text of one choice of a completion: that of its message, or else what
/// stands under `text`, or else nothing.
pub open spec fn choice_text(choice: JsonTree) -> Seq<char> {
    match message_text(choice.at("message"@)) {
        Some(s) => s,
        None => match choice.str_at("text"@) {
            Some(s) => s,
            None => Seq::empty(),
        },
    }
}

fn tool_call_arguments(calls: &Vec<Json>) -> (r: String)
    ensures
        r@ == calls_arguments(trees(calls@)),
{
    let ghost all = trees(calls@);
    let mut out = String::new();
    let mut i: usize = 0;
    assert(all.take(0) =~= Seq::empty());
    while i < calls.len()
        invariant
            i <= calls@.len(),
            all == trees(calls@),
            out@ == calls_arguments(all.take(i as int)),
        decreases calls@.len() - i,
    {
        let ghost next = all.take(i + 1);
        assert(next.drop_last() =~= all.take(i as int));
        assert(next.last() == calls@[i as int]@);
        match calls[i].get("function") {
            Some(f) => match f.str_at("arguments") {
                Some(args) => {
                    out.append(args);
                },
                None => {},
            },
            None => {},
        }
        assert(out@ =~= calls_arguments(next));
        i = i + 1;
    }
    assert(all.take(i as int) =~= all);
    out
}

/// The text of a message, if it shows any.
fn coerce_message(message: &Json) -> (r: Option<String>)
    requires
        !(message@ is Null),
    ensures
        match r {
            Some(s) => message_text(message@) == Some(s@),
            None => message_text(message@) is None,
        },
{
    let content = match message.get("content") {
        Some(c) => coerce_message_content(c),
        None => String::new(),
    };
    assert(content@ == content_text(message@.at("content"@)));
    if !is_blank(content.as_str()) {
        return Some(content);
    }
    let whole = coerce_message_content(message);
    if !is_blank(whole.as_str()) {
        return Some(whole);
    }
    assert(trimmed(Seq::<char>::empty()).len() == 0);
    match message.get("tool_calls") {
        Some(v) => match v.as_array() {
            Some(calls) => {
                let out = tool_call_arguments(calls);
                if !is_blank(out.as_str()) {
                    return Some(out);
                }
            },
            None => {},
        },
        None => {},
    }
    match message.get("function_call") {
        Some(f) => match f.str_at("arguments") {
            Some(args) => {
                if !is_blank(args) {
                    return Some(args.to_owned());
                }
            },
            None => {},
        },
        None => {},
    }
    None
}

/// The text of one choice of a completion.
pub fn coerce_message_from_openai_choice(choice: &Json) -> (r: String)
    ensures
        r@ == choice_text(choice@),
{
    match choice.get("message") {
        Some(message) => match message {
            Json::Null => {},
            _ => match coerce_message(message) {
                Some(s) => {
                    return s;
                },
                None => {},
            },
        },
        None => {},
    }
    match choice.str_at("text") {
        Some(s) => s.to_owned(),
        None => String::new(),
    }
}

/// A message whose content shows anything is answered with that content, as it
/// stands.
pub proof fn explicit_content_wins(choice: JsonTree)
    requires
        !(choice.at("message"@) is Null),
        shows(content_text(choice.at("message"@).at("content"@))),
    ensures
        choice_text(choice) == content_text(choice.at("message"@).at("content"@)),
{
}

/// A choice with a message that shows anything is never answered with white
/// space only.
pub proof fn message_text_shows(message: JsonTree)
    ensures
        message_text(message) matches Some(s) ==> shows(s),
{
}

/// The parts of a message are run together: of each its `text`, or its `content` where
/// that is no text.
pub proof fn parts_are_run_together(parts: Seq<JsonTree>, part: JsonTree, s: Seq<char>)
    ensures
        parts_text(parts.push(part)) == parts_text(parts) + part_text(part),
        part.at("text"@) == JsonTree::Str(s) ==> part_text(part) == s,
        !(part.at("text"@) is Str) && part.at("content"@) == JsonTree::Str(s) ==> part_text(part)
            == s,
        !(part.at("text"@) is Str) && !(part.at("content"@) is Str) ==> part_text(part).len() == 0,
{
    assert(parts.push(part).drop_last() =~= parts);
}

/// The arguments of tool calls are run together.
pub proof fn arguments_are_run_together(calls: Seq<JsonTree>, call: JsonTree, s: Seq<char>)
    ensures
        calls_arguments(calls.push(call)) == calls_arguments(calls) + call_arguments(call),
        call.at("function"@).at("arguments"@) == JsonTree::Str(s) ==> call_arguments(call) == s,
        !(call.at("function"@).at("arguments"@) is Str) ==> call_arguments(call).len() == 0,
{
    assert(calls.push(call).drop_last() =~= calls);
}

/// The strings of an object are collected from all its entries but those that tell
/// about the message and those that were looked at before; and of a list from all items.
pub proof fn strings_are_collected(
    entries: Seq<(Seq<char>, JsonTree)>,
    items: Seq<JsonTree>,
    key: Seq<char>,
    s: Seq<char>,
    depth: nat,
)
    requires
        depth <= 10,
    ensures
        ({
            let known = seq![
                "text"@,
                "content"@,
                "value"@,
                "output_text"@,
                "role"@,
                "type"@,
                "name"@,
                "id"@,
                "model"@,
                "index"@,
                "finish_reason"@,
            ];
            strings_in_entries(entries.push((key, JsonTree::Str(s))), depth) == if known.contains(
                key,
            ) {
                strings_in_entries(entries, depth)
            } else {
                strings_in_entries(entries, depth) + s
            }
        }),
        strings_in_list(items.push(JsonTree::Str(s)), depth) == strings_in_list(items, depth) + s,
{
    let known = seq![
        "text"@,
        "content"@,
        "value"@,
        "output_text"@,
        "role"@,
        "type"@,
        "name"@,
        "id"@,
        "model"@,
        "index"@,
        "finish_reason"@,
    ];
    assert(entries.push((key, JsonTree::Str(s))).drop_last() =~= entries);
    assert(items.push(JsonTree::Str(s)).drop_last() =~= items);
    assert(strings_in(JsonTree::Str(s), depth) == s);
    assert(known.contains(key) <==> is_text_key(key) || is_metadata_key(key)) by {
        assert(known[0] == "text"@ && known[1] == "content"@ && known[2] == "value"@ && known[3]
            == "output_text"@ && known[4] == "role"@ && known[5] == "type"@ && known[6] == "name"@
            && known[7] == "id"@ && known[8] == "model"@ && known[9] == "index"@ && known[10]
            == "finish_reason"@);
    }
}

/// What lies deeper than ten levels is not collected.
pub proof fn what_lies_deep_is_left(t: JsonTree, depth: nat)
    ensures
        depth > 10 ==> strings_in(t, depth).len() == 0,
{
}

/// What the message says comes before what it holds besides, and that before what it
/// calls; what is blank counts as nothing.
pub proof fn calls_are_read_where_nothing_is_said(message: JsonTree, calls: Seq<JsonTree>)
    requires
        !(message is Null),
        trimmed(content_text(message.at("content"@))).len() == 0,
    ensures
        trimmed(content_text(message)).len() > 0 ==> message_text(message) == Some(
            content_text(message),
        ),
        trimmed(content_text(message)).len() == 0 && message.at("tool_calls"@) == JsonTree::Array(
            calls,
        ) && trimmed(calls_arguments(calls)).len() > 0 ==> message_text(message) == Some(
            calls_arguments(calls),
        ),
        trimmed(content_text(message)).len() == 0 && !(message.at("tool_calls"@) is Array) ==> (
        message.at("function_call"@).at("arguments"@) matches JsonTree::Str(s) ==> (trimmed(s).len()
            > 0 ==> message_text(message) == Some(s))),
{
    if !(message.at("tool_calls"@) is Array) {
        assert(trimmed(Seq::<char>::empty()).len() == 0);
    }
}

} // verus!
