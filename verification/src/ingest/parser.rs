//! Reading an export: which conversations it holds, and what is kept of them.

use super::messages::{sort_messages, StoredUserMessage};
use crate::double::{Double, ZERO_BITS};
use crate::json::{
    decimal_number, entry_trees, integer, json_double, json_integer, json_texts, lookup, text_array,
    trees, Json, JsonTree, ObjectBuilder,
};
use crate::seqs::arranged;
use crate::text::{byte_len, bytes_of, chars, contains_text, same, string_of, text_opt, texts};
use vstd::prelude::*;

verus! {

// Imported before --------------------------------------------------------

/// Where a character occurs first.
pub open spec fn first_at(s: Seq<char>, c: char) -> Option<int>
    decreases s.len(),
{
    if s.len() == 0 {
        None
    } else if s[0] == c {
        Some(0)
    } else {
        match first_at(s.drop_first(), c) {
            Some(i) => Some(i + 1),
            None => None,
        }
    }
}

/// Where a character occurs last.
pub open spec fn last_at(s: Seq<char>, c: char) -> Option<int>
    decreases s.len(),
{
    if s.len() == 0 {
        None
    } else if s.last() == c {
        Some(s.len() - 1)
    } else {
        last_at(s.drop_last(), c)
    }
}

/// The date in the name of a source's file: what stands between its first dash
/// and its last.
pub open spec fn import_date(name: Seq<char>) -> Seq<char> {
    match (first_at(name, '-'), last_at(name, '-')) {
        (Some(i), Some(j)) => if i < j {
            name.subrange(i + 1, j)
        } else {
            name.skip(i + 1)
        },
        _ => "a previous date"@,
    }
}

fn find_first(v: &Vec<char>, c: char) -> (r: Option<usize>)
    ensures
        match r {
            Some(i) => first_at(v@, c) == Some(i as int) && i < v@.len(),
            None => first_at(v@, c) is None,
        },
{
    let mut i: usize = 0;
    assert(v@.skip(0) =~= v@);
    while i < v.len()
        invariant
            i <= v@.len(),
            first_at(v@, c) == match first_at(v@.skip(i as int), c) {
                Some(k) => Some(k + i),
                None => None,
            },
        decreases v@.len() - i,
    {
        assert(v@.skip(i as int)[0] == v@[i as int]);
        assert(v@.skip(i as int).drop_first() =~= v@.skip(i + 1));
        if v[i] == c {
            return Some(i);
        }
        i = i + 1;
    }
    None
}

fn find_last(v: &Vec<char>, c: char) -> (r: Option<usize>)
    ensures
        match r {
            Some(i) => last_at(v@, c) == Some(i as int) && i < v@.len(),
            None => last_at(v@, c) is None,
        },
{
    let mut n: usize = v.len();
    assert(v@.take(n as int) =~= v@);
    while n > 0
        invariant
            n <= v@.len(),
            last_at(v@, c) == last_at(v@.take(n as int), c),
        decreases n,
    {
        assert(v@.take(n as int).drop_last() =~= v@.take(n - 1));
        if v[n - 1] == c {
            return Some(n - 1);
        }
        n = n - 1;
    }
    None
}

/// The message for a source that was imported before, under the file name.
pub fn already_imported(name: &str) -> (r: String)
    ensures
        r@ == "Already imported on "@ + import_date(name@) + "."@,
{
    let v = chars(name);
    let len: usize = v.len();
    let date = match find_first(&v, '-') {
        Some(i) => match find_last(&v, '-') {
            Some(j) => if i < j {
                let d = string_of(&v, i + 1, j);
                assert(d@ =~= import_date(name@));
                d
            } else {
                let d = string_of(&v, i + 1, len);
                assert(d@ =~= import_date(name@));
                d
            },
            None => "a previous date".to_owned(),
        },
        None => "a previous date".to_owned(),
    };
    let mut out = "Already imported on ".to_owned();
    out.append(date.as_str());
    out.append(".");
    out
}

/// What is to be done with a source that may have been imported before.
#[derive(Debug)]
pub enum ImportPlan {
    /// It is new: import it.
    Import,
    /// It was imported before: forget that, then import it.
    PurgeThenImport,
    /// It was imported before: refuse it.
    Refuse(String),
}

/// What is to be done with a source, given the file name under which it is kept
/// already, if it is.
pub fn plan_import(known: Option<&str>, force: bool) -> (r: ImportPlan)
    ensures
        match known {
            None => r is Import,
            Some(name) => if force {
                r is PurgeThenImport
            } else {
                r matches ImportPlan::Refuse(m) && m@ == "Already imported on "@ + import_date(
                    name@,
                ) + "."@
            },
        },
{
    match known {
        None => ImportPlan::Import,
        Some(name) => if force {
            ImportPlan::PurgeThenImport
        } else {
            ImportPlan::Refuse(already_imported(name))
        },
    }
}

// The age of an export ---------------------------------------------------

/// The latest time at which one of the conversations changed, or zero.
pub open spec fn newest(convs: Seq<JsonTree>) -> Double
    decreases convs.len(),
{
    if convs.len() == 0 {
        Double { bits: ZERO_BITS }
    } else {
        let before = newest(convs.drop_last());
        match convs.last().at("update_time"@).as_double() {
            Some(t) => if before.below(t) {
                t
            } else {
                before
            },
            None => before,
        }
    }
}

/// The latest time at which one of the conversations changed, or zero.
pub fn newest_update(convs: &Vec<Json>) -> (r: Double)
    ensures
        r == newest(trees(convs@)),
{
    let ghost all = trees(convs@);
    let mut latest = Double { bits: ZERO_BITS };
    let mut i: usize = 0;
    assert(all.take(0) =~= Seq::<JsonTree>::empty());
    while i < convs.len()
        invariant
            i <= convs@.len(),
            all == trees(convs@),
            latest == newest(all.take(i as int)),
        decreases convs@.len() - i,
    {
        assert(all.take(i + 1).drop_last() =~= all.take(i as int));
        assert(all.take(i + 1).last() == convs@[i as int]@);
        match convs[i].get("update_time") {
            Some(v) => match v.as_double() {
                Some(t) => {
                    if latest.lt(t) {
                        latest = t;
                    }
                },
                None => {},
            },
            None => {},
        }
        i = i + 1;
    }
    assert(all.take(i as int) =~= all);
    latest
}

/// Whether a time is one after the start of 1970, so that it dates an export.
pub fn dates_export(newest: Double) -> (r: bool)
    ensures
        r == (Double { bits: ZERO_BITS }).below(newest),
{
    Double { bits: ZERO_BITS }.lt(newest)
}

// The visible path -------------------------------------------------------

/// The message above the one with the name.
pub open spec fn parent_of(mapping: JsonTree, id: Seq<char>) -> Option<Seq<char>> {
    mapping.at(id).str_at("parent"@)
}

/// The message `k` steps above the one with the name.
pub open spec fn ancestor(mapping: JsonTree, id: Seq<char>, k: nat) -> Option<Seq<char>>
    decreases k,
{
    if k == 0 {
        Some(id)
    } else {
        match ancestor(mapping, id, (k - 1) as nat) {
            Some(x) => parent_of(mapping, x),
            None => None,
        }
    }
}

/// Whether the message is on the path that the conversation shows: from its
/// current message up.
pub open spec fn on_visible_path(conv: JsonTree, id: Seq<char>) -> bool {
    conv.str_at("current_node"@) matches Some(c) && exists|k: nat| #[trigger]
        ancestor(conv.at("mapping"@), c, k) == Some(id)
}

/// The names of the entries.
pub open spec fn keys_of(entries: Seq<(Seq<char>, JsonTree)>) -> Seq<Seq<char>> {
    entries.map_values(|e: (Seq<char>, JsonTree)| e.0)
}

proof fn lemma_lookup_has_key(entries: Seq<(Seq<char>, JsonTree)>, key: Seq<char>)
    requires
        lookup(entries, key) is Some,
    ensures
        keys_of(entries).contains(key),
    decreases entries.len(),
{
    if entries.len() > 0 {
        if entries[0].0 == key {
            assert(keys_of(entries)[0] == key);
        } else {
            lemma_lookup_has_key(entries.drop_first(), key);
            let rest = keys_of(entries.drop_first());
            let i = choose|i: int| 0 <= i < rest.len() && rest[i] == key;
            assert(keys_of(entries)[i + 1] == key);
        }
    }
}

/// A sequence without repetitions is no longer than one that holds all of it.
pub proof fn lemma_no_longer(a: Seq<Seq<char>>, b: Seq<Seq<char>>)
    requires
        a.no_duplicates(),
        forall|i: int| 0 <= i < a.len() ==> b.contains(#[trigger] a[i]),
    ensures
        a.len() <= b.len(),
{
    a.unique_seq_to_set();
    b.lemma_cardinality_of_set();
    assert(a.to_set().subset_of(b.to_set())) by {
        assert forall|x: Seq<char>| a.to_set().contains(x) implies b.to_set().contains(x) by {
            let i = choose|i: int| 0 <= i < a.len() && a[i] == x;
            assert(b.contains(a[i]));
        }
    }
    vstd::set_lib::lemma_len_subset(a.to_set(), b.to_set());
}

/// Once the walk up comes to a message that it has passed, it stays among those.
proof fn lemma_walk_closes(
    mapping: JsonTree,
    c: Seq<char>,
    path: Seq<Seq<char>>,
    m: nat,
)
    requires
        forall|k: int|
            0 <= k < path.len() ==> ancestor(mapping, c, k as nat) == Some(#[trigger] path[k]),
        ancestor(mapping, c, path.len()) matches Some(x) ==> path.contains(x),
    ensures
        ancestor(mapping, c, m) matches Some(x) ==> path.contains(x),
    decreases m,
{
    if m < path.len() {
        assert(ancestor(mapping, c, m) == Some(path[m as int]));
    } else if m > path.len() {
        lemma_walk_closes(mapping, c, path, (m - 1) as nat);
        match ancestor(mapping, c, (m - 1) as nat) {
            Some(x) => {
                let i = choose|i: int| 0 <= i < path.len() && path[i] == x;
                assert(ancestor(mapping, c, i as nat) == Some(path[i]));
                assert(ancestor(mapping, c, (i + 1) as nat) == parent_of(mapping, x));
                if i + 1 < path.len() {
                    assert(ancestor(mapping, c, (i + 1) as nat) == Some(path[i + 1]));
                }
            },
            None => {},
        }
    }
}

/// The messages on the path that the conversation shows.
pub fn visible_path(conv: &Json) -> (r: Vec<String>)
    ensures
        forall|id: Seq<char>| #[trigger] texts(r@).contains(id) <==> on_visible_path(conv@, id),
{
    let mut path: Vec<String> = Vec::new();
    let start = match conv.str_at("current_node") {
        Some(s) => s.to_owned(),
        None => {
            assert(texts(path@) =~= Seq::<Seq<char>>::empty());
            return path;
        },
    };
    let null = Json::Null;
    let mapping = match conv.get("mapping") {
        Some(m) => m,
        None => &null,
    };
    let ghost c = start@;
    let ghost m = mapping@;
    assert(m == conv@.at("mapping"@));
    let ghost names = match m.as_object() {
        Some(e) => keys_of(e),
        None => Seq::empty(),
    };
    let mut cursor: Option<String> = Some(start);
    assert(texts(path@) =~= Seq::<Seq<char>>::empty());
    while cursor.is_some()
        invariant_except_break
            text_opt(cursor) == ancestor(m, c, path@.len()),
            cursor is Some ==> forall|k: int|
                0 <= k < path@.len() ==> names.contains(#[trigger] texts(path@)[k]),
            path@.len() <= names.len() + 1,
        invariant
            m == mapping@,
            names == (match m.as_object() {
                Some(e) => keys_of(e),
                None => Seq::empty(),
            }),
            texts(path@).no_duplicates(),
            forall|k: int|
                0 <= k < path@.len() ==> ancestor(m, c, k as nat) == Some(
                    #[trigger] texts(path@)[k],
                ),
        ensures
            ancestor(m, c, path@.len()) matches Some(x) ==> texts(path@).contains(x),
        decreases names.len() + 2 - path@.len(),
    {
        match cursor {
            None => {
                break ;
            },
            Some(id) => {
                if contains_text(&path, id.as_str()) {
                    break ;
                }
                proof {
                    lemma_no_longer(texts(path@), names);
                    crate::text::lemma_texts_push(path@, id);
                }
                let ghost before = texts(path@);
                let next = match mapping.get(id.as_str()) {
                    Some(n) => match n.str_at("parent") {
                        Some(p) => Some(p.to_owned()),
                        None => None,
                    },
                    None => None,
                };
                proof {
                    assert(text_opt(next) == parent_of(m, id@));
                    if next is Some {
                        assert(m.get(id@) is Some);
                        lemma_lookup_has_key(m->Object_0, id@);
                    }
                }
                path.push(id);
                cursor = next;
                proof {
                    let after = texts(path@);
                    assert(after == before.push(id@));
                    assert forall|k: int| 0 <= k < path@.len() implies ancestor(m, c, k as nat)
                        == Some(#[trigger] after[k]) by {
                        if k < before.len() {
                            assert(after[k] == before[k]);
                        }
                    }
                    assert(after.no_duplicates()) by {
                        assert forall|i: int, j: int|
                            0 <= i < after.len() && 0 <= j < after.len() && i != j implies after[i]
                            != after[j] by {
                            if i == before.len() {
                                assert(before[j] == after[j]);
                                assert(before.contains(before[j]));
                            } else if j == before.len() {
                                assert(before[i] == after[i]);
                                assert(before.contains(before[i]));
                            } else {
                                assert(before[i] == after[i] && before[j] == after[j]);
                            }
                        }
                    }
                    if cursor is Some {
                        assert forall|k: int| 0 <= k < path@.len() implies names.contains(
                            #[trigger] after[k],
                        ) by {
                            if k < before.len() {
                                assert(after[k] == before[k]);
                                assert(names.contains(before[k]));
                            }
                        }
                    }
                    assert(ancestor(m, c, path@.len()) == parent_of(m, id@));
                }
            },
        }
    }
    proof {
        let p = texts(path@);
        assert forall|id: Seq<char>| #[trigger] p.contains(id) <==> on_visible_path(conv@, id) by {
            if p.contains(id) {
                let k = choose|k: int| 0 <= k < p.len() && p[k] == id;
                assert(ancestor(m, c, k as nat) == Some(p[k]));
            }
            if on_visible_path(conv@, id) {
                let k = choose|k: nat| #[trigger] ancestor(m, c, k) == Some(id);
                lemma_walk_closes(m, c, p, k);
            }
        }
    }
    path
}

// Conversations ----------------------------------------------------------

/// A message of an export that is kept.
#[derive(Debug)]
pub struct ScannedMessage {
    pub message_id: String,
    pub parent_id: Option<String>,
    pub role: String,
    pub model: String,
    pub create_time: Double,
    pub on_visible_path: bool,
    pub text: String,
}

/// What a kept message holds.
pub ghost struct ScannedView {
    pub message_id: Seq<char>,
    pub parent_id: Option<Seq<char>>,
    pub role: Seq<char>,
    pub model: Seq<char>,
    pub create_time: Double,
    pub on_visible_path: bool,
    pub text: Seq<char>,
}

impl View for ScannedMessage {
    type V = ScannedView;

    open spec fn view(&self) -> ScannedView {
        ScannedView {
            message_id: self.message_id@,
            parent_id: text_opt(self.parent_id),
            role: self.role@,
            model: self.model@,
            create_time: self.create_time,
            on_visible_path: self.on_visible_path,
            text: self.text@,
        }
    }
}

/// The contents of a list of kept messages.
pub open spec fn scanned_views(v: Seq<ScannedMessage>) -> Seq<ScannedView> {
    v.map_values(|m: ScannedMessage| m@)
}

/// A conversation of an export that is kept.
#[derive(Debug)]
pub struct ScannedConversation {
    pub id: String,
    pub title: String,
    pub create_time: Double,
    pub update_time: Double,
    pub branch_count: u64,
    pub models: Vec<String>,
    pub messages: Vec<ScannedMessage>,
}

/// What a kept conversation holds.
pub ghost struct ConversationView {
    pub id: Seq<char>,
    pub title: Seq<char>,
    pub create_time: Double,
    pub update_time: Double,
    pub branch_count: nat,
    pub models: Seq<Seq<char>>,
    pub messages: Seq<ScannedView>,
}

impl View for ScannedConversation {
    type V = ConversationView;

    open spec fn view(&self) -> ConversationView {
        ConversationView {
            id: self.id@,
            title: self.title@,
            create_time: self.create_time,
            update_time: self.update_time,
            branch_count: self.branch_count as nat,
            models: texts(self.models@),
            messages: scanned_views(self.messages@),
        }
    }
}

/// The text, or what stands for none.
pub open spec fn text_or(s: Option<Seq<char>>, fallback: Seq<char>) -> Seq<char> {
    match s {
        Some(t) => t,
        None => fallback,
    }
}

/// The number, or zero.
pub open spec fn double_or_zero(t: JsonTree) -> Double {
    match t.as_double() {
        Some(d) => d,
        None => Double { bits: ZERO_BITS },
    }
}

/// Who wrote a message.
pub open spec fn role_of(msg: JsonTree) -> Seq<char> {
    text_or(msg.at("author"@).str_at("role"@), "unknown"@)
}

/// The model that a message names.
pub open spec fn model_of(msg: JsonTree) -> Seq<char> {
    text_or(msg.at("metadata"@).str_at("model_slug"@), "unknown"@)
}

/// The texts among the parts, each on a line of its own.
pub open spec fn parts_text(parts: Seq<JsonTree>) -> Seq<char>
    decreases parts.len(),
{
    if parts.len() == 0 {
        Seq::empty()
    } else {
        let before = parts_text(parts.drop_last());
        match parts.last().as_str() {
            Some(s) => before + s + "\n"@,
            None => before,
        }
    }
}

/// The text of a message.
pub open spec fn message_text(msg: JsonTree) -> Seq<char> {
    match msg.at("content"@).at("parts"@).as_array() {
        Some(parts) => parts_text(parts),
        None => Seq::empty(),
    }
}

/// The message of an entry, if the user wrote one.
pub open spec fn user_message(conv: JsonTree, e: (Seq<char>, JsonTree)) -> Option<ScannedView> {
    let msg = e.1.at("message"@);
    if msg is Object && role_of(msg) == "user"@ {
        Some(
            ScannedView {
                message_id: e.0,
                parent_id: e.1.str_at("parent"@),
                role: role_of(msg),
                model: model_of(msg),
                create_time: double_or_zero(msg.at("create_time"@)),
                on_visible_path: on_visible_path(conv, e.0),
                text: message_text(msg),
            },
        )
    } else {
        None
    }
}

/// The messages that the user wrote.
pub open spec fn user_messages_of(
    conv: JsonTree,
    entries: Seq<(Seq<char>, JsonTree)>,
) -> Seq<ScannedView>
    decreases entries.len(),
{
    if entries.len() == 0 {
        Seq::empty()
    } else {
        let before = user_messages_of(conv, entries.drop_last());
        match user_message(conv, entries.last()) {
            Some(m) => before.push(m),
            None => before,
        }
    }
}

/// How many messages have more than one answer.
pub open spec fn branches_of(entries: Seq<(Seq<char>, JsonTree)>) -> nat
    decreases entries.len(),
{
    if entries.len() == 0 {
        0
    } else {
        branches_of(entries.drop_last()) + (match entries.last().1.at("children"@).as_array() {
            Some(c) => if c.len() > 1 {
                1nat
            } else {
                0nat
            },
            None => 0nat,
        })
    }
}

/// The models that messages name, each once.
pub open spec fn models_of(entries: Seq<(Seq<char>, JsonTree)>) -> Seq<Seq<char>>
    decreases entries.len(),
{
    if entries.len() == 0 {
        Seq::empty()
    } else {
        let before = models_of(entries.drop_last());
        let msg = entries.last().1.at("message"@);
        if msg is Object && model_of(msg) != "unknown"@ && !before.contains(model_of(msg)) {
            before.push(model_of(msg))
        } else {
            before
        }
    }
}

/// What is kept of a conversation, if it has messages that the user wrote.
pub open spec fn scan_of(conv: JsonTree) -> Option<ConversationView> {
    match conv.at("mapping"@).as_object() {
        None => None,
        Some(entries) => {
            let messages = user_messages_of(conv, entries);
            if messages.len() == 0 {
                None
            } else {
                Some(
                    ConversationView {
                        id: text_or(conv.str_at("id"@), "unknown_id"@),
                        title: text_or(conv.str_at("title"@), "Untitled"@),
                        create_time: double_or_zero(conv.at("create_time"@)),
                        update_time: double_or_zero(conv.at("update_time"@)),
                        branch_count: branches_of(entries),
                        models: models_of(entries),
                        messages,
                    },
                )
            }
        },
    }
}

fn str_or(v: &Json, key: &str, fallback: &str) -> (r: String)
    ensures
        r@ == text_or(v@.str_at(key@), fallback@),
{
    match v.str_at(key) {
        Some(s) => s.to_owned(),
        None => fallback.to_owned(),
    }
}

fn double_at(v: &Json, key: &str) -> (r: Double)
    ensures
        r == double_or_zero(v@.at(key@)),
{
    match v.get(key) {
        Some(x) => match x.as_double() {
            Some(d) => d,
            None => Double { bits: ZERO_BITS },
        },
        None => Double { bits: ZERO_BITS },
    }
}

fn nested_str_or(v: &Json, outer: &str, key: &str, fallback: &str) -> (r: String)
    ensures
        r@ == text_or(v@.at(outer@).str_at(key@), fallback@),
{
    match v.get(outer) {
        Some(x) => str_or(x, key, fallback),
        None => fallback.to_owned(),
    }
}

fn read_text(msg: &Json) -> (r: String)
    ensures
        r@ == message_text(msg@),
{
    let mut out = String::new();
    let parts = match msg.get("content") {
        Some(c) => match c.get("parts") {
            Some(p) => p.as_array(),
            None => None,
        },
        None => None,
    };
    match parts {
        Some(v) => {
            let ghost all = trees(v@);
            let mut i: usize = 0;
            assert(all.take(0) =~= Seq::<JsonTree>::empty());
            assert(out@ =~= Seq::<char>::empty());
            while i < v.len()
                invariant
                    i <= v@.len(),
                    all == trees(v@),
                    out@ == parts_text(all.take(i as int)),
                decreases v@.len() - i,
            {
                assert(all.take(i + 1).drop_last() =~= all.take(i as int));
                assert(all.take(i + 1).last() == v@[i as int]@);
                match v[i].as_str() {
                    Some(s) => {
                        out.append(s);
                        out.append("\n");
                    },
                    None => {},
                }
                i = i + 1;
            }
            assert(all.take(i as int) =~= all);
        },
        None => {
            assert(out@ =~= message_text(msg@));
        },
    }
    out
}

fn branches(node: &Json) -> (r: bool)
    ensures
        r == (node@.at("children"@).as_array() matches Some(c) && c.len() > 1),
{
    match node.get("children") {
        Some(c) => match c.as_array() {
            Some(v) => v.len() > 1,
            None => false,
        },
        None => false,
    }
}

/// Reads what is kept of a conversation, if it has messages that the user wrote.
pub fn scan_conversation(conv: &Json) -> (r: Option<ScannedConversation>)
    ensures
        match r {
            Some(c) => scan_of(conv@) == Some(c@),
            None => scan_of(conv@) is None,
        },
{
    let entries = match conv.get("mapping") {
        Some(m) => match m.as_object() {
            Some(e) => e,
            None => {
                return None;
            },
        },
        None => {
            return None;
        },
    };
    let visible = visible_path(conv);
    let ghost all = entry_trees(entries@);
    let mut branch_count: usize = 0;
    let mut models: Vec<String> = Vec::new();
    let mut messages: Vec<ScannedMessage> = Vec::new();
    let mut i: usize = 0;
    assert(all.take(0) =~= Seq::<(Seq<char>, JsonTree)>::empty());
    assert(texts(models@) =~= Seq::<Seq<char>>::empty());
    assert(scanned_views(messages@) =~= Seq::<ScannedView>::empty());
    while i < entries.len()
        invariant
            i <= entries@.len(),
            all == entry_trees(entries@),
            conv@.at("mapping"@).as_object() == Some(all),
            forall|id: Seq<char>| #[trigger]
                texts(visible@).contains(id) <==> on_visible_path(conv@, id),
            branch_count == branches_of(all.take(i as int)),
            branch_count <= i,
            texts(models@) == models_of(all.take(i as int)),
            scanned_views(messages@) == user_messages_of(conv@, all.take(i as int)),
        decreases entries@.len() - i,
    {
        let ghost e = all[i as int];
        proof {
            assert(all.take(i + 1).drop_last() =~= all.take(i as int));
            assert(all.take(i + 1).last() == e);
            assert(e == (entries@[i as int].0@, entries@[i as int].1@));
        }
        let node = &entries[i].1;
        if branches(node) {
            branch_count = branch_count + 1;
        }
        let found = match node.get("message") {
            Some(m) => if m.as_object().is_some() {
                Some(m)
            } else {
                None
            },
            None => None,
        };
        match found {
            None => {},
            Some(msg) => {
                let role = nested_str_or(msg, "author", "role", "unknown");
                let model = nested_str_or(msg, "metadata", "model_slug", "unknown");
                if !same(model.as_str(), "unknown") && !contains_text(&models, model.as_str()) {
                    let named = model.clone();
                    proof {
                        crate::text::lemma_texts_push(models@, named);
                    }
                    models.push(named);
                }
                if same(role.as_str(), "user") {
                    let parent_id = match node.str_at("parent") {
                        Some(p) => Some(p.to_owned()),
                        None => None,
                    };
                    let m = ScannedMessage {
                        message_id: entries[i].0.clone(),
                        parent_id,
                        role,
                        model,
                        create_time: double_at(msg, "create_time"),
                        on_visible_path: contains_text(&visible, entries[i].0.as_str()),
                        text: read_text(msg),
                    };
                    proof {
                        assert(user_message(conv@, e) == Some(m@));
                        assert(scanned_views(messages@.push(m)) =~= scanned_views(messages@).push(
                            m@,
                        ));
                    }
                    messages.push(m);
                }
            },
        }
        i = i + 1;
    }
    assert(all.take(i as int) =~= all);
    assert(scanned_views(messages@).len() == messages@.len());
    if messages.len() == 0 {
        return None;
    }
    Some(
        ScannedConversation {
            id: str_or(conv, "id", "unknown_id"),
            title: str_or(conv, "title", "Untitled"),
            create_time: double_at(conv, "create_time"),
            update_time: double_at(conv, "update_time"),
            branch_count: branch_count as u64,
            models,
            messages,
        },
    )
}

/// The conversations that are kept.
pub open spec fn scans_of(convs: Seq<JsonTree>) -> Seq<ConversationView>
    decreases convs.len(),
{
    if convs.len() == 0 {
        Seq::empty()
    } else {
        let before = scans_of(convs.drop_last());
        match scan_of(convs.last()) {
            Some(c) => before.push(c),
            None => before,
        }
    }
}

/// The contents of a list of kept conversations.
pub open spec fn conversation_views(v: Seq<ScannedConversation>) -> Seq<ConversationView> {
    v.map_values(|c: ScannedConversation| c@)
}

/// Reads the conversations that are kept, and counts the others.
pub fn scan_export(convs: &Vec<Json>) -> (r: (Vec<ScannedConversation>, usize))
    ensures
        conversation_views(r.0@) == scans_of(trees(convs@)),
        r.0@.len() + r.1 == convs@.len(),
{
    let ghost all = trees(convs@);
    let mut out: Vec<ScannedConversation> = Vec::new();
    let mut skipped: usize = 0;
    let mut i: usize = 0;
    assert(all.take(0) =~= Seq::<JsonTree>::empty());
    assert(conversation_views(out@) =~= Seq::<ConversationView>::empty());
    while i < convs.len()
        invariant
            i <= convs@.len(),
            all == trees(convs@),
            conversation_views(out@) == scans_of(all.take(i as int)),
            out@.len() + skipped == i,
        decreases convs@.len() - i,
    {
        assert(all.take(i + 1).drop_last() =~= all.take(i as int));
        assert(all.take(i + 1).last() == convs@[i as int]@);
        match scan_conversation(&convs[i]) {
            Some(c) => {
                assert(conversation_views(out@.push(c)) =~= conversation_views(out@).push(c@));
                out.push(c);
            },
            None => {
                skipped = skipped + 1;
            },
        }
        i = i + 1;
    }
    assert(all.take(i as int) =~= all);
    (out, skipped)
}

// What is stored ---------------------------------------------------------

/// Whether the stored messages are those of the conversation.
pub open spec fn stores(s: Seq<StoredUserMessage>, messages: Seq<ScannedView>) -> bool {
    s.len() == messages.len() && forall|i: int|
        0 <= i < s.len() ==> {
            &&& (#[trigger] s[i]).message_id@ == messages[i].message_id
            &&& s[i].create_time == messages[i].create_time
            &&& s[i].on_visible_path == messages[i].on_visible_path
            &&& s[i].text@ == messages[i].text
        }
}

/// The messages of a conversation as they are cached: in the order in which they
/// were written.
pub fn cached_messages(c: &ScannedConversation) -> (r: Vec<StoredUserMessage>)
    ensures
        exists|s: Seq<StoredUserMessage>| #[trigger]
            stores(s, c@.messages) && r@ == arranged(s),
{
    let mut out: Vec<StoredUserMessage> = Vec::new();
    let mut i: usize = 0;
    while i < c.messages.len()
        invariant
            i <= c.messages@.len(),
            stores(out@, c@.messages.take(i as int)),
        decreases c.messages@.len() - i,
    {
        let ghost before = out@;
        let m = StoredUserMessage {
            message_id: c.messages[i].message_id.clone(),
            create_time: c.messages[i].create_time,
            on_visible_path: c.messages[i].on_visible_path,
            text: c.messages[i].text.clone(),
        };
        out.push(m);
        proof {
            let next = c@.messages.take(i + 1);
            assert(next[i as int] == c.messages@[i as int]@);
            assert forall|k: int| 0 <= k < out@.len() implies {
                &&& (#[trigger] out@[k]).message_id@ == next[k].message_id
                &&& out@[k].create_time == next[k].create_time
                &&& out@[k].on_visible_path == next[k].on_visible_path
                &&& out@[k].text@ == next[k].text
            } by {
                if k < i {
                    assert(out@[k] == before[k]);
                    assert(next[k] == c@.messages.take(i as int)[k]);
                }
            }
        }
        i = i + 1;
    }
    assert(c@.messages.take(i as int) =~= c@.messages);
    assert(stores(out@, c@.messages));
    sort_messages(out)
}

/// The length of the texts in all, in bytes.
pub open spec fn text_bytes(messages: Seq<ScannedView>) -> nat
    decreases messages.len(),
{
    if messages.len() == 0 {
        0
    } else {
        text_bytes(messages.drop_last()) + bytes_of(messages.last().text)
    }
}

/// The length of a conversation's texts in all, in bytes, or the largest number
/// there is.
pub fn char_count(c: &ScannedConversation) -> (r: u64)
    ensures
        r == if text_bytes(c@.messages) <= u64::MAX {
            text_bytes(c@.messages)
        } else {
            u64::MAX as nat
        },
{
    let ghost all = c@.messages;
    let mut total: u64 = 0;
    let mut i: usize = 0;
    assert(all.take(0) =~= Seq::<ScannedView>::empty());
    while i < c.messages.len()
        invariant
            i <= c.messages@.len(),
            all == c@.messages,
            total == if text_bytes(all.take(i as int)) <= u64::MAX {
                text_bytes(all.take(i as int))
            } else {
                u64::MAX as nat
            },
        decreases c.messages@.len() - i,
    {
        assert(all.take(i + 1).drop_last() =~= all.take(i as int));
        assert(all.take(i + 1).last() == c.messages@[i as int]@);
        let n: u64 = byte_len(c.messages[i].text.as_str()) as u64;
        total = if n > u64::MAX - total {
            u64::MAX
        } else {
            total + n
        };
        i = i + 1;
    }
    assert(all.take(i as int) =~= all);
    total
}

/// The properties of a conversation's node.
pub open spec fn conversation_props(c: ConversationView, content_hash: Seq<char>) -> JsonTree {
    JsonTree::Object(
        seq![
            ("branch_count"@, integer(c.branch_count as u64)),
            ("chatgpt_created"@, decimal_number(c.create_time)),
            ("chatgpt_updated"@, decimal_number(c.update_time)),
            ("content_hash"@, JsonTree::Str(content_hash)),
            ("models"@, text_array(c.models)),
            ("title"@, JsonTree::Str(c.title)),
            ("turn_count"@, integer(c.messages.len() as u64)),
        ],
    )
}

/// The properties of a conversation's node.
pub fn props_for(c: &ScannedConversation, content_hash: &str) -> (r: Json)
    ensures
        r@ == conversation_props(c@, content_hash@),
{
    assert(c@.messages.len() == c.messages@.len());
    let mut b = ObjectBuilder::new();
    b.entry("branch_count", json_integer(c.branch_count));
    b.entry("chatgpt_created", json_double(c.create_time));
    b.entry("chatgpt_updated", json_double(c.update_time));
    b.entry("content_hash", Json::text(content_hash));
    b.entry("models", json_texts(&c.models));
    b.entry("title", Json::text(c.title.as_str()));
    b.entry("turn_count", json_integer(c.messages.len() as u64));
    let r = b.finish();
    assert(r@->Object_0 =~= conversation_props(c@, content_hash@)->Object_0);
    r
}

// Laws -------------------------------------------------------------------

/// Only what the user wrote is kept, each message with its own name, and a
/// message is visible exactly if it is on the path from the current message up.
pub proof fn only_user_messages_are_kept(
    conv: JsonTree,
    entries: Seq<(Seq<char>, JsonTree)>,
)
    ensures
        forall|i: int|
            0 <= i < user_messages_of(conv, entries).len() ==> (#[trigger] user_messages_of(
                conv,
                entries,
            )[i]).role == "user"@ && keys_of(entries).contains(
                user_messages_of(conv, entries)[i].message_id,
            ) && user_messages_of(conv, entries)[i].on_visible_path == on_visible_path(
                conv,
                user_messages_of(conv, entries)[i].message_id,
            ),
    decreases entries.len(),
{
    if entries.len() > 0 {
        let rest = entries.drop_last();
        only_user_messages_are_kept(conv, rest);
        let before = user_messages_of(conv, rest);
        let after = user_messages_of(conv, entries);
        assert forall|i: int| 0 <= i < after.len() implies (#[trigger] after[i]).role == "user"@
            && keys_of(entries).contains(after[i].message_id) && after[i].on_visible_path
            == on_visible_path(conv, after[i].message_id) by {
            if i < before.len() {
                assert(after[i] == before[i]);
                assert(keys_of(rest).contains(before[i].message_id));
                let k = choose|k: int|
                    0 <= k < keys_of(rest).len() && keys_of(rest)[k] == before[i].message_id;
                assert(keys_of(entries)[k] == before[i].message_id);
            } else {
                assert(keys_of(entries)[entries.len() - 1] == after[i].message_id);
            }
        }
    }
}

/// The current message of a conversation is visible, and so is every message
/// above a visible one.
pub proof fn the_visible_path_goes_up(conv: JsonTree, id: Seq<char>)
    ensures
        conv.str_at("current_node"@) matches Some(c) ==> on_visible_path(conv, c),
        on_visible_path(conv, id) ==> (parent_of(conv.at("mapping"@), id) matches Some(p)
            ==> on_visible_path(conv, p)),
{
    match conv.str_at("current_node"@) {
        Some(c) => {
            let m = conv.at("mapping"@);
            assert(ancestor(m, c, 0) == Some(c));
            if on_visible_path(conv, id) {
                let k = choose|k: nat| #[trigger] ancestor(m, c, k) == Some(id);
                assert(ancestor(m, c, k + 1) == parent_of(m, id));
            }
        },
        None => {},
    }
}

/// No model is listed twice, and none that is unknown.
pub proof fn models_are_listed_once(entries: Seq<(Seq<char>, JsonTree)>)
    ensures
        models_of(entries).no_duplicates(),
        !models_of(entries).contains("unknown"@),
    decreases entries.len(),
{
    if entries.len() > 0 {
        models_are_listed_once(entries.drop_last());
        let before = models_of(entries.drop_last());
        let after = models_of(entries);
        assert forall|i: int, j: int|
            0 <= i < after.len() && 0 <= j < after.len() && i != j implies after[i] != after[j] by {
            if i == before.len() {
                assert(after[j] == before[j]);
                assert(before.contains(before[j]));
            } else if j == before.len() {
                assert(after[i] == before[i]);
                assert(before.contains(before[i]));
            } else {
                assert(after[i] == before[i] && after[j] == before[j]);
            }
        }
        if after.contains("unknown"@) {
            let i = choose|i: int| 0 <= i < after.len() && after[i] == "unknown"@;
            if i < before.len() {
                assert(before[i] == "unknown"@);
                assert(before.contains("unknown"@));
            }
        }
    }
}

/// Of a conversation every message is kept that the user wrote, on the visible path
/// or off it, once and in the order of the entries, and no other: those of the
/// entries whose message has an author with the role `user`. Each is kept as it
/// stands: under the entry's key, with the entry's parent, the message's time and
/// model, and its parts that are texts, each ended by a line break.
pub proof fn every_user_message_is_kept(conv: JsonTree)
    ensures
        conv.at("mapping"@).as_object() matches Some(entries) ==> {
            let wrote = |e: (Seq<char>, JsonTree)|
                e.1.at("message"@) is Object && e.1.at("message"@).at("author"@).at("role"@)
                    == JsonTree::Str("user"@);
            let wanted = entries.filter(wrote);
            &&& scan_of(conv) is None <==> wanted.len() == 0
            &&& scan_of(conv) matches Some(c) ==> {
                &&& c.messages.len() == wanted.len()
                &&& forall|i: int|
                    0 <= i < wanted.len() ==> {
                        let m = #[trigger] c.messages[i];
                        let told = wanted[i].1.at("message"@);
                        &&& m.message_id == wanted[i].0
                        &&& m.role == "user"@
                        &&& match wanted[i].1.at("parent"@) {
                            JsonTree::Str(p) => m.parent_id == Some(p),
                            _ => m.parent_id is None,
                        }
                        &&& match told.at("metadata"@).at("model_slug"@) {
                            JsonTree::Str(s) => m.model == s,
                            _ => m.model == "unknown"@,
                        }
                        &&& match told.at("create_time"@) {
                            JsonTree::Number(n) => m.create_time == n.double,
                            _ => m.create_time.bits == 0,
                        }
                        &&& match told.at("content"@).at("parts"@) {
                            JsonTree::Array(parts) => m.text == parts.filter(
                                |p: JsonTree| p is Str,
                            ).map_values(|p: JsonTree| p->Str_0 + seq!['\n']).flatten(),
                            _ => m.text.len() == 0,
                        }
                    }
            }
        },
        !(conv.at("mapping"@) is Object) ==> scan_of(conv) is None,
{
    match conv.at("mapping"@).as_object() {
        None => {},
        Some(entries) => {
            let wrote = |e: (Seq<char>, JsonTree)|
                e.1.at("message"@) is Object && e.1.at("message"@).at("author"@).at("role"@)
                    == JsonTree::Str("user"@);
            let wanted = entries.filter(wrote);
            lemma_user_messages(conv, entries);
            let kept = user_messages_of(conv, entries);
            assert(kept.len() == wanted.len());
            assert forall|i: int| 0 <= i < wanted.len() implies ({
                let m = #[trigger] kept[i];
                let told = wanted[i].1.at("message"@);
                &&& m.message_id == wanted[i].0
                &&& m.role == "user"@
                &&& match told.at("content"@).at("parts"@) {
                    JsonTree::Array(parts) => m.text == parts.filter(
                        |p: JsonTree| p is Str,
                    ).map_values(|p: JsonTree| p->Str_0 + seq!['\n']).flatten(),
                    _ => m.text.len() == 0,
                }
            }) by {
                let told = wanted[i].1.at("message"@);
                assert(user_message(conv, wanted[i]) == Some(kept[i]));
                match told.at("content"@).at("parts"@) {
                    JsonTree::Array(parts) => {
                        lemma_parts(parts);
                    },
                    _ => {},
                }
            }
        },
    }
}

proof fn lemma_user_messages(conv: JsonTree, entries: Seq<(Seq<char>, JsonTree)>)
    ensures
        ({
            let wrote = |e: (Seq<char>, JsonTree)|
                e.1.at("message"@) is Object && e.1.at("message"@).at("author"@).at("role"@)
                    == JsonTree::Str("user"@);
            let wanted = entries.filter(wrote);
            let kept = user_messages_of(conv, entries);
            &&& kept.len() == wanted.len()
            &&& forall|i: int|
                0 <= i < kept.len() ==> user_message(conv, wanted[i]) == Some(#[trigger] kept[i])
        }),
    decreases entries.len(),
{
    let wrote = |e: (Seq<char>, JsonTree)|
        e.1.at("message"@) is Object && e.1.at("message"@).at("author"@).at("role"@)
            == JsonTree::Str("user"@);
    reveal(Seq::filter);
    if entries.len() > 0 {
        lemma_user_messages(conv, entries.drop_last());
        let e = entries.last();
        reveal_strlit("unknown");
        reveal_strlit("user");
        assert("unknown"@.len() == 7 && "user"@.len() == 4);
        assert(user_message(conv, e) is Some <==> wrote(e));
    }
}

proof fn lemma_parts(parts: Seq<JsonTree>)
    ensures
        parts_text(parts) == parts.filter(|p: JsonTree| p is Str).map_values(
            |p: JsonTree| p->Str_0 + seq!['\n'],
        ).flatten(),
    decreases parts.len(),
{
    let p = |p: JsonTree| p is Str;
    let f = |p: JsonTree| p->Str_0 + seq!['\n'];
    reveal(Seq::filter);
    reveal_strlit("\n");
    assert("\n"@ =~= seq!['\n']);
    let lines = parts.filter(p).map_values(f);
    if parts.len() > 0 {
        let rest = parts.drop_last();
        lemma_parts(rest);
        let before = rest.filter(p).map_values(f);
        if p(parts.last()) {
            assert(lines =~= before.push(f(parts.last())));
            before.lemma_flatten_push(f(parts.last()));
            assert(parts_text(parts) =~= parts_text(rest) + f(parts.last()));
        } else {
            assert(lines =~= before);
        }
    } else {
        assert(lines =~= Seq::<Seq<char>>::empty());
        assert(lines.flatten() =~= Seq::<char>::empty());
    }
}

/// A conversation is kept under its own name and title, with its times, the number
/// of its messages that have more than one answer, and the models that its messages
/// name.
pub proof fn conversations_are_kept_as_they_are(conv: JsonTree)
    ensures
        scan_of(conv) matches Some(c) ==> {
            let entries = conv.at("mapping"@)->Object_0;
            &&& match conv.at("id"@) {
                JsonTree::Str(s) => c.id == s,
                _ => c.id == "unknown_id"@,
            }
            &&& match conv.at("title"@) {
                JsonTree::Str(s) => c.title == s,
                _ => c.title == "Untitled"@,
            }
            &&& match conv.at("create_time"@) {
                JsonTree::Number(n) => c.create_time == n.double,
                _ => c.create_time.bits == 0,
            }
            &&& match conv.at("update_time"@) {
                JsonTree::Number(n) => c.update_time == n.double,
                _ => c.update_time.bits == 0,
            }
            &&& c.branch_count == entries.filter(
                |e: (Seq<char>, JsonTree)|
                    e.1.at("children"@) is Array && e.1.at("children"@)->Array_0.len() >= 2,
            ).len()
            &&& c.models.no_duplicates()
            &&& forall|m: Seq<char>| #[trigger]
                c.models.contains(m) <==> m != "unknown"@ && exists|i: int|
                    0 <= i < entries.len() && (#[trigger] entries[i]).1.at("message"@) is Object
                        && entries[i].1.at("message"@).at("metadata"@).at("model_slug"@)
                        == JsonTree::Str(m)
        },
{
    match scan_of(conv) {
        None => {},
        Some(c) => {
            let entries = conv.at("mapping"@)->Object_0;
            lemma_branches(entries);
            models_are_listed_once(entries);
            lemma_models(entries);
        },
    }
}

proof fn lemma_branches(entries: Seq<(Seq<char>, JsonTree)>)
    ensures
        branches_of(entries) == entries.filter(
            |e: (Seq<char>, JsonTree)|
                e.1.at("children"@) is Array && e.1.at("children"@)->Array_0.len() >= 2,
        ).len(),
    decreases entries.len(),
{
    reveal(Seq::filter);
    if entries.len() > 0 {
        lemma_branches(entries.drop_last());
    }
}

proof fn lemma_models(entries: Seq<(Seq<char>, JsonTree)>)
    ensures
        forall|m: Seq<char>| #[trigger]
            models_of(entries).contains(m) <==> m != "unknown"@ && exists|i: int|
                0 <= i < entries.len() && (#[trigger] entries[i]).1.at("message"@) is Object
                    && entries[i].1.at("message"@).at("metadata"@).at("model_slug"@)
                    == JsonTree::Str(m),
    decreases entries.len(),
{
    let after = models_of(entries);
    if entries.len() > 0 {
        let rest = entries.drop_last();
        lemma_models(rest);
        let before = models_of(rest);
        let last = entries.last();
        assert forall|m: Seq<char>| #[trigger] after.contains(m) <==> m != "unknown"@ && exists|
            i: int,
        |
            0 <= i < entries.len() && (#[trigger] entries[i]).1.at("message"@) is Object
                && entries[i].1.at("message"@).at("metadata"@).at("model_slug"@) == JsonTree::Str(
                m,
            ) by {
            if after.contains(m) {
                let k = choose|k: int| 0 <= k < after.len() && after[k] == m;
                if k < before.len() {
                    assert(before[k] == m);
                    assert(before.contains(m));
                    let i = choose|i: int|
                        0 <= i < rest.len() && (#[trigger] rest[i]).1.at("message"@) is Object
                            && rest[i].1.at("message"@).at("metadata"@).at("model_slug"@)
                            == JsonTree::Str(m);
                    assert(entries[i] == rest[i]);
                } else {
                    assert(entries[entries.len() - 1] == last);
                }
            }
            if m != "unknown"@ && exists|i: int|
                0 <= i < entries.len() && (#[trigger] entries[i]).1.at("message"@) is Object
                    && entries[i].1.at("message"@).at("metadata"@).at("model_slug"@)
                    == JsonTree::Str(m) {
                let i = choose|i: int|
                    0 <= i < entries.len() && (#[trigger] entries[i]).1.at("message"@) is Object
                        && entries[i].1.at("message"@).at("metadata"@).at("model_slug"@)
                        == JsonTree::Str(m);
                if i < rest.len() {
                    assert(rest[i] == entries[i]);
                    assert(before.contains(m));
                }
                if before.contains(m) {
                    let k = choose|k: int| 0 <= k < before.len() && before[k] == m;
                    assert(after[k] == m);
                } else {
                    assert(after[before.len() as int] == m);
                }
            }
        }
    } else {
        assert forall|m: Seq<char>| !(#[trigger] after.contains(m)) by {}
    }
}

/// What is visible is the current message and what lies above it, and nothing else:
/// every visible message that is not the current one is the parent of a visible one.
pub proof fn nothing_else_is_visible(conv: JsonTree, id: Seq<char>)
    ensures
        !(conv.at("current_node"@) is Str) ==> !on_visible_path(conv, id),
        on_visible_path(conv, id) && conv.at("current_node"@) != JsonTree::Str(id) ==> exists|
            child: Seq<char>,
        | #[trigger]
            on_visible_path(conv, child) && conv.at("mapping"@).at(child).at("parent"@)
                == JsonTree::Str(id),
        conv.at("current_node"@) matches JsonTree::Str(c) ==> on_visible_path(conv, c),
        on_visible_path(conv, id) ==> (conv.at("mapping"@).at(id).at("parent"@) matches
            JsonTree::Str(p) ==> on_visible_path(conv, p)),
{
    the_visible_path_goes_up(conv, id);
    if on_visible_path(conv, id) && conv.at("current_node"@) != JsonTree::Str(id) {
        let c = conv.str_at("current_node"@)->0;
        let m = conv.at("mapping"@);
        let k = choose|k: nat| #[trigger] ancestor(m, c, k) == Some(id);
        assert(k > 0);
        let child = ancestor(m, c, (k - 1) as nat)->0;
        assert(ancestor(m, c, (k - 1) as nat) == Some(child));
        assert(on_visible_path(conv, child));
    }
}

/// Of an export every conversation is kept in which the user wrote something, in
/// order, and no other.
pub proof fn exports_are_read_whole(convs: Seq<JsonTree>)
    ensures
        scans_of(convs) == convs.filter(|c: JsonTree| scan_of(c) is Some).map_values(
            |c: JsonTree| scan_of(c)->0,
        ),
    decreases convs.len(),
{
    reveal(Seq::filter);
    let f = |c: JsonTree| scan_of(c)->0;
    let p = |c: JsonTree| scan_of(c) is Some;
    if convs.len() > 0 {
        exports_are_read_whole(convs.drop_last());
        assert(scans_of(convs) =~= convs.filter(p).map_values(f));
    } else {
        assert(scans_of(convs) =~= convs.filter(p).map_values(f));
    }
}

/// The newest time of an export is the time of one of its conversations, or zero,
/// and no conversation changed later.
pub proof fn the_newest_time_is_the_latest(convs: Seq<JsonTree>)
    ensures
        newest(convs).bits == 0 || exists|i: int|
            0 <= i < convs.len() && (#[trigger] convs[i]).at("update_time"@).as_double() == Some(
                newest(convs),
            ),
        !newest(convs).is_nan(),
        forall|i: int|
            0 <= i < convs.len() ==> ((#[trigger] convs[i]).at("update_time"@) matches
                JsonTree::Number(n) ==> !newest(convs).below(n.double)),
    decreases convs.len(),
{
    if convs.len() > 0 {
        let rest = convs.drop_last();
        the_newest_time_is_the_latest(rest);
        assert forall|i: int| 0 <= i < convs.len() implies ((#[trigger] convs[i]).at(
            "update_time"@,
        ) matches JsonTree::Number(n) ==> !newest(convs).below(n.double)) by {
            if i < rest.len() {
                assert(rest[i] == convs[i]);
            }
        }
        if newest(convs) == newest(rest) {
            if newest(rest).bits != 0 {
                let i = choose|i: int|
                    0 <= i < rest.len() && (#[trigger] rest[i]).at("update_time"@).as_double()
                        == Some(newest(rest));
                assert(convs[i] == rest[i]);
            }
        } else {
            assert(convs[convs.len() - 1] == convs.last());
        }
    }
}

/// The properties of a conversation's node tell its title, its times, how many
/// messages the user wrote, how often it branches, its models and its checksum.
pub proof fn conversation_properties_tell(c: ConversationView, content_hash: Seq<char>)
    requires
        c.messages.len() <= u64::MAX,
        c.branch_count <= u64::MAX,
    ensures
        ({
            let p = conversation_props(c, content_hash);
            &&& p.at("turn_count"@) matches JsonTree::Number(n) && n.unsigned == Some(
                c.messages.len() as u64,
            )
            &&& p.at("branch_count"@) matches JsonTree::Number(n) && n.unsigned == Some(
                c.branch_count as u64,
            )
            &&& p.at("title"@) == JsonTree::Str(c.title)
            &&& p.at("content_hash"@) == JsonTree::Str(content_hash)
            &&& p.at("models"@) == text_array(c.models)
            &&& c.create_time.is_finite() ==> p.at("chatgpt_created"@).as_double() == Some(
                c.create_time,
            )
            &&& c.update_time.is_finite() ==> p.at("chatgpt_updated"@).as_double() == Some(
                c.update_time,
            )
        }),
{
    reveal_strlit("branch_count");
    reveal_strlit("chatgpt_created");
    reveal_strlit("chatgpt_updated");
    reveal_strlit("content_hash");
    reveal_strlit("models");
    reveal_strlit("title");
    reveal_strlit("turn_count");
    assert("branch_count"@.len() == 12 && "chatgpt_created"@.len() == 15
        && "chatgpt_updated"@.len() == 15 && "content_hash"@.len() == 12 && "models"@.len() == 6
        && "title"@.len() == 5 && "turn_count"@.len() == 10);
    assert("branch_count"@[0] == 'b' && "content_hash"@[0] == 'c');
    assert("chatgpt_created"@[8] == 'c' && "chatgpt_updated"@[8] == 'u');
    let e = conversation_props(c, content_hash)->Object_0;
    let e1 = e.drop_first();
    let e2 = e1.drop_first();
    let e3 = e2.drop_first();
    let e4 = e3.drop_first();
    let e5 = e4.drop_first();
    let e6 = e5.drop_first();
    assert(e1[0] == e[1] && e2[0] == e[2] && e3[0] == e[3] && e4[0] == e[4] && e5[0] == e[5]
        && e6[0] == e[6]);
    reveal_with_fuel(lookup, 8);
}

proof fn lemma_first_at(a: Seq<char>, b: Seq<char>, c: char)
    requires
        forall|i: int| 0 <= i < a.len() ==> #[trigger] a[i] != c,
    ensures
        first_at(a + seq![c] + b, c) == Some(a.len() as int),
        first_at(a, c) is None,
    decreases a.len(),
{
    let s = a + seq![c] + b;
    if a.len() > 0 {
        let rest = a.drop_first();
        assert forall|i: int| 0 <= i < rest.len() implies #[trigger] rest[i] != c by {
            assert(rest[i] == a[i + 1]);
        }
        lemma_first_at(rest, b, c);
        assert(s.drop_first() =~= rest + seq![c] + b);
        assert(s[0] == a[0]);
    } else {
        assert(s[0] == c);
    }
}

proof fn lemma_last_at(a: Seq<char>, b: Seq<char>, c: char)
    requires
        forall|i: int| 0 <= i < b.len() ==> #[trigger] b[i] != c,
    ensures
        last_at(a + seq![c] + b, c) == Some(a.len() as int),
    decreases b.len(),
{
    let s = a + seq![c] + b;
    if b.len() > 0 {
        let rest = b.drop_last();
        lemma_last_at(a, rest, c);
        assert(s.drop_last() =~= a + seq![c] + rest);
        assert(s.last() == b[b.len() - 1]);
    } else {
        assert(s.last() == c);
    }
}

/// The date in a name is what stands between its first dash and its last; where there
/// is only one dash, what stands after it; and where there is none, a date before.
pub proof fn dates_stand_between_the_dashes(a: Seq<char>, date: Seq<char>, b: Seq<char>)
    requires
        forall|i: int| 0 <= i < a.len() ==> #[trigger] a[i] != '-',
        forall|i: int| 0 <= i < b.len() ==> #[trigger] b[i] != '-',
    ensures
        import_date(a + seq!['-'] + date + seq!['-'] + b) == date,
        import_date(a + seq!['-'] + b) == b,
        import_date(a) == "a previous date"@,
{
    let s = a + seq!['-'] + date + seq!['-'] + b;
    let front = a + seq!['-'] + date;
    assert(s =~= a + seq!['-'] + (date + seq!['-'] + b));
    lemma_first_at(a, date + seq!['-'] + b, '-');
    lemma_last_at(front, b, '-');
    assert(s.subrange((a.len() + 1) as int, front.len() as int) =~= date);
    let t = a + seq!['-'] + b;
    lemma_first_at(a, b, '-');
    lemma_last_at(a, b, '-');
    assert(t.skip((a.len() + 1) as int) =~= b);
}

/// The name under which an export is kept tells the day on which it was imported.
pub proof fn kept_exports_tell_their_day(day: Seq<char>, hash6: Seq<char>)
    requires
        forall|i: int| 0 <= i < hash6.len() ==> #[trigger] hash6[i] != '-',
    ensures
        import_date(crate::archive::file_name(day, hash6)) == day,
{
    reveal_strlit("conversations-");
    reveal_strlit("-");
    reveal_strlit(".json");
    let a = "conversations-"@.drop_last();
    let b = hash6 + ".json"@;
    assert("conversations-"@ =~= a + seq!['-']);
    assert("-"@ =~= seq!['-']);
    assert forall|i: int| 0 <= i < b.len() implies #[trigger] b[i] != '-' by {
        if i < hash6.len() {
            assert(b[i] == hash6[i]);
        }
    }
    dates_stand_between_the_dashes(a, day, b);
    assert(crate::archive::file_name(day, hash6) =~= a + seq!['-'] + day + seq!['-'] + b);
}

/// The length of a conversation's texts is that of all of them one after the other.
pub proof fn texts_are_measured_together(messages: Seq<ScannedView>)
    ensures
        text_bytes(messages) == bytes_of(messages.map_values(|m: ScannedView| m.text).flatten()),
    decreases messages.len(),
{
    let f = |m: ScannedView| m.text;
    if messages.len() > 0 {
        let rest = messages.drop_last();
        texts_are_measured_together(rest);
        assert(messages.map_values(f) =~= rest.map_values(f).push(messages.last().text));
        rest.map_values(f).lemma_flatten_push(messages.last().text);
        crate::text::lemma_bytes_concat(rest.map_values(f).flatten(), messages.last().text);
    } else {
        assert(messages.map_values(f).flatten() =~= Seq::<char>::empty());
    }
}

} // verus!
