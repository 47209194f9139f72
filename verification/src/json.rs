//! JSON documents as plain data, and reading them from text.

use crate::double::Double;
use crate::text::{same, texts};
use vstd::prelude::*;

verus! {

/// The number of a JSON document.
#[derive(Clone, Copy, Debug, PartialEq, Eq, Structural)]
pub struct JsonNumber {
    /// The value as a signed integer, if it is one.
    pub signed: Option<i64>,
    /// The value as an unsigned integer, if it is one.
    pub unsigned: Option<u64>,
    /// The value as a double.
    pub double: Double,
}

/// A JSON document. The entries of an object keep their order.
#[derive(Debug)]
pub enum Json {
    Null,
    Bool(bool),
    Number(JsonNumber),
    Str(String),
    Array(Vec<Json>),
    Object(Vec<(String, Json)>),
}

/// What a JSON document is, with its strings as sequences of characters.
pub ghost enum JsonTree {
    Null,
    Bool(bool),
    Number(JsonNumber),
    Str(Seq<char>),
    Array(Seq<JsonTree>),
    Object(Seq<(Seq<char>, JsonTree)>),
}

/// The value of the first entry with the key.
pub open spec fn lookup(entries: Seq<(Seq<char>, JsonTree)>, key: Seq<char>) -> Option<JsonTree>
    decreases entries.len(),
{
    if entries.len() == 0 {
        None
    } else if entries[0].0 == key {
        Some(entries[0].1)
    } else {
        lookup(entries.drop_first(), key)
    }
}

impl JsonTree {
    /// The member of an object with the key; nothing has members but an object.
    pub open spec fn get(self, key: Seq<char>) -> Option<JsonTree> {
        match self {
            JsonTree::Object(entries) => lookup(entries, key),
            _ => None,
        }
    }

    /// The member of an object with the key, and null where there is none.
    pub open spec fn at(self, key: Seq<char>) -> JsonTree {
        match self.get(key) {
            Some(v) => v,
            None => JsonTree::Null,
        }
    }

    /// The element of an array at the position, and null where there is none.
    pub open spec fn nth(self, i: int) -> JsonTree {
        match self {
            JsonTree::Array(items) => if 0 <= i < items.len() {
                items[i]
            } else {
                JsonTree::Null
            },
            _ => JsonTree::Null,
        }
    }

    pub open spec fn as_str(self) -> Option<Seq<char>> {
        match self {
            JsonTree::Str(s) => Some(s),
            _ => None,
        }
    }

    pub open spec fn as_array(self) -> Option<Seq<JsonTree>> {
        match self {
            JsonTree::Array(items) => Some(items),
            _ => None,
        }
    }

    pub open spec fn as_object(self) -> Option<Seq<(Seq<char>, JsonTree)>> {
        match self {
            JsonTree::Object(entries) => Some(entries),
            _ => None,
        }
    }

    pub open spec fn as_double(self) -> Option<Double> {
        match self {
            JsonTree::Number(n) => Some(n.double),
            _ => None,
        }
    }

    pub open spec fn as_i64(self) -> Option<i64> {
        match self {
            JsonTree::Number(n) => n.signed,
            _ => None,
        }
    }

    /// The string that stands under the key.
    pub open spec fn str_at(self, key: Seq<char>) -> Option<Seq<char>> {
        self.at(key).as_str()
    }
}

/// What the documents of a list are.
pub open spec fn trees(v: Seq<Json>) -> Seq<JsonTree> {
    v.map_values(|j: Json| j@)
}

/// What the entries of an object are.
pub open spec fn entry_trees(v: Seq<(String, Json)>) -> Seq<(Seq<char>, JsonTree)> {
    v.map_values(|e: (String, Json)| (e.0@, e.1@))
}

impl Json {
    pub open spec fn tree(self) -> JsonTree
        decreases self,
    {
        match self {
            Json::Null => JsonTree::Null,
            Json::Bool(b) => JsonTree::Bool(b),
            Json::Number(n) => JsonTree::Number(n),
            Json::Str(s) => JsonTree::Str(s@),
            Json::Array(items) => JsonTree::Array(
                Seq::new(
                    items@.len(),
                    |i: int|
                        if 0 <= i < items@.len() {
                            items@[i].tree()
                        } else {
                            JsonTree::Null
                        },
                ),
            ),
            Json::Object(entries) => JsonTree::Object(
                Seq::new(
                    entries@.len(),
                    |i: int|
                        if 0 <= i < entries@.len() {
                            (entries@[i].0@, entries@[i].1.tree())
                        } else {
                            (Seq::empty(), JsonTree::Null)
                        },
                ),
            ),
        }
    }

    /// A string.
    pub fn text(s: &str) -> (r: Json)
        ensures
            r@ == JsonTree::Str(s@),
    {
        Json::Str(s.to_owned())
    }

    /// The member of an object with the key.
    pub fn get(&self, key: &str) -> (r: Option<&Json>)
        ensures
            match r {
                Some(v) => self@.get(key@) == Some(v@),
                None => self@.get(key@) is None,
            },
    {
        match self {
            Json::Object(entries) => {
                proof {
                    lemma_object_tree(*entries);
                }
                let ghost all = entry_trees(entries@);
                let mut i: usize = 0;
                assert(all.skip(0) =~= all);
                while i < entries.len()
                    invariant
                        i <= entries@.len(),
                        all == entry_trees(entries@),
                        self@ == JsonTree::Object(all),
                        lookup(all, key@) == lookup(all.skip(i as int), key@),
                    decreases entries@.len() - i,
                {
                    assert(all.skip(i as int)[0] == (entries@[i as int].0@, entries@[i as int].1@));
                    if same(entries[i].0.as_str(), key) {
                        return Some(&entries[i].1);
                    }
                    assert(all.skip(i as int).drop_first() =~= all.skip(i + 1));
                    i = i + 1;
                }
                None
            },
            _ => None,
        }
    }

    pub fn as_str(&self) -> (r: Option<&str>)
        ensures
            match r {
                Some(s) => self@.as_str() == Some(s@),
                None => self@.as_str() is None,
            },
    {
        match self {
            Json::Str(s) => Some(s.as_str()),
            _ => None,
        }
    }

    pub fn as_array(&self) -> (r: Option<&Vec<Json>>)
        ensures
            match r {
                Some(v) => self@.as_array() == Some(trees(v@)),
                None => self@.as_array() is None,
            },
    {
        match self {
            Json::Array(items) => {
                proof {
                    lemma_array_tree(*items);
                }
                Some(items)
            },
            _ => None,
        }
    }

    pub fn as_object(&self) -> (r: Option<&Vec<(String, Json)>>)
        ensures
            match r {
                Some(v) => self@.as_object() == Some(entry_trees(v@)),
                None => self@.as_object() is None,
            },
    {
        match self {
            Json::Object(entries) => {
                proof {
                    lemma_object_tree(*entries);
                }
                Some(entries)
            },
            _ => None,
        }
    }

    pub fn as_double(&self) -> (r: Option<Double>)
        ensures
            r == self@.as_double(),
    {
        match self {
            Json::Number(n) => Some(n.double),
            _ => None,
        }
    }

    pub fn as_i64(&self) -> (r: Option<i64>)
        ensures
            r == self@.as_i64(),
    {
        match self {
            Json::Number(n) => n.signed,
            _ => None,
        }
    }

    /// The string that stands under the key.
    pub fn str_at(&self, key: &str) -> (r: Option<&str>)
        ensures
            match r {
                Some(s) => self@.str_at(key@) == Some(s@),
                None => self@.str_at(key@) is None,
            },
    {
        match self.get(key) {
            Some(v) => v.as_str(),
            None => None,
        }
    }

    /// The document again.
    pub fn copy(&self) -> (r: Json)
        ensures
            r@ == self@,
        decreases self@,
    {
        match self {
            Json::Null => Json::Null,
            Json::Bool(b) => Json::Bool(*b),
            Json::Number(n) => Json::Number(*n),
            Json::Str(s) => Json::Str(s.clone()),
            Json::Array(items) => {
                let mut out: Vec<Json> = Vec::new();
                let mut i: usize = 0;
                while i < items.len()
                    invariant
                        *self == Json::Array(*items),
                        i <= items@.len(),
                        out@.len() == i,
                        forall|k: int| 0 <= k < i ==> (#[trigger] out@[k])@ == items@[k]@,
                    decreases items@.len() - i,
                {
                    assert(items@[i as int]@ == self@->Array_0[i as int]);
                    out.push(items[i].copy());
                    i = i + 1;
                }
                proof {
                    lemma_array_tree(*items);
                    lemma_array_tree(out);
                    assert(trees(out@) =~= trees(items@));
                }
                Json::Array(out)
            },
            Json::Object(entries) => {
                let mut out: Vec<(String, Json)> = Vec::new();
                let mut i: usize = 0;
                while i < entries.len()
                    invariant
                        *self == Json::Object(*entries),
                        i <= entries@.len(),
                        out@.len() == i,
                        forall|k: int|
                            0 <= k < i ==> (#[trigger] out@[k]).0@ == entries@[k].0@ && out@[k].1@
                                == entries@[k].1@,
                    decreases entries@.len() - i,
                {
                    assert(entries@[i as int].1@ == self@->Object_0[i as int].1);
                    out.push((entries[i].0.clone(), entries[i].1.copy()));
                    i = i + 1;
                }
                proof {
                    lemma_object_tree(*entries);
                    lemma_object_tree(out);
                    assert(entry_trees(out@) =~= entry_trees(entries@));
                }
                Json::Object(out)
            },
        }
    }
}

impl View for Json {
    type V = JsonTree;

    open spec fn view(&self) -> JsonTree {
        self.tree()
    }
}

pub proof fn lemma_array_tree(items: Vec<Json>)
    ensures
        Json::Array(items)@ == JsonTree::Array(trees(items@)),
{
    assert(Json::Array(items)@->Array_0 =~= trees(items@));
}

pub proof fn lemma_object_tree(entries: Vec<(String, Json)>)
    ensures
        Json::Object(entries)@ == JsonTree::Object(entry_trees(entries@)),
{
    assert(Json::Object(entries)@->Object_0 =~= entry_trees(entries@));
}

// Reading ----------------------------------------------------------------

/// `serde_json::Value`, which is taken apart by `value_parts` alone.
#[verifier::external_type_specification]
#[verifier::external_body]
pub struct ExValue(serde_json::Value);

/// The document that a `serde_json::Value` holds.
pub uninterp spec fn value_tree(v: serde_json::Value) -> JsonTree;

/// A `serde_json::Value` taken apart by one level.
pub enum ValueParts {
    Null,
    Bool(bool),
    Number(JsonNumber),
    Str(String),
    Array(Vec<serde_json::Value>),
    Object(Vec<(String, serde_json::Value)>),
}

impl ValueParts {
    /// The document that the parts make up.
    pub open spec fn tree(self) -> JsonTree {
        match self {
            ValueParts::Null => JsonTree::Null,
            ValueParts::Bool(b) => JsonTree::Bool(b),
            ValueParts::Number(n) => JsonTree::Number(n),
            ValueParts::Str(s) => JsonTree::Str(s@),
            ValueParts::Array(items) => JsonTree::Array(
                items@.map_values(|v: serde_json::Value| value_tree(v)),
            ),
            ValueParts::Object(entries) => JsonTree::Object(
                entries@.map_values(|e: (String, serde_json::Value)| (e.0@, value_tree(e.1))),
            ),
        }
    }
}

/// Takes a `serde_json::Value` apart by matching on its variants. A number comes
/// as what `Number::as_i64`, `Number::as_u64` and `Number::as_f64` return of it,
/// an object as the entries that its map's `into_iter` yields.
#[verifier::external_body]
fn value_parts(v: serde_json::Value) -> (r: ValueParts)
    ensures
        r.tree() == value_tree(v),
{
    match v {
        serde_json::Value::Null => ValueParts::Null,
        serde_json::Value::Bool(b) => ValueParts::Bool(b),
        serde_json::Value::Number(n) => ValueParts::Number(JsonNumber {
            signed: n.as_i64(),
            unsigned: n.as_u64(),
            double: Double { bits: n.as_f64().unwrap_or_default().to_bits() },
        }),
        serde_json::Value::String(s) => ValueParts::Str(s),
        serde_json::Value::Array(a) => ValueParts::Array(a),
        serde_json::Value::Object(m) => ValueParts::Object(m.into_iter().collect()),
    }
}

/// The document that a `serde_json::Value` holds, as plain data.
pub fn from_value(v: serde_json::Value) -> (r: Json)
    ensures
        r@ == value_tree(v),
    decreases value_tree(v),
{
    match value_parts(v) {
        ValueParts::Null => Json::Null,
        ValueParts::Bool(b) => Json::Bool(b),
        ValueParts::Number(n) => Json::Number(n),
        ValueParts::Str(s) => Json::Str(s),
        ValueParts::Array(items) => {
            let ghost whole = items@;
            let mut out: Vec<Json> = Vec::new();
            for item in it: items
                invariant
                    whole == it.seq(),
                    value_tree(v) == JsonTree::Array(
                        whole.map_values(|v: serde_json::Value| value_tree(v)),
                    ),
                    out@.len() == it.index(),
                    forall|i: int|
                        0 <= i < out@.len() ==> (#[trigger] out@[i])@ == value_tree(whole[i]),
            {
                assert(value_tree(item) == value_tree(v)->Array_0[it.index()]);
                out.push(from_value(item));
            }
            proof {
                lemma_array_tree(out);
                assert(trees(out@) =~= value_tree(v)->Array_0);
            }
            Json::Array(out)
        },
        ValueParts::Object(entries) => {
            let ghost whole = entries@;
            let mut out: Vec<(String, Json)> = Vec::new();
            for entry in it: entries
                invariant
                    whole == it.seq(),
                    value_tree(v) == JsonTree::Object(
                        whole.map_values(|e: (String, serde_json::Value)| (e.0@, value_tree(e.1))),
                    ),
                    out@.len() == it.index(),
                    forall|i: int|
                        0 <= i < out@.len() ==> (#[trigger] out@[i]).0@ == whole[i].0@ && out@[i].1@
                            == value_tree(whole[i].1),
            {
                let (key, value) = entry;
                assert(value_tree(value) == value_tree(v)->Object_0[it.index()].1);
                out.push((key, from_value(value)));
            }
            proof {
                lemma_object_tree(out);
                assert(entry_trees(out@) =~= value_tree(v)->Object_0);
            }
            Json::Object(out)
        },
    }
}

/// The double nearest to the integer.
pub uninterp spec fn double_of_integer(n: u64) -> Double;

/// The JSON number that is the integer.
pub open spec fn integer(n: u64) -> JsonTree {
    JsonTree::Number(
        JsonNumber {
            signed: if n <= i64::MAX {
                Some(n as i64)
            } else {
                None
            },
            unsigned: Some(n),
            double: double_of_integer(n),
        },
    )
}

/// `serde_json::Number` made from an unsigned integer: `as_u64` gives the integer
/// back, `as_i64` gives it where it fits, and `as_f64` gives a double that depends
/// on the integer alone.
#[verifier::external_body]
fn integer_number(n: u64) -> (r: JsonNumber)
    ensures
        r.double == double_of_integer(n),
        r.unsigned == Some(n),
        n <= i64::MAX ==> r.signed == Some(n as i64),
        n > i64::MAX ==> r.signed is None,
{
    let number = serde_json::Number::from(n);
    JsonNumber {
        signed: number.as_i64(),
        unsigned: number.as_u64(),
        double: Double { bits: number.as_f64().unwrap_or_default().to_bits() },
    }
}

/// The JSON number that is the integer.
pub fn json_integer(n: u64) -> (r: Json)
    ensures
        r@ == integer(n),
{
    Json::Number(integer_number(n))
}

/// The double nearest to the signed integer.
pub uninterp spec fn double_of_signed(n: i64) -> Double;

/// The JSON number that is the signed integer.
pub open spec fn signed_integer(n: i64) -> JsonTree {
    JsonTree::Number(
        JsonNumber {
            signed: Some(n),
            unsigned: if n >= 0 {
                Some(n as u64)
            } else {
                None
            },
            double: double_of_signed(n),
        },
    )
}

/// `serde_json::Number` made from a signed integer: `as_i64` gives the integer
/// back, `as_u64` gives it where it is not negative, and `as_f64` gives a double
/// that depends on the integer alone.
#[verifier::external_body]
fn signed_number(n: i64) -> (r: JsonNumber)
    ensures
        r.double == double_of_signed(n),
        r.signed == Some(n),
        n >= 0 ==> r.unsigned == Some(n as u64),
        n < 0 ==> r.unsigned is None,
{
    let number = serde_json::Number::from(n);
    JsonNumber {
        signed: number.as_i64(),
        unsigned: number.as_u64(),
        double: Double { bits: number.as_f64().unwrap_or_default().to_bits() },
    }
}

/// The JSON number that is the signed integer.
pub fn json_signed(n: i64) -> (r: Json)
    ensures
        r@ == signed_integer(n),
{
    Json::Number(signed_number(n))
}

/// The JSON number that is written with a point and has the value of the integer.
pub open spec fn pointed_integer(n: i64) -> JsonTree {
    JsonTree::Number(JsonNumber { signed: None, unsigned: None, double: double_of_signed(n) })
}

/// The JSON number that is written with a point and has the value of the integer.
pub fn json_pointed(n: i64) -> (r: Json)
    ensures
        r@ == pointed_integer(n),
{
    Json::Number(JsonNumber { signed: None, unsigned: None, double: signed_number(n).double })
}

/// The JSON number that is the double; what is no finite number is null.
pub open spec fn decimal_number(d: Double) -> JsonTree {
    if d.is_finite() {
        JsonTree::Number(JsonNumber { signed: None, unsigned: None, double: d })
    } else {
        JsonTree::Null
    }
}

/// The JSON number that is the double.
pub fn json_double(d: Double) -> (r: Json)
    ensures
        r@ == decimal_number(d),
{
    if d.finite() {
        Json::Number(JsonNumber { signed: None, unsigned: None, double: d })
    } else {
        Json::Null
    }
}

/// A list of strings as a JSON array.
pub open spec fn text_array(v: Seq<Seq<char>>) -> JsonTree {
    JsonTree::Array(v.map_values(|s: Seq<char>| JsonTree::Str(s)))
}

/// The strings as a JSON array.
pub fn json_texts(v: &Vec<String>) -> (r: Json)
    ensures
        r@ == text_array(texts(v@)),
{
    let mut out: Vec<Json> = Vec::new();
    let mut i: usize = 0;
    while i < v.len()
        invariant
            i <= v@.len(),
            out@.len() == i,
            forall|k: int| 0 <= k < i ==> (#[trigger] out@[k])@ == JsonTree::Str(v@[k]@),
        decreases v@.len() - i,
    {
        out.push(Json::Str(v[i].clone()));
        i = i + 1;
    }
    proof {
        lemma_array_tree(out);
        assert(trees(out@) =~= texts(v@).map_values(|s: Seq<char>| JsonTree::Str(s)));
    }
    Json::Array(out)
}

/// An object under construction.
pub struct ObjectBuilder {
    pub entries: Vec<(String, Json)>,
}

impl ObjectBuilder {
    pub open spec fn view(&self) -> Seq<(Seq<char>, JsonTree)> {
        entry_trees(self.entries@)
    }

    /// An object without entries.
    pub fn new() -> (r: ObjectBuilder)
        ensures
            r@ == Seq::<(Seq<char>, JsonTree)>::empty(),
    {
        let r = ObjectBuilder { entries: Vec::new() };
        assert(r@ =~= Seq::empty());
        r
    }

    /// Adds an entry behind the others.
    pub fn entry(&mut self, key: &str, value: Json)
        ensures
            final(self)@ == old(self)@.push((key@, value@)),
    {
        self.entries.push((key.to_owned(), value));
        assert(self@ =~= old(self)@.push((key@, value@)));
    }

    /// The object with the entries.
    pub fn finish(self) -> (r: Json)
        ensures
            r@ == JsonTree::Object(self@),
    {
        proof {
            lemma_object_tree(self.entries);
        }
        Json::Object(self.entries)
    }
}

/// The document that a text stands for, or the message that says why it stands
/// for none.
pub uninterp spec fn json_of_text(text: Seq<char>) -> Result<JsonTree, Seq<char>>;

/// `serde_json::from_str`, which reads a whole text as one document. The outcome
/// depends on the text alone; the error is given by the message it prints.
#[verifier::external_body]
fn value_of_text(text: &str) -> (r: Result<serde_json::Value, String>)
    ensures
        match r {
            Ok(v) => json_of_text(text@) == Ok::<JsonTree, Seq<char>>(value_tree(v)),
            Err(m) => json_of_text(text@) == Err::<JsonTree, Seq<char>>(m@),
        },
{
    serde_json::from_str(text).map_err(|e| e.to_string())
}

/// Reads a text as one JSON document.
pub fn parse(text: &str) -> (r: Result<Json, String>)
    ensures
        match r {
            Ok(v) => json_of_text(text@) == Ok::<JsonTree, Seq<char>>(v@),
            Err(m) => json_of_text(text@) == Err::<JsonTree, Seq<char>>(m@),
        },
{
    match value_of_text(text) {
        Ok(v) => Ok(from_value(v)),
        Err(m) => Err(m),
    }
}

/// The list of documents that some bytes stand for, or the message that says
/// why they stand for none.
pub uninterp spec fn json_list_of_bytes(data: Seq<u8>) -> Result<Seq<JsonTree>, Seq<char>>;

/// `serde_json::from_slice` at a list of values: the bytes must be one JSON
/// array. The outcome depends on the bytes alone; the error is given by the
/// message it prints.
#[verifier::external_body]
fn values_of_bytes(data: &[u8]) -> (r: Result<Vec<serde_json::Value>, String>)
    ensures
        match r {
            Ok(v) => json_list_of_bytes(data@) == Ok::<Seq<JsonTree>, Seq<char>>(
                v@.map_values(|x: serde_json::Value| value_tree(x)),
            ),
            Err(m) => json_list_of_bytes(data@) == Err::<Seq<JsonTree>, Seq<char>>(m@),
        },
{
    serde_json::from_slice(data).map_err(|e| e.to_string())
}

/// Reads some bytes as a JSON array of documents.
pub fn parse_list(data: &[u8]) -> (r: Result<Vec<Json>, String>)
    ensures
        match r {
            Ok(v) => json_list_of_bytes(data@) == Ok::<Seq<JsonTree>, Seq<char>>(trees(v@)),
            Err(m) => json_list_of_bytes(data@) == Err::<Seq<JsonTree>, Seq<char>>(m@),
        },
{
    match values_of_bytes(data) {
        Ok(values) => {
            let ghost whole = values@;
            let mut out: Vec<Json> = Vec::new();
            for value in it: values
                invariant
                    whole == it.seq(),
                    out@.len() == it.index(),
                    forall|i: int|
                        0 <= i < out@.len() ==> (#[trigger] out@[i])@ == value_tree(whole[i]),
            {
                out.push(from_value(value));
            }
            assert(trees(out@) =~= whole.map_values(|x: serde_json::Value| value_tree(x)));
            Ok(out)
        },
        Err(m) => Err(m),
    }
}

/// What an object has under a key is what the first entry with the key has; it has
/// nothing there exactly if no entry has the key.
pub proof fn the_first_entry_counts(entries: Seq<(Seq<char>, JsonTree)>, key: Seq<char>)
    ensures
        lookup(entries, key) is None <==> forall|i: int|
            0 <= i < entries.len() ==> (#[trigger] entries[i]).0 != key,
        lookup(entries, key) matches Some(v) ==> exists|k: int|
            0 <= k < entries.len() && #[trigger] entries[k] == (key, v) && forall|i: int|
                0 <= i < k ==> (#[trigger] entries[i]).0 != key,
    decreases entries.len(),
{
    if entries.len() > 0 {
        let rest = entries.drop_first();
        if entries[0].0 != key {
            the_first_entry_counts(rest, key);
            if lookup(rest, key) is None {
                assert forall|i: int| 0 <= i < entries.len() implies (#[trigger] entries[i]).0
                    != key by {
                    if i > 0 {
                        assert(rest[i - 1] == entries[i]);
                    }
                }
            } else {
                let v = lookup(rest, key)->0;
                let k = choose|k: int|
                    0 <= k < rest.len() && #[trigger] rest[k] == (key, v) && forall|i: int|
                        0 <= i < k ==> (#[trigger] rest[i]).0 != key;
                assert(entries[k + 1] == rest[k]);
                assert forall|i: int| 0 <= i < k + 1 implies (#[trigger] entries[i]).0 != key by {
                    if i > 0 {
                        assert(rest[i - 1] == entries[i]);
                    }
                }
            }
        } else {
            assert(entries[0] == (key, entries[0].1));
        }
    }
}

} // verus!
