//! Bringing what a model extracted from a conversation into a stable shape.

use crate::double::{Double, ZERO_BITS};
use crate::json::{trees, Json, JsonTree};
use crate::text::{lowered, same, text_opt, texts, lower, trim, trimmed};
use vstd::prelude::*;

verus! {

// Items ------------------------------------------------------------------

/// One thing that was found in a conversation.
#[derive(Debug)]
pub struct ExtractItem {
    pub name: String,
    /// Subtype of the taxonomy (person, tool, book and so on), if it is known.
    pub subtype: Option<String>,
    /// The `type` as it was given.
    pub item_type: Option<String>,
    pub description: Option<String>,
    pub confidence: Double,
    pub message_ids: Vec<String>,
    /// The document that the item was read from.
    pub raw: Json,
}

/// What an item holds.
pub ghost struct ItemView {
    pub name: Seq<char>,
    pub subtype: Option<Seq<char>>,
    pub item_type: Option<Seq<char>>,
    pub description: Option<Seq<char>>,
    pub confidence: Double,
    pub message_ids: Seq<Seq<char>>,
    pub raw: JsonTree,
}

impl View for ExtractItem {
    type V = ItemView;

    open spec fn view(&self) -> ItemView {
        ItemView {
            name: self.name@,
            subtype: text_opt(self.subtype),
            item_type: text_opt(self.item_type),
            description: text_opt(self.description),
            confidence: self.confidence,
            message_ids: texts(self.message_ids@),
            raw: self.raw@,
        }
    }
}

/// The contents of a list of items.
pub open spec fn item_views(v: Seq<ExtractItem>) -> Seq<ItemView> {
    v.map_values(|i: ExtractItem| i@)
}

pub proof fn lemma_item_views_push(v: Seq<ExtractItem>, i: ExtractItem)
    ensures
        item_views(v.push(i)) == item_views(v).push(i@),
{
    assert(item_views(v.push(i)) =~= item_views(v).push(i@));
}

/// Everything that was found in a conversation.
#[derive(Debug)]
pub struct ExtractOutput {
    pub topics: Vec<ExtractItem>,
    pub entities: Vec<ExtractItem>,
    pub concepts: Vec<ExtractItem>,
    pub sources: Vec<ExtractItem>,
}

/// What an output holds.
pub ghost struct OutputView {
    pub topics: Seq<ItemView>,
    pub entities: Seq<ItemView>,
    pub concepts: Seq<ItemView>,
    pub sources: Seq<ItemView>,
}

impl View for ExtractOutput {
    type V = OutputView;

    open spec fn view(&self) -> OutputView {
        OutputView {
            topics: item_views(self.topics@),
            entities: item_views(self.entities@),
            concepts: item_views(self.concepts@),
            sources: item_views(self.sources@),
        }
    }
}

// Subtypes ---------------------------------------------------------------

/// Whether the taxonomy has the subtype for the kind.
pub open spec fn is_subtype(kind: Seq<char>, s: Seq<char>) -> bool {
    ||| kind == "entity"@ && (s == "person"@ || s == "organization"@ || s == "tool"@ || s
        == "product"@ || s == "standard"@ || s == "framework"@ || s == "technology"@ || s
        == "place"@)
    ||| kind == "source"@ && (s == "book"@ || s == "article"@ || s == "paper"@ || s == "course"@
        || s == "talk"@)
    ||| kind == "concept"@ && s == "pattern"@
}

/// The subtype that a raw text names: blanks round it and its case do not
/// matter, and what the taxonomy does not have is dropped.
pub open spec fn valid_subtype(kind: Seq<char>, raw: Option<Seq<char>>) -> Option<Seq<char>> {
    match raw {
        Some(s) => if is_subtype(kind, lowered(trimmed(s))) {
            Some(lowered(trimmed(s)))
        } else {
            None
        },
        None => None,
    }
}

/// Whether the taxonomy has the subtype for the kind.
pub fn taxonomy_has(kind: &str, s: &str) -> (r: bool)
    ensures
        r == is_subtype(kind@, s@),
{
    (same(kind, "entity") && (same(s, "person") || same(s, "organization") || same(s, "tool")
        || same(s, "product") || same(s, "standard") || same(s, "framework") || same(
        s,
        "technology",
    ) || same(s, "place"))) || (same(kind, "source") && (same(s, "book") || same(s, "article")
        || same(s, "paper") || same(s, "course") || same(s, "talk"))) || (same(kind, "concept")
        && same(s, "pattern"))
}

/// The subtype that a raw text names.
pub fn validate_subtype(kind: &str, raw: Option<&str>) -> (r: Option<String>)
    ensures
        text_opt(r) == valid_subtype(
            kind@,
            match raw {
                Some(s) => Some(s@),
                None => None,
            },
        ),
{
    match raw {
        Some(s) => {
            let low_text = lower(trim(s));
            if taxonomy_has(kind, low_text.as_str()) {
                Some(low_text)
            } else {
                None
            }
        },
        None => None,
    }
}

// Reading items ----------------------------------------------------------

/// The strings among the documents.
pub open spec fn strings_among(v: Seq<JsonTree>) -> Seq<Seq<char>>
    decreases v.len(),
{
    if v.len() == 0 {
        Seq::empty()
    } else {
        let before = strings_among(v.drop_last());
        match v.last().as_str() {
            Some(s) => before.push(s),
            None => before,
        }
    }
}

/// The strings among the documents.
pub fn read_strings(v: &Vec<Json>) -> (r: Vec<String>)
    ensures
        texts(r@) == strings_among(trees(v@)),
{
    let ghost all = trees(v@);
    let mut out: Vec<String> = Vec::new();
    let mut i: usize = 0;
    assert(all.take(0) =~= Seq::empty());
    assert(texts(out@) =~= Seq::empty());
    while i < v.len()
        invariant
            i <= v@.len(),
            all == trees(v@),
            texts(out@) == strings_among(all.take(i as int)),
        decreases v@.len() - i,
    {
        let ghost next = all.take(i + 1);
        assert(next.drop_last() =~= all.take(i as int));
        assert(next.last() == v@[i as int]@);
        match v[i].as_str() {
            Some(s) => {
                let t = s.to_owned();
                proof {
                    crate::text::lemma_texts_push(out@, t);
                }
                out.push(t);
            },
            None => {},
        }
        i = i + 1;
    }
    assert(all.take(i as int) =~= all);
    out
}

/// The trimmed text, if anything is left of it.
pub open spec fn nonblank(s: Option<Seq<char>>) -> Option<Seq<char>> {
    match s {
        Some(t) => if trimmed(t).len() > 0 {
            Some(trimmed(t))
        } else {
            None
        },
        None => None,
    }
}

fn read_nonblank(s: Option<&str>) -> (r: Option<String>)
    ensures
        text_opt(r) == nonblank(
            match s {
                Some(t) => Some(t@),
                None => None,
            },
        ),
{
    match s {
        Some(t) => {
            let u = trim(t);
            if u.is_empty() {
                None
            } else {
                Some(u.to_owned())
            }
        },
        None => None,
    }
}

/// The item that a document describes. The subtype stands under `subtype`, or
/// else under `type`.
pub open spec fn item_of(kind: Seq<char>, raw: JsonTree) -> ItemView {
    ItemView {
        name: match raw.str_at("name"@) {
            Some(s) => trimmed(s),
            None => Seq::empty(),
        },
        subtype: valid_subtype(
            kind,
            match raw.str_at("subtype"@) {
                Some(s) => Some(s),
                None => raw.str_at("type"@),
            },
        ),
        item_type: nonblank(raw.str_at("type"@)),
        description: nonblank(raw.str_at("description"@)),
        confidence: match raw.at("confidence"@).as_double() {
            Some(d) => d,
            None => Double { bits: ZERO_BITS },
        },
        message_ids: match raw.at("message_ids"@).as_array() {
            Some(v) => strings_among(v),
            None => Seq::empty(),
        },
        raw,
    }
}

/// Whether a document describes an item: it is an object with a name.
pub open spec fn describes_item(kind: Seq<char>, raw: JsonTree) -> bool {
    raw is Object && item_of(kind, raw).name.len() > 0
}

/// The items that the documents describe; the others are passed over.
pub open spec fn items_of(kind: Seq<char>, arr: Seq<JsonTree>) -> Seq<ItemView>
    decreases arr.len(),
{
    if arr.len() == 0 {
        Seq::empty()
    } else {
        let before = items_of(kind, arr.drop_last());
        if describes_item(kind, arr.last()) {
            before.push(item_of(kind, arr.last()))
        } else {
            before
        }
    }
}

fn read_item(kind: &str, raw: &Json) -> (r: ExtractItem)
    ensures
        r@ == item_of(kind@, raw@),
{
    let name = match raw.str_at("name") {
        Some(s) => trim(s).to_owned(),
        None => String::new(),
    };
    let given_type = raw.str_at("type");
    let given_subtype = match raw.str_at("subtype") {
        Some(s) => Some(s),
        None => given_type,
    };
    let subtype = validate_subtype(kind, given_subtype);
    let item_type = read_nonblank(given_type);
    let description = read_nonblank(raw.str_at("description"));
    let confidence = match raw.get("confidence") {
        Some(v) => match v.as_double() {
            Some(d) => d,
            None => Double { bits: ZERO_BITS },
        },
        None => Double { bits: ZERO_BITS },
    };
    let message_ids = match raw.get("message_ids") {
        Some(v) => match v.as_array() {
            Some(items) => read_strings(items),
            None => Vec::new(),
        },
        None => Vec::new(),
    };
    assert(texts(message_ids@) =~= item_of(kind@, raw@).message_ids);
    ExtractItem {
        name,
        subtype,
        item_type,
        description,
        confidence,
        message_ids,
        raw: raw.copy(),
    }
}

/// The items that the documents describe.
pub fn coerce_items(kind: &str, arr: &Vec<Json>) -> (r: Vec<ExtractItem>)
    ensures
        item_views(r@) == items_of(kind@, trees(arr@)),
{
    let ghost all = trees(arr@);
    let mut out: Vec<ExtractItem> = Vec::new();
    let mut i: usize = 0;
    assert(all.take(0) =~= Seq::empty());
    assert(item_views(out@) =~= Seq::empty());
    while i < arr.len()
        invariant
            i <= arr@.len(),
            all == trees(arr@),
            item_views(out@) == items_of(kind@, all.take(i as int)),
        decreases arr@.len() - i,
    {
        let ghost next = all.take(i + 1);
        assert(next.drop_last() =~= all.take(i as int));
        assert(next.last() == arr@[i as int]@);
        if arr[i].as_object().is_some() {
            let item = read_item(kind, &arr[i]);
            if !item.name.as_str().is_empty() {
                proof {
                    lemma_item_views_push(out@, item);
                }
                out.push(item);
            }
        }
        i = i + 1;
    }
    assert(all.take(i as int) =~= all);
    out
}

// Collections under one of several keys ----------------------------------

/// The array under the first of the keys that holds one.
pub open spec fn array_under(obj: JsonTree, keys: Seq<Seq<char>>) -> Seq<JsonTree>
    decreases keys.len(),
{
    if keys.len() == 0 {
        Seq::empty()
    } else {
        match obj.at(keys[0]).as_array() {
            Some(v) => v,
            None => array_under(obj, keys.drop_first()),
        }
    }
}

/// The contents of a list of keys.
pub open spec fn key_texts(keys: Seq<&str>) -> Seq<Seq<char>> {
    keys.map_values(|k: &str| k@)
}

/// The array under the first of the keys that holds one.
pub fn get_array<'a>(obj: &'a Json, keys: &Vec<&str>, none: &'a Vec<Json>) -> (r: &'a Vec<Json>)
    requires
        none@.len() == 0,
    ensures
        trees(r@) == array_under(obj@, key_texts(keys@)),
{
    let ghost all = key_texts(keys@);
    let mut i: usize = 0;
    assert(all.skip(0) =~= all);
    while i < keys.len()
        invariant
            i <= keys@.len(),
            none@.len() == 0,
            all == key_texts(keys@),
            array_under(obj@, all) == array_under(obj@, all.skip(i as int)),
        decreases keys@.len() - i,
    {
        assert(all.skip(i as int)[0] == keys@[i as int]@);
        match obj.get(keys[i]) {
            Some(v) => match v.as_array() {
                Some(items) => {
                    return items;
                },
                None => {},
            },
            None => {},
        }
        assert(all.skip(i as int).drop_first() =~= all.skip(i + 1));
        i = i + 1;
    }
    assert(trees(none@) =~= Seq::empty());
    none
}

// The whole output -------------------------------------------------------

/// The items with their subtype set to `pattern`.
pub open spec fn as_patterns(v: Seq<ItemView>) -> Seq<ItemView> {
    v.map_values(|i: ItemView| ItemView { subtype: Some("pattern"@), ..i })
}

/// The keys under which patterns used to stand.
pub open spec fn pattern_keys() -> Seq<Seq<char>> {
    seq!["prompt_patterns"@, "promptPatterns"@, "patterns"@, "prompt_pattern"@]
}

/// What is made of an extracted document: an object holds the collections under
/// their keys, with patterns as concepts behind the others; an array holds
/// concepts.
pub open spec fn sanitized(v: JsonTree) -> OutputView {
    match v {
        JsonTree::Object(_) => OutputView {
            topics: items_of("topic"@, array_under(v, seq!["topics"@, "topic"@])),
            entities: items_of("entity"@, array_under(v, seq!["entities"@, "entity"@])),
            concepts: items_of("concept"@, array_under(v, seq!["concepts"@, "concept"@]))
                + as_patterns(items_of("concept"@, array_under(v, pattern_keys()))),
            sources: items_of("source"@, array_under(v, seq!["sources"@, "source"@])),
        },
        JsonTree::Array(arr) => OutputView {
            topics: Seq::empty(),
            entities: Seq::empty(),
            concepts: items_of("concept"@, arr),
            sources: Seq::empty(),
        },
        _ => OutputView {
            topics: Seq::empty(),
            entities: Seq::empty(),
            concepts: Seq::empty(),
            sources: Seq::empty(),
        },
    }
}

fn collect(kind: &str, obj: &Json, key: &str, alias: &str) -> (r: Vec<ExtractItem>)
    ensures
        item_views(r@) == items_of(kind@, array_under(obj@, seq![key@, alias@])),
{
    let none: Vec<Json> = Vec::new();
    let keys = vec![key, alias];
    assert(key_texts(keys@) =~= seq![key@, alias@]);
    coerce_items(kind, get_array(obj, &keys, &none))
}

fn collect_patterns(obj: &Json) -> (r: Vec<ExtractItem>)
    ensures
        item_views(r@) == items_of("concept"@, array_under(obj@, pattern_keys())),
{
    let none: Vec<Json> = Vec::new();
    let keys = vec!["prompt_patterns", "promptPatterns", "patterns", "prompt_pattern"];
    assert(key_texts(keys@) =~= pattern_keys());
    coerce_items("concept", get_array(obj, &keys, &none))
}

/// Puts the patterns behind the concepts.
fn fold_patterns(concepts: &mut Vec<ExtractItem>, patterns: Vec<ExtractItem>)
    ensures
        item_views(final(concepts)@) == item_views(old(concepts)@) + as_patterns(
            item_views(patterns@),
        ),
{
    let ghost whole = patterns@;
    let ghost before = item_views(concepts@);
    assert(before + as_patterns(item_views(whole)).take(0) =~= before);
    for p in it: patterns
        invariant
            whole == it.seq(),
            item_views(concepts@) == before + as_patterns(item_views(whole)).take(
                it.index() as int,
            ),
    {
        let ghost k = it.index() as int;
        let folded = ExtractItem {
            name: p.name,
            subtype: Some("pattern".to_owned()),
            item_type: p.item_type,
            description: p.description,
            confidence: p.confidence,
            message_ids: p.message_ids,
            raw: p.raw,
        };
        proof {
            lemma_item_views_push(concepts@, folded);
            assert(folded@ == as_patterns(item_views(whole))[k]);
            assert(before + as_patterns(item_views(whole)).take(k + 1) =~= (before + as_patterns(
                item_views(whole),
            ).take(k)).push(folded@));
        }
        concepts.push(folded);
    }
    assert(as_patterns(item_views(whole)).take(whole.len() as int) =~= as_patterns(
        item_views(whole),
    ));
}

/// Brings an extracted document into its stable shape. Missing collections are
/// empty; what is neither an object nor an array is handed back.
pub fn sanitize_extraction_output(v: Json) -> (r: Result<ExtractOutput, Json>)
    ensures
        match r {
            Ok(out) => (v@ is Object || v@ is Array) && out@ == sanitized(v@),
            Err(root) => !(v@ is Object || v@ is Array) && root == v,
        },
{
    if v.as_object().is_some() {
        let topics = collect("topic", &v, "topics", "topic");
        let entities = collect("entity", &v, "entities", "entity");
        let sources = collect("source", &v, "sources", "source");
        let mut concepts = collect("concept", &v, "concepts", "concept");
        let patterns = collect_patterns(&v);
        fold_patterns(&mut concepts, patterns);
        return Ok(ExtractOutput { topics, entities, concepts, sources });
    }
    let found = match v.as_array() {
        Some(arr) => Some(coerce_items("concept", arr)),
        None => None,
    };
    match found {
        Some(concepts) => {
            let out = ExtractOutput {
                topics: Vec::new(),
                entities: Vec::new(),
                concepts,
                sources: Vec::new(),
            };
            assert(item_views(out.topics@) =~= Seq::empty());
            Ok(out)
        },
        None => Err(v),
    }
}

/// The message for a root that was handed back, printed as `shown`.
pub fn invalid_root_message(shown: &str) -> (r: String)
    ensures
        r@ == "invalid extraction JSON root (expected object/array), got "@ + shown@,
{
    let mut m = "invalid extraction JSON root (expected object/array), got ".to_owned();
    m.append(shown);
    m
}

// Laws -------------------------------------------------------------------

/// Whether an item is fit to be kept as one of the kind: it has a name, without
/// blanks round it, and its subtype is one of the taxonomy, if it has one.
pub open spec fn fit(kind: Seq<char>, i: ItemView) -> bool {
    &&& i.name.len() > 0
    &&& trimmed(i.name) == i.name
    &&& i.subtype matches Some(s) ==> is_subtype(kind, s)
}

/// Every item that is read is fit to be kept.
pub proof fn items_are_fit(kind: Seq<char>, arr: Seq<JsonTree>)
    ensures
        forall|i: int| 0 <= i < items_of(kind, arr).len() ==> fit(kind, #[trigger] items_of(kind, arr)[i]),
    decreases arr.len(),
{
    if arr.len() > 0 {
        items_are_fit(kind, arr.drop_last());
        match arr.last().str_at("name"@) {
            Some(s) => {
                crate::text::trimming_is_final(s);
            },
            None => {},
        }
        if describes_item(kind, arr.last()) {
            assert(fit(kind, item_of(kind, arr.last())));
        }
        assert forall|i: int| 0 <= i < items_of(kind, arr).len() implies fit(
            kind,
            #[trigger] items_of(kind, arr)[i],
        ) by {
            let before = items_of(kind, arr.drop_last());
            if i < before.len() {
                assert(fit(kind, before[i]));
                assert(items_of(kind, arr)[i] == before[i]);
            }
        }
    }
}

/// Whatever a model extracts, only fit items are kept: no subtype outside the
/// taxonomy and no nameless item ever comes through.
pub proof fn no_noise_is_kept(v: JsonTree)
    ensures
        forall|i: int|
            0 <= i < sanitized(v).topics.len() ==> fit("topic"@, #[trigger] sanitized(v).topics[i]),
        forall|i: int|
            0 <= i < sanitized(v).entities.len() ==> fit(
                "entity"@,
                #[trigger] sanitized(v).entities[i],
            ),
        forall|i: int|
            0 <= i < sanitized(v).concepts.len() ==> fit(
                "concept"@,
                #[trigger] sanitized(v).concepts[i],
            ),
        forall|i: int|
            0 <= i < sanitized(v).sources.len() ==> fit(
                "source"@,
                #[trigger] sanitized(v).sources[i],
            ),
{
    items_are_fit("topic"@, array_under(v, seq!["topics"@, "topic"@]));
    items_are_fit("entity"@, array_under(v, seq!["entities"@, "entity"@]));
    items_are_fit("source"@, array_under(v, seq!["sources"@, "source"@]));
    items_are_fit("concept"@, array_under(v, seq!["concepts"@, "concept"@]));
    items_are_fit("concept"@, array_under(v, pattern_keys()));
    match v {
        JsonTree::Array(arr) => {
            items_are_fit("concept"@, arr);
        },
        JsonTree::Object(_) => {
            let plain = items_of("concept"@, array_under(v, seq!["concepts"@, "concept"@]));
            let patterns = items_of("concept"@, array_under(v, pattern_keys()));
            assert forall|i: int| 0 <= i < sanitized(v).concepts.len() implies fit(
                "concept"@,
                #[trigger] sanitized(v).concepts[i],
            ) by {
                if i >= plain.len() {
                    assert(fit("concept"@, patterns[i - plain.len()]));
                } else {
                    assert(fit("concept"@, plain[i]));
                }
            }
        },
        _ => {},
    }
}

proof fn lemma_items(kind: Seq<char>, arr: Seq<JsonTree>)
    ensures
        ({
            let named = |r: JsonTree|
                r is Object && r.at("name"@) is Str && trimmed(r.at("name"@)->Str_0).len() > 0;
            &&& items_of(kind, arr).len() == arr.filter(named).len()
            &&& forall|i: int|
                0 <= i < items_of(kind, arr).len() ==> #[trigger] items_of(kind, arr)[i] == item_of(
                    kind,
                    arr.filter(named)[i],
                )
            &&& items_of(kind, arr).map_values(|i: ItemView| i.raw) == arr.filter(named)
        }),
    decreases arr.len(),
{
    let named = |r: JsonTree|
        r is Object && r.at("name"@) is Str && trimmed(r.at("name"@)->Str_0).len() > 0;
    reveal(Seq::filter);
    if arr.len() > 0 {
        lemma_items(kind, arr.drop_last());
        assert(describes_item(kind, arr.last()) <==> named(arr.last()));
    }
    assert(items_of(kind, arr).map_values(|i: ItemView| i.raw) =~= arr.filter(named));
}

/// The array that stands under the key, or else under the other; nothing where
/// neither holds one.
pub open spec fn listed_under(v: JsonTree, key: Seq<char>, other: Seq<char>) -> Seq<JsonTree> {
    if v.at(key) is Array {
        v.at(key)->Array_0
    } else if v.at(other) is Array {
        v.at(other)->Array_0
    } else {
        Seq::empty()
    }
}

/// Nothing that a model names is passed over, and nothing else is taken: of each
/// collection every object that has a name is read, in order. Patterns come behind
/// the concepts, and what comes as a bare array are concepts.
pub proof fn every_named_item_is_read(v: JsonTree)
    ensures
        ({
            let named = |r: JsonTree|
                r is Object && r.at("name"@) is Str && trimmed(r.at("name"@)->Str_0).len() > 0;
            let raw = |i: ItemView| i.raw;
            &&& v is Object ==> {
                &&& sanitized(v).topics.map_values(raw) == listed_under(
                    v,
                    "topics"@,
                    "topic"@,
                ).filter(named)
                &&& sanitized(v).entities.map_values(raw) == listed_under(
                    v,
                    "entities"@,
                    "entity"@,
                ).filter(named)
                &&& sanitized(v).sources.map_values(raw) == listed_under(
                    v,
                    "sources"@,
                    "source"@,
                ).filter(named)
                &&& v.at("prompt_patterns"@) is Array ==> sanitized(v).concepts.map_values(raw)
                    == listed_under(v, "concepts"@, "concept"@).filter(named) + v.at(
                    "prompt_patterns"@,
                )->Array_0.filter(named)
                &&& !(v.at("prompt_patterns"@) is Array) && v.at("promptPatterns"@) is Array
                    ==> sanitized(v).concepts.map_values(raw) == listed_under(
                    v,
                    "concepts"@,
                    "concept"@,
                ).filter(named) + v.at("promptPatterns"@)->Array_0.filter(named)
                &&& !(v.at("prompt_patterns"@) is Array) && !(v.at("promptPatterns"@) is Array)
                    ==> sanitized(v).concepts.map_values(raw) == listed_under(
                    v,
                    "concepts"@,
                    "concept"@,
                ).filter(named) + listed_under(v, "patterns"@, "prompt_pattern"@).filter(named)
                &&& forall|i: int|
                    listed_under(v, "concepts"@, "concept"@).filter(named).len() <= i
                        < sanitized(v).concepts.len() ==> (
                    #[trigger] sanitized(v).concepts[i]).subtype == Some("pattern"@)
            }
            &&& v is Array ==> sanitized(v).concepts.map_values(raw) == v->Array_0.filter(named)
                && sanitized(v).topics.len() == 0 && sanitized(v).entities.len() == 0
                && sanitized(v).sources.len() == 0
        }),
{
    let named = |r: JsonTree|
        r is Object && r.at("name"@) is Str && trimmed(r.at("name"@)->Str_0).len() > 0;
    let raw = |i: ItemView| i.raw;
    if v is Object {
        lemma_two_keys(v, "topics"@, "topic"@);
        lemma_two_keys(v, "entities"@, "entity"@);
        lemma_two_keys(v, "concepts"@, "concept"@);
        lemma_two_keys(v, "sources"@, "source"@);
        lemma_two_keys(v, "patterns"@, "prompt_pattern"@);
        lemma_items("topic"@, listed_under(v, "topics"@, "topic"@));
        lemma_items("entity"@, listed_under(v, "entities"@, "entity"@));
        lemma_items("concept"@, listed_under(v, "concepts"@, "concept"@));
        lemma_items("source"@, listed_under(v, "sources"@, "source"@));
        let k = pattern_keys();
        let k1 = k.drop_first();
        let k2 = k1.drop_first();
        assert(k1[0] == k[1]);
        assert(k2 =~= seq!["patterns"@, "prompt_pattern"@]);
        reveal_with_fuel(array_under, 3);
        let p = array_under(v, k);
        lemma_items("concept"@, p);
        let c = items_of("concept"@, listed_under(v, "concepts"@, "concept"@));
        let all = sanitized(v).concepts;
        assert(all.map_values(raw) =~= c.map_values(raw) + items_of("concept"@, p).map_values(raw));
        assert(c.map_values(raw).len() == c.len());
    }
    if v is Array {
        lemma_items("concept"@, v->Array_0);
    }
}

proof fn lemma_two_keys(v: JsonTree, key: Seq<char>, other: Seq<char>)
    ensures
        array_under(v, seq![key, other]) == listed_under(v, key, other),
{
    let keys = seq![key, other];
    assert(keys.drop_first() =~= seq![other]);
    assert(keys.drop_first().drop_first() =~= Seq::<Seq<char>>::empty());
    reveal_with_fuel(array_under, 3);
}

/// An item is what its document says: its name and description without the blanks
/// round them, its type and subtype, its confidence, or none, and the messages that it
/// names. Where it has no subtype, its type counts as one.
pub proof fn items_say_what_their_documents_say(kind: Seq<char>, raw: JsonTree)
    ensures
        ({
            let i = item_of(kind, raw);
            &&& i.raw == raw
            &&& raw.at("name"@) matches JsonTree::Str(s) ==> i.name == trimmed(s)
            &&& raw.at("description"@) matches JsonTree::Str(s) ==> (if trimmed(s).len() > 0 {
                i.description == Some(trimmed(s))
            } else {
                i.description is None
            })
            &&& !(raw.at("description"@) is Str) ==> i.description is None
            &&& raw.at("type"@) matches JsonTree::Str(s) ==> (if trimmed(s).len() > 0 {
                i.item_type == Some(trimmed(s))
            } else {
                i.item_type is None
            })
            &&& raw.at("subtype"@) matches JsonTree::Str(s) ==> i.subtype == valid_subtype(
                kind,
                Some(s),
            )
            &&& !(raw.at("subtype"@) is Str) ==> (raw.at("type"@) matches JsonTree::Str(s)
                ==> i.subtype == valid_subtype(kind, Some(s)))
            &&& !(raw.at("subtype"@) is Str) && !(raw.at("type"@) is Str) ==> i.subtype is None
            &&& !(raw.at("type"@) is Str) ==> i.item_type is None
            &&& raw.at("confidence"@) matches JsonTree::Number(n) ==> i.confidence == n.double
            &&& !(raw.at("confidence"@) is Number) ==> i.confidence.bits == 0
            &&& raw.at("message_ids"@) matches JsonTree::Array(v) ==> i.message_ids == v.filter(
                |x: JsonTree| x is Str,
            ).map_values(|x: JsonTree| x->Str_0)
            &&& !(raw.at("message_ids"@) is Array) ==> i.message_ids.len() == 0
        }),
{
    match raw.at("message_ids"@) {
        JsonTree::Array(v) => {
            strings_are_all_kept(v);
        },
        _ => {},
    }
}

/// Of a list of documents every string is kept, in order, and nothing else.
pub proof fn strings_are_all_kept(v: Seq<JsonTree>)
    ensures
        strings_among(v) == v.filter(|x: JsonTree| x is Str).map_values(|x: JsonTree| x->Str_0),
    decreases v.len(),
{
    reveal(Seq::filter);
    let p = |x: JsonTree| x is Str;
    let f = |x: JsonTree| x->Str_0;
    if v.len() > 0 {
        strings_are_all_kept(v.drop_last());
        assert(strings_among(v) =~= v.filter(p).map_values(f));
    } else {
        assert(strings_among(v) =~= v.filter(p).map_values(f));
    }
}

/// The taxonomy: which subtypes entities, sources and concepts can have, and that
/// nothing else has any. A subtype is taken however it is written, in capitals or
/// with blanks round it, and one that the taxonomy lacks is dropped.
pub proof fn the_taxonomy_is_whole(kind: Seq<char>, s: Seq<char>)
    ensures
        ({
            let entities = seq![
                "person"@,
                "organization"@,
                "tool"@,
                "product"@,
                "standard"@,
                "framework"@,
                "technology"@,
                "place"@,
            ];
            let sources = seq!["book"@, "article"@, "paper"@, "course"@, "talk"@];
            let has = |t: Seq<char>|
                (kind == "entity"@ && entities.contains(t)) || (kind == "source"@
                    && sources.contains(t)) || (kind == "concept"@ && t == "pattern"@);
            &&& is_subtype(kind, s) <==> has(s)
            &&& valid_subtype(kind, Some(s)) is Some <==> has(lowered(trimmed(s)))
            &&& valid_subtype(kind, Some(s)) matches Some(t) ==> t == lowered(trimmed(s))
            &&& valid_subtype(kind, None) is None
        }),
{
    let entities = seq![
        "person"@,
        "organization"@,
        "tool"@,
        "product"@,
        "standard"@,
        "framework"@,
        "technology"@,
        "place"@,
    ];
    let sources = seq!["book"@, "article"@, "paper"@, "course"@, "talk"@];
    assert forall|t: Seq<char>| #[trigger] entities.contains(t) <==> (t == "person"@ || t
        == "organization"@ || t == "tool"@ || t == "product"@ || t == "standard"@ || t
        == "framework"@ || t == "technology"@ || t == "place"@) by {
        assert(entities[0] == "person"@ && entities[1] == "organization"@ && entities[2] == "tool"@
            && entities[3] == "product"@ && entities[4] == "standard"@ && entities[5]
            == "framework"@ && entities[6] == "technology"@ && entities[7] == "place"@);
    }
    assert forall|t: Seq<char>| #[trigger] sources.contains(t) <==> (t == "book"@ || t
        == "article"@ || t == "paper"@ || t == "course"@ || t == "talk"@) by {
        assert(sources[0] == "book"@ && sources[1] == "article"@ && sources[2] == "paper"@
            && sources[3] == "course"@ && sources[4] == "talk"@);
    }
}

} // verus!
