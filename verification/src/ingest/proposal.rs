//! From what was extracted to what is done to the graph.

use super::naming::{is_parked, node_name, normalize_name, parked, PARKED_BITS};
use crate::double::Double;
use crate::json::{Json, JsonTree};
use crate::kg::extraction::{
    item_views, read_strings, strings_among, ExtractItem, ExtractOutput, ItemView, OutputView,
};
use crate::text::{is_blank, same, text_opt, texts, trimmed};
use vstd::prelude::*;

verus! {

// Proposals --------------------------------------------------------------

/// A node that is proposed for the graph.
#[derive(Debug)]
pub struct Proposed {
    pub kind: String,
    pub name: String,
    pub description: Option<String>,
    pub confidence: Double,
    pub message_ids: Vec<String>,
    /// The document that the proposal was read from.
    pub raw: Json,
}

/// What a proposal holds.
pub ghost struct ProposedView {
    pub kind: Seq<char>,
    pub name: Seq<char>,
    pub description: Option<Seq<char>>,
    pub confidence: Double,
    pub message_ids: Seq<Seq<char>>,
    pub raw: JsonTree,
}

impl View for Proposed {
    type V = ProposedView;

    open spec fn view(&self) -> ProposedView {
        ProposedView {
            kind: self.kind@,
            name: self.name@,
            description: text_opt(self.description),
            confidence: self.confidence,
            message_ids: texts(self.message_ids@),
            raw: self.raw@,
        }
    }
}

/// The contents of a list of proposals.
pub open spec fn proposed_views(v: Seq<Proposed>) -> Seq<ProposedView> {
    v.map_values(|p: Proposed| p@)
}

/// The name that a document proposes.
pub open spec fn proposed_name(raw: JsonTree) -> Seq<char> {
    match raw.str_at("name"@) {
        Some(s) => node_name(s),
        None => Seq::empty(),
    }
}

/// The description that a document proposes, unless it is blank.
pub open spec fn proposed_description(raw: JsonTree) -> Option<Seq<char>> {
    match raw.str_at("description"@) {
        Some(s) => if trimmed(s).len() > 0 {
            Some(s)
        } else {
            None
        },
        None => None,
    }
}

/// The proposal that a document makes, if it names a node.
pub open spec fn proposal_of(
    kind: Seq<char>,
    raw: JsonTree,
    fallback: Double,
) -> Option<ProposedView> {
    if proposed_name(raw).len() == 0 {
        None
    } else {
        Some(
            ProposedView {
                kind,
                name: proposed_name(raw),
                description: proposed_description(raw),
                confidence: match raw.at("confidence"@).as_double() {
                    Some(d) => d,
                    None => fallback,
                },
                message_ids: match raw.at("message_ids"@).as_array() {
                    Some(v) => strings_among(v),
                    None => Seq::empty(),
                },
                raw,
            },
        )
    }
}

/// Reads the proposal that a document makes.
pub fn parse_proposal(kind: &str, raw: Json, fallback_confidence: Double) -> (r: Result<
    Proposed,
    String,
>)
    ensures
        match (r, proposal_of(kind@, raw@, fallback_confidence)) {
            (Ok(p), Some(v)) => p@ == v,
            (Err(m), None) => m@ == "proposal missing name"@,
            _ => false,
        },
{
    let name = match raw.str_at("name") {
        Some(s) => normalize_name(s),
        None => String::new(),
    };
    if name.as_str().is_empty() {
        return Err("proposal missing name".to_owned());
    }
    let description = match raw.str_at("description") {
        Some(s) => if is_blank(s) {
            None
        } else {
            Some(s.to_owned())
        },
        None => None,
    };
    let message_ids = match raw.get("message_ids") {
        Some(v) => match v.as_array() {
            Some(items) => read_strings(items),
            None => Vec::new(),
        },
        None => Vec::new(),
    };
    assert(texts(message_ids@) =~= match raw@.at("message_ids"@).as_array() {
        Some(v) => strings_among(v),
        None => Seq::empty(),
    });
    let confidence = match raw.get("confidence") {
        Some(v) => match v.as_double() {
            Some(d) => d,
            None => fallback_confidence,
        },
        None => fallback_confidence,
    };
    Ok(Proposed { kind: kind.to_owned(), name, description, confidence, message_ids, raw })
}

// The proposals of a conversation ----------------------------------------

/// Whether an item stands for a pattern rather than a concept.
pub open spec fn is_pattern(i: ItemView) -> bool {
    i.subtype == Some("pattern"@)
}

/// The items with the kinds under which they are proposed: topics, entities,
/// concepts and patterns, in this order.
pub open spec fn kinded(out: OutputView) -> Seq<(Seq<char>, ItemView)> {
    out.topics.map_values(|i: ItemView| ("topic"@, i)) + out.entities.map_values(
        |i: ItemView| ("entity"@, i),
    ) + crate::seqs::kept(out.concepts, |i: ItemView| !is_pattern(i)).map_values(
        |i: ItemView| ("concept"@, i),
    ) + crate::seqs::kept(out.concepts, |i: ItemView| is_pattern(i)).map_values(
        |i: ItemView| ("pattern"@, i),
    )
}

/// The proposals that the items make; none at all if one of them has no name.
pub open spec fn proposals_of(items: Seq<(Seq<char>, ItemView)>) -> Option<Seq<ProposedView>>
    decreases items.len(),
{
    if items.len() == 0 {
        Some(Seq::empty())
    } else {
        let i = items.last();
        match (proposals_of(items.drop_last()), proposal_of(i.0, i.1.raw, i.1.confidence)) {
            (Some(v), Some(p)) => Some(v.push(p)),
            _ => None,
        }
    }
}

proof fn lemma_proposals_none(items: Seq<(Seq<char>, ItemView)>, n: int)
    requires
        0 <= n <= items.len(),
        proposals_of(items.take(n)) is None,
    ensures
        proposals_of(items) is None,
    decreases items.len() - n,
{
    if n < items.len() {
        assert(items.take(n + 1).drop_last() =~= items.take(n));
        lemma_proposals_none(items, n + 1);
    } else {
        assert(items.take(n) =~= items);
    }
}

/// Puts the proposals of the items behind `out`, which holds those of the items
/// before them; `done` is what they are in all.
fn propose_all(kind: &str, items: Vec<ExtractItem>, out: &mut Vec<Proposed>, done: Ghost<
    Seq<(Seq<char>, ItemView)>,
>) -> (r: Result<(), String>)
    requires
        proposals_of(done@) == Some(proposed_views(old(out)@)),
    ensures
        match r {
            Ok(_) => proposals_of(
                done@ + item_views(items@).map_values(|i: ItemView| (kind@, i)),
            ) == Some(proposed_views(final(out)@)),
            Err(m) => m@ == "proposal missing name"@ && proposals_of(
                done@ + item_views(items@).map_values(|i: ItemView| (kind@, i)),
            ) is None,
        },
{
    let ghost whole = items@;
    let ghost pairs = item_views(whole).map_values(|i: ItemView| (kind@, i));
    let ghost all = done@ + pairs;
    assert(all.take(done@.len() as int) =~= done@);
    for item in it: items
        invariant
            whole == it.seq(),
            pairs == item_views(whole).map_values(|i: ItemView| (kind@, i)),
            all == done@ + pairs,
            proposals_of(all.take(done@.len() + it.index())) == Some(proposed_views(out@)),
    {
        let ghost k = done@.len() + it.index();
        proof {
            assert(all.take(k + 1).drop_last() =~= all.take(k));
            assert(all.take(k + 1).last() == (kind@, item@));
        }
        match parse_proposal(kind, item.raw, item.confidence) {
            Ok(p) => {
                proof {
                    assert(proposed_views(out@.push(p)) =~= proposed_views(out@).push(p@));
                }
                out.push(p);
            },
            Err(m) => {
                proof {
                    lemma_proposals_none(all, k + 1);
                }
                return Err(m);
            },
        }
    }
    assert(all.take((done@.len() + whole.len()) as int) =~= all);
    Ok(())
}

fn pattern_item(i: &ExtractItem) -> (r: bool)
    ensures
        r == is_pattern(i@),
{
    match &i.subtype {
        Some(s) => same(s.as_str(), "pattern"),
        None => false,
    }
}

/// Parts the concepts from the patterns.
fn part_patterns(concepts: Vec<ExtractItem>) -> (r: (Vec<ExtractItem>, Vec<ExtractItem>))
    ensures
        item_views(r.0@) == crate::seqs::kept(
            item_views(concepts@),
            |i: ItemView| !is_pattern(i),
        ),
        item_views(r.1@) == crate::seqs::kept(item_views(concepts@), |i: ItemView| is_pattern(i)),
{
    let ghost whole = concepts@;
    let ghost all = item_views(whole);
    let ghost plain = |i: ItemView| !is_pattern(i);
    let ghost pattern = |i: ItemView| is_pattern(i);
    let mut a: Vec<ExtractItem> = Vec::new();
    let mut b: Vec<ExtractItem> = Vec::new();
    assert(all.take(0) =~= Seq::<ItemView>::empty());
    assert(item_views(a@) =~= Seq::<ItemView>::empty());
    for item in it: concepts
        invariant
            whole == it.seq(),
            all == item_views(whole),
            plain == (|i: ItemView| !is_pattern(i)),
            pattern == (|i: ItemView| is_pattern(i)),
            item_views(a@) == crate::seqs::kept(all.take(it.index() as int), plain),
            item_views(b@) == crate::seqs::kept(all.take(it.index() as int), pattern),
    {
        proof {
            crate::seqs::lemma_kept_step(all, plain, it.index() as int);
            crate::seqs::lemma_kept_step(all, pattern, it.index() as int);
            crate::kg::extraction::lemma_item_views_push(a@, item);
            crate::kg::extraction::lemma_item_views_push(b@, item);
        }
        if pattern_item(&item) {
            b.push(item);
        } else {
            a.push(item);
        }
    }
    assert(all.take(whole.len() as int) =~= all);
    (a, b)
}

/// The proposals that an extraction makes.
pub fn propose(out: ExtractOutput) -> (r: Result<Vec<Proposed>, String>)
    ensures
        match r {
            Ok(v) => proposals_of(kinded(out@)) == Some(proposed_views(v@)),
            Err(m) => proposals_of(kinded(out@)) is None && m@ == "proposal missing name"@,
        },
{
    let ghost o = out@;
    let ghost a = o.topics.map_values(|i: ItemView| ("topic"@, i));
    let ghost b = o.entities.map_values(|i: ItemView| ("entity"@, i));
    let ghost c = crate::seqs::kept(o.concepts, |i: ItemView| !is_pattern(i)).map_values(
        |i: ItemView| ("concept"@, i),
    );
    let ghost d = crate::seqs::kept(o.concepts, |i: ItemView| is_pattern(i)).map_values(
        |i: ItemView| ("pattern"@, i),
    );
    let (concepts, patterns) = part_patterns(out.concepts);
    let mut v: Vec<Proposed> = Vec::new();
    proof {
        assert(proposed_views(v@) =~= Seq::<ProposedView>::empty());
        assert(Seq::<(Seq<char>, ItemView)>::empty() + a =~= a);
        assert(kinded(o).take(a.len() as int) =~= a);
        assert(kinded(o).take((a + b).len() as int) =~= a + b);
        assert(kinded(o).take((a + b + c).len() as int) =~= a + b + c);
    }
    match propose_all("topic", out.topics, &mut v, Ghost(Seq::empty())) {
        Ok(_) => {},
        Err(m) => {
            proof {
                lemma_proposals_none(kinded(o), a.len() as int);
            }
            return Err(m);
        },
    }
    match propose_all("entity", out.entities, &mut v, Ghost(a)) {
        Ok(_) => {},
        Err(m) => {
            proof {
                lemma_proposals_none(kinded(o), (a + b).len() as int);
            }
            return Err(m);
        },
    }
    match propose_all("concept", concepts, &mut v, Ghost(a + b)) {
        Ok(_) => {},
        Err(m) => {
            proof {
                lemma_proposals_none(kinded(o), (a + b + c).len() as int);
            }
            return Err(m);
        },
    }
    match propose_all("pattern", patterns, &mut v, Ghost(a + b + c)) {
        Ok(_) => {},
        Err(m) => {
            return Err(m);
        },
    }
    Ok(v)
}

// Embeddings -------------------------------------------------------------

/// What is embedded for a proposal: its name, with the description behind it.
pub open spec fn embedded_text(p: ProposedView) -> Seq<char> {
    match p.description {
        Some(d) => if d.len() > 0 {
            p.name + ": "@ + d
        } else {
            p.name
        },
        None => p.name,
    }
}

/// What is embedded for a proposal.
pub fn embed_input(p: &Proposed) -> (r: String)
    ensures
        r@ == embedded_text(p@),
{
    match &p.description {
        Some(d) => if d.as_str().is_empty() {
            p.name.clone()
        } else {
            let mut out = p.name.clone();
            out.append(": ");
            out.append(d.as_str());
            out
        },
        None => p.name.clone(),
    }
}

/// Whether a proposal needs an embedding: it goes into the graph, and it is no
/// pattern, which is matched by its name.
pub open spec fn needs_embedding(p: ProposedView) -> bool {
    p.confidence.at_least(Double { bits: PARKED_BITS }) && p.kind != "pattern"@
}

/// The positions of the proposals that need an embedding.
pub open spec fn embed_positions(v: Seq<ProposedView>) -> Seq<int>
    decreases v.len(),
{
    if v.len() == 0 {
        Seq::empty()
    } else {
        let before = embed_positions(v.drop_last());
        if needs_embedding(v.last()) {
            before.push(v.len() - 1)
        } else {
            before
        }
    }
}

/// Whether a proposal needs an embedding.
pub fn wants_embedding(p: &Proposed) -> (r: bool)
    ensures
        r == needs_embedding(p@),
{
    p.confidence.ge(Double { bits: PARKED_BITS }) && !same(p.kind.as_str(), "pattern")
}

/// The positions of the proposals that need an embedding, and what is embedded
/// for each.
pub fn embed_plan(v: &Vec<Proposed>) -> (r: (Vec<usize>, Vec<String>))
    ensures
        r.0@.map_values(|i: usize| i as int) == embed_positions(proposed_views(v@)),
        r.0@.len() == r.1@.len(),
        forall|k: int|
            0 <= k < r.0@.len() ==> #[trigger] r.0@[k] < v@.len() && r.1@[k]@ == embedded_text(
                v@[r.0@[k] as int]@,
            ),
{
    let ghost all = proposed_views(v@);
    let mut at: Vec<usize> = Vec::new();
    let mut inputs: Vec<String> = Vec::new();
    let mut i: usize = 0;
    assert(all.take(0) =~= Seq::<ProposedView>::empty());
    assert(at@.map_values(|i: usize| i as int) =~= Seq::<int>::empty());
    while i < v.len()
        invariant
            i <= v@.len(),
            all == proposed_views(v@),
            at@.map_values(|i: usize| i as int) == embed_positions(all.take(i as int)),
            at@.len() == inputs@.len(),
            forall|k: int|
                0 <= k < at@.len() ==> #[trigger] at@[k] < v@.len() && inputs@[k]@
                    == embedded_text(v@[at@[k] as int]@),
        decreases v@.len() - i,
    {
        assert(all.take(i + 1).drop_last() =~= all.take(i as int));
        assert(all.take(i + 1).last() == v@[i as int]@);
        if wants_embedding(&v[i]) {
            assert(at@.push(i).map_values(|i: usize| i as int) =~= at@.map_values(
                |i: usize| i as int,
            ).push(i as int));
            at.push(i);
            inputs.push(embed_input(&v[i]));
        }
        i = i + 1;
    }
    assert(all.take(i as int) =~= all);
    (at, inputs)
}

/// The embedding of each proposal: the positions got theirs in order, as far as
/// there were any.
pub open spec fn slot_of(at: Seq<usize>, batch: Seq<Vec<u32>>, i: int) -> Option<Vec<u32>>
    decreases at.len(),
{
    if at.len() == 0 {
        None
    } else if at.len() <= batch.len() && at.last() == i {
        Some(batch[at.len() - 1])
    } else {
        slot_of(at.drop_last(), batch, i)
    }
}

/// Hands the embeddings out to the `n` proposals at the positions.
pub fn spread_embeddings(n: usize, at: &Vec<usize>, batch: Vec<Vec<u32>>) -> (r: Vec<
    Option<Vec<u32>>,
>)
    requires
        forall|k: int| 0 <= k < at@.len() ==> #[trigger] at@[k] < n,
    ensures
        r@.len() == n,
        forall|i: int| 0 <= i < n ==> #[trigger] r@[i] == slot_of(at@, batch@, i),
{
    let ghost whole = batch@;
    let mut out: Vec<Option<Vec<u32>>> = Vec::new();
    let mut i: usize = 0;
    while i < n
        invariant
            i <= n,
            out@.len() == i,
            forall|k: int| 0 <= k < i ==> #[trigger] out@[k] is None,
        decreases n - i,
    {
        out.push(None);
        i = i + 1;
    }
    assert(at@.take(0) =~= Seq::<usize>::empty());
    let mut k: usize = 0;
    for emb in it: batch
        invariant
            whole == it.seq(),
            out@.len() == n,
            k <= at@.len(),
            k == it.index() || (k == at@.len() && k <= it.index()),
            forall|k: int| 0 <= k < at@.len() ==> #[trigger] at@[k] < n,
            forall|i: int|
                0 <= i < n ==> #[trigger] out@[i] == slot_of(at@.take(k as int), whole, i),
    {
        if k < at.len() {
            let ghost before = out@;
            let slot: usize = at[k];
            out.set(slot, Some(emb));
            proof {
                let next = at@.take(k + 1);
                assert(next.drop_last() =~= at@.take(k as int));
                assert(next.last() == slot);
                assert forall|i: int| 0 <= i < n implies #[trigger] out@[i] == slot_of(
                    next,
                    whole,
                    i,
                ) by {
                    assert(before[i] == slot_of(at@.take(k as int), whole, i));
                }
            }
            k = k + 1;
        }
    }
    proof {
        lemma_slots_left(at@, whole, k as int);
    }
    out
}

proof fn lemma_slots_left(at: Seq<usize>, batch: Seq<Vec<u32>>, k: int)
    requires
        0 <= k <= at.len(),
        k == at.len() || k == batch.len(),
    ensures
        forall|i: int| #[trigger] slot_of(at, batch, i) == slot_of(at.take(k), batch, i),
    decreases at.len() - k,
{
    if k < at.len() {
        lemma_slots_left(at.drop_last(), batch, k);
        assert(at.drop_last().take(k) =~= at.take(k));
        assert forall|i: int| #[trigger] slot_of(at, batch, i) == slot_of(
            at.take(k),
            batch,
            i,
        ) by {
            assert(slot_of(at.drop_last(), batch, i) == slot_of(at.take(k), batch, i));
        }
    } else {
        assert(at.take(k) =~= at);
    }
}

// Decisions --------------------------------------------------------------

/// What is done with a proposal.
#[derive(Debug)]
pub struct Decision {
    pub proposal: Proposed,
    /// The node that it is merged into, if there is one.
    pub merge_into: Option<String>,
    /// The bits of its embedding's components, if it has one.
    pub embedding: Option<Vec<u32>>,
}

/// What a decision holds.
pub ghost struct DecisionView {
    pub proposal: ProposedView,
    pub merge_into: Option<Seq<char>>,
    pub embedding: Option<Seq<u32>>,
}

impl View for Decision {
    type V = DecisionView;

    open spec fn view(&self) -> DecisionView {
        DecisionView {
            proposal: self.proposal@,
            merge_into: text_opt(self.merge_into),
            embedding: match self.embedding {
                Some(v) => Some(v@),
                None => None,
            },
        }
    }
}

/// The contents of a list of decisions.
pub open spec fn decision_views(v: Seq<Decision>) -> Seq<DecisionView> {
    v.map_values(|d: Decision| d@)
}

/// Where a node to merge into is looked for.
#[derive(Clone, Copy, Debug, PartialEq, Eq, Structural)]
pub enum Lookup {
    /// Nowhere.
    Nowhere,
    /// Among the patterns, by name.
    PatternByName,
    /// Among the nodes of the kind, by the nearest embedding.
    Nearest,
}

/// Where a node to merge an approved proposal into is looked for.
pub open spec fn approval_lookup_of(p: ProposedView, embedded: bool) -> Lookup {
    if p.kind == "pattern"@ {
        Lookup::PatternByName
    } else if embedded {
        Lookup::Nearest
    } else {
        Lookup::Nowhere
    }
}

/// Where a node to merge into is looked for: for a parked proposal nowhere, for
/// any other where it is looked for once the proposal is approved.
pub open spec fn lookup_of(p: ProposedView, embedded: bool) -> Lookup {
    if is_parked(p.confidence) {
        Lookup::Nowhere
    } else {
        approval_lookup_of(p, embedded)
    }
}

/// Whether an approved proposal gets an embedding.
pub fn approval_embeds(p: &Proposed) -> (r: bool)
    ensures
        r == (p@.kind != "pattern"@),
{
    !same(p.kind.as_str(), "pattern")
}

/// Where a node to merge an approved proposal into is looked for.
pub fn approval_lookup(p: &Proposed, embedded: bool) -> (r: Lookup)
    ensures
        r == approval_lookup_of(p@, embedded),
{
    if same(p.kind.as_str(), "pattern") {
        Lookup::PatternByName
    } else if embedded {
        Lookup::Nearest
    } else {
        Lookup::Nowhere
    }
}

/// Where a node to merge into is looked for.
pub fn lookup_for(p: &Proposed, embedded: bool) -> (r: Lookup)
    ensures
        r == lookup_of(p@, embedded),
{
    if parked(p.confidence) {
        Lookup::Nowhere
    } else {
        approval_lookup(p, embedded)
    }
}

/// What is done with an approved proposal, given its embedding and the node that
/// was found: a pattern keeps no embedding, anything else is merged only if it
/// has one.
pub open spec fn approved(
    p: ProposedView,
    embedding: Option<Seq<u32>>,
    candidate: Option<Seq<char>>,
) -> DecisionView {
    if p.kind == "pattern"@ {
        DecisionView { proposal: p, merge_into: candidate, embedding: None }
    } else {
        DecisionView {
            proposal: p,
            merge_into: if embedding is Some {
                candidate
            } else {
                None
            },
            embedding,
        }
    }
}

/// What is done with a proposal, given its embedding and the node that was
/// found: a parked one keeps neither.
pub open spec fn decided(
    p: ProposedView,
    embedding: Option<Seq<u32>>,
    candidate: Option<Seq<char>>,
) -> DecisionView {
    if is_parked(p.confidence) {
        DecisionView { proposal: p, merge_into: None, embedding: None }
    } else {
        approved(p, embedding, candidate)
    }
}

/// What is done with an approved proposal.
pub fn approve(p: Proposed, embedding: Option<Vec<u32>>, candidate: Option<String>) -> (r: Decision)
    ensures
        r@ == approved(
            p@,
            match embedding {
                Some(v) => Some(v@),
                None => None,
            },
            text_opt(candidate),
        ),
{
    if same(p.kind.as_str(), "pattern") {
        Decision { proposal: p, merge_into: candidate, embedding: None }
    } else {
        match embedding {
            Some(v) => Decision { proposal: p, merge_into: candidate, embedding: Some(v) },
            None => Decision { proposal: p, merge_into: None, embedding: None },
        }
    }
}

/// What is done with a proposal.
pub fn decide(p: Proposed, embedding: Option<Vec<u32>>, candidate: Option<String>) -> (r: Decision)
    ensures
        r@ == decided(
            p@,
            match embedding {
                Some(v) => Some(v@),
                None => None,
            },
            text_opt(candidate),
        ),
{
    if parked(p.confidence) {
        Decision { proposal: p, merge_into: None, embedding: None }
    } else {
        approve(p, embedding, candidate)
    }
}

// Merging ----------------------------------------------------------------

/// The distance of two topics with a cosine of 0.88, in single precision.
pub const TOPIC_DISTANCE: u64 = 0x3FDF_5A7D_0000_0000;

/// The distance of two other nodes with a cosine of 0.92, in single precision.
pub const ENTITY_DISTANCE: u64 = 0x3FD9_9999_6000_0000;

/// The greatest distance at which a proposal of the kind is merged.
pub open spec fn merge_distance(kind: Seq<char>) -> Double {
    Double {
        bits: if kind == "topic"@ {
            TOPIC_DISTANCE
        } else {
            ENTITY_DISTANCE
        },
    }
}

/// The node to merge into: the nearest, if it is near enough. Its distance is
/// given in single precision.
pub fn find_merge_candidate(kind: &str, nearest: Option<(String, Double)>) -> (r: Option<String>)
    ensures
        text_opt(r) == match nearest {
            Some(n) => if merge_distance(kind@).at_least(n.1) {
                Some(n.0@)
            } else {
                None
            },
            None => None,
        },
{
    let limit = Double {
        bits: if same(kind, "topic") {
            TOPIC_DISTANCE
        } else {
            ENTITY_DISTANCE
        },
    };
    match nearest {
        Some(n) => if limit.ge(n.1) {
            Some(n.0)
        } else {
            None
        },
        None => None,
    }
}

// Embeddings as they are stored ------------------------------------------

/// The bytes of a 32-bit word, the lowest first.
pub open spec fn word_bytes(x: u32) -> Seq<u8> {
    seq![
        (x & 0xff) as u8,
        ((x >> 8) & 0xff) as u8,
        ((x >> 16) & 0xff) as u8,
        ((x >> 24) & 0xff) as u8,
    ]
}

/// The bytes of an embedding as it is stored.
pub open spec fn stored_bytes(v: Seq<u32>) -> Seq<u8>
    decreases v.len(),
{
    if v.len() == 0 {
        Seq::empty()
    } else {
        stored_bytes(v.drop_last()) + word_bytes(v.last())
    }
}

/// The bytes of an embedding as it is stored.
pub fn vec_bytes(v: &Vec<u32>) -> (r: Vec<u8>)
    ensures
        r@ == stored_bytes(v@),
{
    let mut out: Vec<u8> = Vec::new();
    let mut i: usize = 0;
    assert(v@.take(0) =~= Seq::<u32>::empty());
    while i < v.len()
        invariant
            i <= v@.len(),
            out@ == stored_bytes(v@.take(i as int)),
        decreases v@.len() - i,
    {
        assert(v@.take(i + 1).drop_last() =~= v@.take(i as int));
        let x: u32 = v[i];
        let ghost before = out@;
        out.push((x & 0xff) as u8);
        out.push(((x >> 8) & 0xff) as u8);
        out.push(((x >> 16) & 0xff) as u8);
        out.push(((x >> 24) & 0xff) as u8);
        assert(out@ =~= before + word_bytes(x));
        i = i + 1;
    }
    assert(v@.take(i as int) =~= v@);
    out
}

/// The word that four bytes make.
pub open spec fn word_of(b: Seq<u8>) -> u32 {
    (b[0] as u32) | ((b[1] as u32) << 8) | ((b[2] as u32) << 16) | ((b[3] as u32) << 24)
}

/// The embedding that the bytes hold: a word for each four of them.
pub open spec fn read_words(b: Seq<u8>) -> Seq<u32> {
    Seq::new(b.len() / 4, |i: int| word_of(b.subrange(4 * i, 4 * i + 4)))
}

/// The embedding that the bytes hold. What is left over behind the last four bytes
/// is nothing.
pub fn vec_of_bytes(b: &Vec<u8>) -> (r: Vec<u32>)
    ensures
        r@ == read_words(b@),
{
    let n: usize = b.len() / 4;
    let mut out: Vec<u32> = Vec::new();
    let mut i: usize = 0;
    while i < n
        invariant
            n == b@.len() / 4,
            i <= n,
            out@ == read_words(b@).take(i as int),
        decreases n - i,
    {
        assert(4 * i + 4 <= b.len());
        let x: u32 = (b[4 * i] as u32) | ((b[4 * i + 1] as u32) << 8) | ((b[4 * i + 2] as u32)
            << 16) | ((b[4 * i + 3] as u32) << 24);
        proof {
            let four = b@.subrange(4 * i, 4 * i + 4);
            assert(four[0] == b@[4 * i] && four[1] == b@[4 * i + 1] && four[2] == b@[4 * i + 2]
                && four[3] == b@[4 * i + 3]);
            assert(read_words(b@)[i as int] == x);
        }
        out.push(x);
        assert(out@ =~= read_words(b@).take(i + 1));
        i = i + 1;
    }
    assert(read_words(b@).take(n as int) =~= read_words(b@));
    out
}

// Laws -------------------------------------------------------------------

proof fn lemma_word(x: u32)
    ensures
        word_of(word_bytes(x)) == x,
{
    assert(((((x & 0xff) as u8) as u32) | (((((x >> 8) & 0xff) as u8) as u32) << 8) | (((((x >> 16)
        & 0xff) as u8) as u32) << 16) | (((((x >> 24) & 0xff) as u8) as u32) << 24)) == x)
        by (bit_vector);
}

/// An embedding is read back from the bytes in which it is stored.
pub proof fn stored_embeddings_are_read_back(v: Seq<u32>)
    ensures
        read_words(stored_bytes(v)) == v,
{
    stored_embeddings_can_be_read(v);
    assert forall|i: int| 0 <= i < v.len() implies #[trigger] read_words(stored_bytes(v))[i]
        == v[i] by {
        assert(word_of(stored_bytes(v).subrange(4 * i, 4 * i + 4)) == v[i]);
    }
    assert(read_words(stored_bytes(v)) =~= v);
}

/// A stored embedding takes four bytes for each component, and each component
/// can be read back from its four.
pub proof fn stored_embeddings_can_be_read(v: Seq<u32>)
    ensures
        stored_bytes(v).len() == 4 * v.len(),
        forall|i: int|
            0 <= i < v.len() ==> word_of(stored_bytes(v).subrange(4 * i, 4 * i + 4))
                == #[trigger] v[i],
    decreases v.len(),
{
    if v.len() > 0 {
        let rest = v.drop_last();
        stored_embeddings_can_be_read(rest);
        assert forall|i: int| 0 <= i < v.len() implies word_of(
            stored_bytes(v).subrange(4 * i, 4 * i + 4),
        ) == #[trigger] v[i] by {
            if i < rest.len() {
                assert(rest[i] == v[i]);
                assert(stored_bytes(v).subrange(4 * i, 4 * i + 4) =~= stored_bytes(rest).subrange(
                    4 * i,
                    4 * i + 4,
                ));
            } else {
                assert(stored_bytes(v).subrange(4 * i, 4 * i + 4) =~= word_bytes(v[i]));
                lemma_word(v[i]);
            }
        }
    }
}

/// What was parked can be proposed again from the document that was kept: it is
/// the same proposal, whatever confidence is offered in place of a missing one,
/// as long as the document states its own.
pub proof fn parked_documents_say_the_same(
    kind: Seq<char>,
    raw: JsonTree,
    first: Double,
    second: Double,
)
    requires
        raw.at("confidence"@).as_double() is Some,
    ensures
        proposal_of(kind, raw, first) == proposal_of(kind, raw, second),
        proposal_of(kind, raw, first) matches Some(p) ==> p.raw == raw,
{
}

/// An extraction makes one proposal for each item, in their order. Each has the
/// kind of its item and names its node as the item does, in the form that node
/// names have.
pub proof fn proposals_name_their_nodes(items: Seq<(Seq<char>, ItemView)>)
    ensures
        proposals_of(items) matches Some(v) ==> v.len() == items.len() && (forall|i: int|
            0 <= i < v.len() ==> (#[trigger] v[i]).name == proposed_name(items[i].1.raw)
                && v[i].kind == items[i].0 && v[i].name.len() > 0
                && super::naming::is_node_name(v[i].name)),
    decreases items.len(),
{
    if items.len() > 0 {
        proposals_name_their_nodes(items.drop_last());
        match items.last().1.raw.str_at("name"@) {
            Some(s) => {
                super::naming::names_have_their_form(s);
            },
            None => {},
        }
        match (proposals_of(items.drop_last()), proposals_of(items)) {
            (Some(u), Some(v)) => {
                assert forall|i: int| 0 <= i < v.len() implies (#[trigger] v[i]).name
                    == proposed_name(items[i].1.raw) && v[i].kind == items[i].0 && v[i].name.len()
                    > 0 && super::naming::is_node_name(v[i].name) by {
                    if i < u.len() {
                        assert(v[i] == u[i]);
                        assert(items.drop_last()[i] == items[i]);
                    }
                }
            },
            _ => {},
        }
    }
}

/// A document proposes a node wherever its name has a letter or a digit, and the
/// proposal says what the document says: its name in the form of node names, its
/// description unless that is blank, its confidence or else the one that is offered,
/// and the messages that it names.
pub proof fn proposals_say_what_was_found(kind: Seq<char>, raw: JsonTree, fallback: Double)
    ensures
        proposal_of(kind, raw, fallback) is Some <==> raw.at("name"@) is Str && node_name(
            raw.at("name"@)->Str_0,
        ).len() > 0,
        proposal_of(kind, raw, fallback) matches Some(p) ==> {
            &&& p.kind == kind && p.raw == raw
            &&& p.name == node_name(raw.at("name"@)->Str_0)
            &&& raw.at("confidence"@) matches JsonTree::Number(n) ==> p.confidence == n.double
            &&& !(raw.at("confidence"@) is Number) ==> p.confidence == fallback
            &&& raw.at("description"@) matches JsonTree::Str(s) ==> (if trimmed(s).len() > 0 {
                p.description == Some(s)
            } else {
                p.description is None
            })
            &&& !(raw.at("description"@) is Str) ==> p.description is None
            &&& raw.at("message_ids"@) matches JsonTree::Array(v) ==> p.message_ids == v.filter(
                |x: JsonTree| x is Str,
            ).map_values(|x: JsonTree| x->Str_0)
            &&& !(raw.at("message_ids"@) is Array) ==> p.message_ids.len() == 0
        },
{
    match raw.at("message_ids"@) {
        JsonTree::Array(v) => {
            crate::kg::extraction::strings_are_all_kept(v);
        },
        _ => {},
    }
}

/// Nothing that was found is lost on the way to the proposals: topics, entities,
/// concepts and patterns are proposed one after the other, each item once, under its
/// own kind; a concept whose subtype is `pattern` is a pattern.
pub proof fn every_finding_is_proposed(out: OutputView)
    ensures
        ({
            let pattern = |i: ItemView| i.subtype == Some("pattern"@);
            let plain = |i: ItemView| i.subtype != Some("pattern"@);
            let items = out.topics + out.entities + out.concepts.filter(plain)
                + out.concepts.filter(pattern);
            &&& kinded(out).len() == items.len()
            &&& items.len() == out.topics.len() + out.entities.len() + out.concepts.len()
            &&& forall|i: int|
                0 <= i < items.len() ==> {
                    let k = #[trigger] kinded(out)[i];
                    &&& k.1 == items[i]
                    &&& k.0 == if i < out.topics.len() {
                        "topic"@
                    } else if i < out.topics.len() + out.entities.len() {
                        "entity"@
                    } else if items[i].subtype == Some("pattern"@) {
                        "pattern"@
                    } else {
                        "concept"@
                    }
                }
            &&& proposals_of(kinded(out)) matches Some(v) ==> v.len() == items.len() && forall|
                i: int,
            |
                0 <= i < v.len() ==> (#[trigger] v[i]).raw == items[i].raw && v[i].kind
                    == kinded(out)[i].0
            &&& proposals_of(kinded(out)) is None <==> exists|i: int|
                0 <= i < items.len() && !((#[trigger] items[i]).raw.at("name"@) is Str && node_name(
                    items[i].raw.at("name"@)->Str_0,
                ).len() > 0)
        }),
{
    let pattern = |i: ItemView| i.subtype == Some("pattern"@);
    let plain = |i: ItemView| i.subtype != Some("pattern"@);
    let c = out.concepts;
    let items = out.topics + out.entities + c.filter(plain) + c.filter(pattern);
    crate::seqs::lemma_kept_same(c, |i: ItemView| is_pattern(i), pattern);
    crate::seqs::lemma_kept_same(c, |i: ItemView| !is_pattern(i), plain);
    crate::seqs::keeping_is_filtering(c, pattern);
    crate::seqs::keeping_is_filtering(c, plain);
    lemma_parted(c);
    broadcast use vstd::seq_lib::group_filter_ensures;

    let all = kinded(out);
    assert forall|i: int| 0 <= i < items.len() implies ({
        let k = #[trigger] all[i];
        &&& k.1 == items[i]
        &&& k.0 == if i < out.topics.len() {
            "topic"@
        } else if i < out.topics.len() + out.entities.len() {
            "entity"@
        } else if items[i].subtype == Some("pattern"@) {
            "pattern"@
        } else {
            "concept"@
        }
    }) by {
        let t = out.topics.len() + out.entities.len();
        if i >= t {
            if i < t + c.filter(plain).len() {
                assert(items[i] == c.filter(plain)[i - t]);
                assert(plain(c.filter(plain)[i - t]));
            } else {
                let j = i - t - c.filter(plain).len();
                assert(items[i] == c.filter(pattern)[j]);
                assert(pattern(c.filter(pattern)[j]));
            }
        }
    }
    lemma_each_proposed(all);
    if proposals_of(all) is None {
        let i = choose|i: int|
            0 <= i < all.len() && proposal_of(
                (#[trigger] all[i]).0,
                all[i].1.raw,
                all[i].1.confidence,
            ) is None;
        proposals_say_what_was_found(all[i].0, all[i].1.raw, all[i].1.confidence);
        assert(items[i] == all[i].1);
    }
    if exists|i: int|
        0 <= i < items.len() && !((#[trigger] items[i]).raw.at("name"@) is Str && node_name(
            items[i].raw.at("name"@)->Str_0,
        ).len() > 0) {
        let i = choose|i: int|
            0 <= i < items.len() && !((#[trigger] items[i]).raw.at("name"@) is Str && node_name(
                items[i].raw.at("name"@)->Str_0,
            ).len() > 0);
        assert(all[i].1 == items[i]);
        proposals_say_what_was_found(all[i].0, all[i].1.raw, all[i].1.confidence);
    }
}

proof fn lemma_parted(c: Seq<ItemView>)
    ensures
        c.filter(|i: ItemView| i.subtype != Some("pattern"@)).len() + c.filter(
            |i: ItemView| i.subtype == Some("pattern"@),
        ).len() == c.len(),
    decreases c.len(),
{
    reveal(Seq::filter);
    if c.len() > 0 {
        lemma_parted(c.drop_last());
    }
}

proof fn lemma_each_proposed(items: Seq<(Seq<char>, ItemView)>)
    ensures
        proposals_of(items) matches Some(v) ==> v.len() == items.len() && forall|i: int|
            0 <= i < v.len() ==> proposal_of(items[i].0, items[i].1.raw, items[i].1.confidence)
                == Some(#[trigger] v[i]),
        proposals_of(items) is None <==> exists|i: int|
            0 <= i < items.len() && proposal_of(
                (#[trigger] items[i]).0,
                items[i].1.raw,
                items[i].1.confidence,
            ) is None,
    decreases items.len(),
{
    if items.len() > 0 {
        let rest = items.drop_last();
        lemma_each_proposed(rest);
        assert forall|i: int| 0 <= i < rest.len() implies #[trigger] rest[i] == items[i] by {}
        if proposals_of(items) is None {
            if proposals_of(rest) is None {
                let i = choose|i: int|
                    0 <= i < rest.len() && proposal_of(
                        (#[trigger] rest[i]).0,
                        rest[i].1.raw,
                        rest[i].1.confidence,
                    ) is None;
                assert(items[i] == rest[i]);
            } else {
                assert(items[items.len() - 1] == items.last());
            }
        } else {
            assert forall|i: int| 0 <= i < items.len() implies proposal_of(
                (#[trigger] items[i]).0,
                items[i].1.raw,
                items[i].1.confidence,
            ) is Some by {
                if i < rest.len() {
                    assert(proposal_of(rest[i].0, rest[i].1.raw, rest[i].1.confidence) is Some);
                }
            }
        }
    }
}

/// What is certain enough is merged into the node that was found for it: a pattern
/// always, anything else if it has an embedding, which it keeps. What is less certain
/// than 0.60 is neither merged nor kept with an embedding. The proposal itself is
/// never changed.
pub proof fn certain_findings_are_merged(
    p: ProposedView,
    embedding: Option<Seq<u32>>,
    candidate: Option<Seq<char>>,
)
    ensures
        ({
            let d = decided(p, embedding, candidate);
            let a = approved(p, embedding, candidate);
            let low = p.confidence.below(Double { bits: 0x3FE3_3333_3333_3333 });
            &&& d.proposal == p && a.proposal == p
            &&& low ==> d.merge_into is None && d.embedding is None
            &&& !low ==> d == a
            &&& p.kind == "pattern"@ ==> a.merge_into == candidate && a.embedding is None
            &&& p.kind != "pattern"@ ==> a.embedding == embedding
            &&& p.kind != "pattern"@ && embedding is Some ==> a.merge_into == candidate
            &&& p.kind != "pattern"@ && embedding is None ==> a.merge_into is None
        }),
{
}

/// A node to merge into is looked for wherever it could be merged into: for patterns
/// by name, for the others by their embedding, and for what is parked nowhere.
pub proof fn what_can_be_merged_is_looked_for(p: ProposedView, embedded: bool)
    ensures
        ({
            let low = p.confidence.below(Double { bits: 0x3FE3_3333_3333_3333 });
            &&& low ==> lookup_of(p, embedded) == Lookup::Nowhere
            &&& !low ==> lookup_of(p, embedded) == approval_lookup_of(p, embedded)
            &&& p.kind == "pattern"@ ==> approval_lookup_of(p, embedded) == Lookup::PatternByName
            &&& p.kind != "pattern"@ && embedded ==> approval_lookup_of(p, embedded)
                == Lookup::Nearest
            &&& p.kind != "pattern"@ && !embedded ==> approval_lookup_of(p, embedded)
                == Lookup::Nowhere
        }),
{
}

/// Embedded is what goes into the graph and is no pattern: exactly these positions are
/// planned, in order.
pub proof fn what_is_kept_is_embedded(v: Seq<ProposedView>)
    ensures
        forall|i: int, j: int|
            0 <= i < j < embed_positions(v).len() ==> #[trigger] embed_positions(v)[i]
                < #[trigger] embed_positions(v)[j],
        forall|k: int| #[trigger]
            embed_positions(v).contains(k) <==> 0 <= k < v.len() && v[k].kind != "pattern"@
                && v[k].confidence.at_least(Double { bits: 0x3FE3_3333_3333_3333 }),
    decreases v.len(),
{
    let after = embed_positions(v);
    if v.len() > 0 {
        let rest = v.drop_last();
        what_is_kept_is_embedded(rest);
        let before = embed_positions(rest);
        assert forall|i: int| 0 <= i < before.len() implies 0 <= #[trigger] before[i] < rest.len() by {
            assert(before.contains(before[i]));
        }
        assert forall|i: int, j: int| 0 <= i < j < after.len() implies #[trigger] after[i]
            < #[trigger] after[j] by {
            if j < before.len() {
                assert(before[i] < before[j]);
            } else {
                assert(before[i] < rest.len());
            }
        }
        assert forall|k: int| #[trigger] after.contains(k) <==> 0 <= k < v.len() && v[k].kind
            != "pattern"@ && v[k].confidence.at_least(Double { bits: 0x3FE3_3333_3333_3333 }) by {
            if after.contains(k) {
                let m = choose|m: int| 0 <= m < after.len() && after[m] == k;
                if m < before.len() {
                    assert(before[m] == k);
                    assert(before.contains(k));
                    assert(rest[k] == v[k]);
                }
            }
            if 0 <= k < v.len() && v[k].kind != "pattern"@ && v[k].confidence.at_least(
                Double { bits: 0x3FE3_3333_3333_3333 },
            ) {
                if k < rest.len() {
                    assert(rest[k] == v[k]);
                    assert(before.contains(k));
                    let m = choose|m: int| 0 <= m < before.len() && before[m] == k;
                    assert(after[m] == k);
                } else {
                    assert(after[before.len() as int] == k);
                }
            }
        }
    }
}

/// Every planned position gets the embedding that was made for it, as far as they go,
/// and nothing else gets one.
pub proof fn embeddings_reach_their_proposals(at: Seq<usize>, batch: Seq<Vec<u32>>, i: int)
    requires
        forall|j: int, k: int| 0 <= j < k < at.len() ==> #[trigger] at[j] < #[trigger] at[k],
    ensures
        slot_of(at, batch, i) matches Some(e) ==> exists|k: int|
            0 <= k < at.len() && k < batch.len() && #[trigger] at[k] == i && batch[k] == e,
        forall|k: int|
            0 <= k < at.len() && k < batch.len() && #[trigger] at[k] == i ==> slot_of(at, batch, i)
                == Some(batch[k]),
    decreases at.len(),
{
    if at.len() > 0 {
        let rest = at.drop_last();
        assert forall|j: int, k: int| 0 <= j < k < rest.len() implies #[trigger] rest[j]
            < #[trigger] rest[k] by {
            assert(at[j] < at[k]);
        }
        embeddings_reach_their_proposals(rest, batch, i);
        let last = at.len() - 1;
        if at.len() <= batch.len() && at.last() == i {
            assert(at[last] == i);
            assert forall|k: int|
                0 <= k < at.len() && k < batch.len() && #[trigger] at[k] == i implies k == last by {
                if k < last {
                    assert(at[k] < at[last]);
                }
            }
        } else {
            if slot_of(rest, batch, i) is Some {
                let k = choose|k: int|
                    0 <= k < rest.len() && k < batch.len() && #[trigger] rest[k] == i && batch[k]
                        == slot_of(rest, batch, i)->0;
                assert(at[k] == i);
            }
            assert forall|k: int|
                0 <= k < at.len() && k < batch.len() && #[trigger] at[k] == i implies slot_of(
                at,
                batch,
                i,
            ) == Some(batch[k]) by {
                assert(k < last);
                assert(rest[k] == i);
            }
        }
    }
}

/// What is embedded begins with the name, and ends with the description if there is
/// one.
pub proof fn embedded_texts_tell_name_and_description(p: ProposedView)
    ensures
        embedded_text(p).take(p.name.len() as int) == p.name,
        p.description is None ==> embedded_text(p) == p.name,
        p.description matches Some(d) ==> d.len() > 0 ==> embedded_text(p) == p.name + seq![
            ':',
            ' ',
        ] + d,
{
    reveal_strlit(": ");
    assert(": "@ =~= seq![':', ' ']);
    assert(embedded_text(p).take(p.name.len() as int) =~= p.name);
}

/// Topics are merged up to the distance that a cosine of 0.88 stands for, everything
/// else up to that of 0.92, which is nearer.
pub proof fn topics_are_merged_from_farther(kind: Seq<char>)
    ensures
        merge_distance("topic"@).bits == 0x3FDF_5A7D_0000_0000,
        kind != "topic"@ ==> merge_distance(kind).bits == 0x3FD9_9999_6000_0000,
        kind != "topic"@ ==> merge_distance(kind).below(merge_distance("topic"@)),
{
}

} // verus!
