//! Which conversations are still to be extracted, and how the extraction of the
//! others went.

use super::{lemma_views_push, views, NodeRow, NodeView};
use crate::json::{Json, JsonTree};
use crate::seqs::{arrange, arranged, kept, lemma_kept_step, Ranked};
use crate::sql::{
    integer_at, integer_or, sort_key_at, sort_value, values_are_in_one_line, SortKey, SortView,
};
use crate::text::{clone_text, contains_text, lex_lt, same, text_lt, text_opt, texts};
use vstd::prelude::*;

verus! {

// Rows -------------------------------------------------------------------

/// How far the extraction of a conversation is.
#[derive(Debug)]
pub struct ExtractionRow {
    pub conversation_id: String,
    /// `pending`, `processing`, `done`, `failed`, `skipped` or `stale`.
    pub status: String,
    pub content_hash: String,
    pub prompt_version: String,
    pub model_used: Option<String>,
    pub started_at: Option<String>,
    pub completed_at: Option<String>,
    pub error: Option<String>,
}

/// What a row holds.
pub ghost struct ExtractionView {
    pub conversation_id: Seq<char>,
    pub status: Seq<char>,
    pub content_hash: Seq<char>,
    pub prompt_version: Seq<char>,
    pub model_used: Option<Seq<char>>,
    pub started_at: Option<Seq<char>>,
    pub completed_at: Option<Seq<char>>,
    pub error: Option<Seq<char>>,
}

impl View for ExtractionRow {
    type V = ExtractionView;

    open spec fn view(&self) -> ExtractionView {
        ExtractionView {
            conversation_id: self.conversation_id@,
            status: self.status@,
            content_hash: self.content_hash@,
            prompt_version: self.prompt_version@,
            model_used: text_opt(self.model_used),
            started_at: text_opt(self.started_at),
            completed_at: text_opt(self.completed_at),
            error: text_opt(self.error),
        }
    }
}

// Changing rows ----------------------------------------------------------

/// The rows with the wanted ones changed.
pub open spec fn changed(
    rows: Seq<ExtractionView>,
    wanted: spec_fn(ExtractionView) -> bool,
    change: spec_fn(ExtractionView) -> ExtractionView,
) -> Seq<ExtractionView> {
    rows.map_values(
        |r: ExtractionView|
            if wanted(r) {
                change(r)
            } else {
                r
            },
    )
}

/// The row of the conversation.
pub open spec fn of_conversation(id: Seq<char>) -> spec_fn(ExtractionView) -> bool {
    |r: ExtractionView| r.conversation_id == id
}

/// The rows with one of the statuses.
pub open spec fn with_status(statuses: Seq<Seq<char>>) -> spec_fn(ExtractionView) -> bool {
    |r: ExtractionView| statuses.contains(r.status)
}

/// Every row.
pub open spec fn every_row() -> spec_fn(ExtractionView) -> bool {
    |r: ExtractionView| true
}

/// Which rows are changed.
enum Which {
    Conversation(String),
    Statuses(Vec<String>),
    All,
}

spec fn selects(w: Which, r: ExtractionView) -> bool {
    match w {
        Which::Conversation(id) => r.conversation_id == id@,
        Which::Statuses(v) => texts(v@).contains(r.status),
        Which::All => true,
    }
}

/// What becomes of a field.
enum Field {
    Keep,
    Clear,
    Put(String),
}

spec fn field(f: Field, old_value: Option<Seq<char>>) -> Option<Seq<char>> {
    match f {
        Field::Keep => old_value,
        Field::Clear => None,
        Field::Put(s) => Some(s@),
    }
}

struct Change {
    status: String,
    model_used: Field,
    started_at: Field,
    completed_at: Field,
    error: Field,
}

spec fn apply(c: Change, r: ExtractionView) -> ExtractionView {
    ExtractionView {
        status: c.status@,
        model_used: field(c.model_used, r.model_used),
        started_at: field(c.started_at, r.started_at),
        completed_at: field(c.completed_at, r.completed_at),
        error: field(c.error, r.error),
        ..r
    }
}

fn set_field(f: &Field, old_value: &Option<String>) -> (r: Option<String>)
    ensures
        text_opt(r) == field(*f, text_opt(*old_value)),
{
    match f {
        Field::Keep => clone_text(old_value),
        Field::Clear => None,
        Field::Put(s) => Some(s.clone()),
    }
}

fn is_selected(w: &Which, r: &ExtractionRow) -> (b: bool)
    ensures
        b == selects(*w, r@),
{
    match w {
        Which::Conversation(id) => same(r.conversation_id.as_str(), id.as_str()),
        Which::Statuses(v) => contains_text(v, r.status.as_str()),
        Which::All => true,
    }
}

/// Changes the selected rows and counts them.
fn update(rows: &mut Vec<ExtractionRow>, w: &Which, c: &Change) -> (n: usize)
    ensures
        views(final(rows)@) == changed(
            views(old(rows)@),
            |r: ExtractionView| selects(*w, r),
            |r: ExtractionView| apply(*c, r),
        ),
        n == kept(views(old(rows)@), |r: ExtractionView| selects(*w, r)).len(),
        n <= old(rows)@.len(),
{
    let ghost before = views(rows@);
    let ghost p = |r: ExtractionView| selects(*w, r);
    let ghost f = |r: ExtractionView| apply(*c, r);
    let ghost after = changed(before, p, f);
    let mut n: usize = 0;
    let mut i: usize = 0;
    assert(before.take(0) =~= Seq::<ExtractionView>::empty());
    while i < rows.len()
        invariant
            i <= rows@.len(),
            rows@.len() == before.len(),
            p == (|r: ExtractionView| selects(*w, r)),
            f == (|r: ExtractionView| apply(*c, r)),
            after == changed(before, p, f),
            n == kept(before.take(i as int), p).len(),
            n <= i,
            forall|k: int| 0 <= k < i ==> (#[trigger] views(rows@)[k]) == after[k],
            forall|k: int| i <= k < before.len() ==> (#[trigger] views(rows@)[k]) == before[k],
        decreases rows@.len() - i,
    {
        let ghost start = views(rows@);
        proof {
            lemma_kept_step(before, p, i as int);
            assert(start[i as int] == rows@[i as int]@);
        }
        if is_selected(w, &rows[i]) {
            let row = ExtractionRow {
                conversation_id: rows[i].conversation_id.clone(),
                status: c.status.clone(),
                content_hash: rows[i].content_hash.clone(),
                prompt_version: rows[i].prompt_version.clone(),
                model_used: set_field(&c.model_used, &rows[i].model_used),
                started_at: set_field(&c.started_at, &rows[i].started_at),
                completed_at: set_field(&c.completed_at, &rows[i].completed_at),
                error: set_field(&c.error, &rows[i].error),
            };
            rows.set(i, row);
            assert(views(rows@) =~= start.update(i as int, row@));
            n = n + 1;
        }
        i = i + 1;
    }
    assert(before.take(i as int) =~= before);
    assert(views(rows@) =~= after);
    n
}

// What happens to a conversation -----------------------------------------

/// The row once its conversation waits again.
pub open spec fn requeued(r: ExtractionView) -> ExtractionView {
    ExtractionView { status: "pending"@, error: None, ..r }
}

/// The row once the extraction has begun.
pub open spec fn begun(
    r: ExtractionView,
    model: Seq<char>,
    now: Seq<char>,
) -> ExtractionView {
    ExtractionView {
        status: "processing"@,
        model_used: Some(model),
        started_at: Some(now),
        error: None,
        ..r
    }
}

/// The row once the extraction has succeeded.
pub open spec fn succeeded(r: ExtractionView, now: Seq<char>) -> ExtractionView {
    ExtractionView { status: "done"@, completed_at: Some(now), error: None, ..r }
}

/// The row once the extraction has failed.
pub open spec fn failed(r: ExtractionView, error: Seq<char>, now: Seq<char>) -> ExtractionView {
    ExtractionView { status: "failed"@, completed_at: Some(now), error: Some(error), ..r }
}

/// The row once the user gave the conversation up.
pub open spec fn skipped(r: ExtractionView) -> ExtractionView {
    ExtractionView { status: "skipped"@, error: None, ..r }
}

/// The row once an extraction that was broken off waits again.
pub open spec fn unstuck(r: ExtractionView) -> ExtractionView {
    ExtractionView { status: "pending"@, started_at: None, error: None, ..r }
}

/// The row once everything about earlier extractions is forgotten.
pub open spec fn restarted(r: ExtractionView) -> ExtractionView {
    ExtractionView {
        status: "pending"@,
        started_at: None,
        completed_at: None,
        error: None,
        ..r
    }
}

/// Whether a row is there for the conversation.
pub open spec fn has_row(rows: Seq<ExtractionView>, id: Seq<char>) -> bool {
    exists|i: int| 0 <= i < rows.len() && (#[trigger] rows[i]).conversation_id == id
}

/// A row of a conversation of which nothing is known yet.
pub open spec fn new_row(
    id: Seq<char>,
    status: Seq<char>,
    content_hash: Seq<char>,
) -> ExtractionView {
    ExtractionView {
        conversation_id: id,
        status,
        content_hash,
        prompt_version: "1"@,
        model_used: None,
        started_at: None,
        completed_at: None,
        error: None,
    }
}

fn contains_row(rows: &Vec<ExtractionRow>, id: &str) -> (r: bool)
    ensures
        r == has_row(views(rows@), id@),
{
    let mut i: usize = 0;
    while i < rows.len()
        invariant
            i <= rows@.len(),
            forall|k: int| 0 <= k < i ==> (#[trigger] views(rows@)[k]).conversation_id != id@,
        decreases rows@.len() - i,
    {
        assert(views(rows@)[i as int] == rows@[i as int]@);
        if same(rows[i].conversation_id.as_str(), id) {
            return true;
        }
        i = i + 1;
    }
    false
}

fn make_row(id: &str, status: &str, content_hash: &str) -> (r: ExtractionRow)
    ensures
        r@ == new_row(id@, status@, content_hash@),
{
    ExtractionRow {
        conversation_id: id.to_owned(),
        status: status.to_owned(),
        content_hash: content_hash.to_owned(),
        prompt_version: "1".to_owned(),
        model_used: None,
        started_at: None,
        completed_at: None,
        error: None,
    }
}

/// Notes that the extraction of the conversation has begun.
pub fn begin_extraction(rows: &mut Vec<ExtractionRow>, id: &str, model: &str, now: &str)
    ensures
        views(final(rows)@) == if has_row(views(old(rows)@), id@) {
            changed(
                views(old(rows)@),
                of_conversation(id@),
                |r: ExtractionView| begun(r, model@, now@),
            )
        } else {
            views(old(rows)@).push(begun(new_row(id@, "pending"@, ""@), model@, now@))
        },
{
    let ghost before = views(rows@);
    if contains_row(rows, id) {
        let w = Which::Conversation(id.to_owned());
        let c = Change {
            status: "processing".to_owned(),
            model_used: Field::Put(model.to_owned()),
            started_at: Field::Put(now.to_owned()),
            completed_at: Field::Keep,
            error: Field::Clear,
        };
        let _n: usize = update(rows, &w, &c);
        assert(views(rows@) =~= changed(
            before,
            of_conversation(id@),
            |r: ExtractionView| begun(r, model@, now@),
        ));
    } else {
        let mut row = make_row(id, "processing", "");
        row.model_used = Some(model.to_owned());
        row.started_at = Some(now.to_owned());
        proof {
            lemma_views_push(rows@, row);
        }
        rows.push(row);
    }
}

/// Notes that the extraction of the conversation has succeeded.
pub fn finish_extraction(rows: &mut Vec<ExtractionRow>, id: &str, now: &str)
    ensures
        views(final(rows)@) == changed(
            views(old(rows)@),
            of_conversation(id@),
            |r: ExtractionView| succeeded(r, now@),
        ),
{
    let ghost before = views(rows@);
    let w = Which::Conversation(id.to_owned());
    let c = Change {
        status: "done".to_owned(),
        model_used: Field::Keep,
        started_at: Field::Keep,
        completed_at: Field::Put(now.to_owned()),
        error: Field::Clear,
    };
    let _n: usize = update(rows, &w, &c);
    assert(views(rows@) =~= changed(
        before,
        of_conversation(id@),
        |r: ExtractionView| succeeded(r, now@),
    ));
}

/// Notes that the extraction of the conversation has failed, and why.
pub fn record_extraction_failure(
    rows: &mut Vec<ExtractionRow>,
    id: &str,
    error: &str,
    now: &str,
)
    ensures
        views(final(rows)@) == changed(
            views(old(rows)@),
            of_conversation(id@),
            |r: ExtractionView| failed(r, error@, now@),
        ),
{
    let ghost before = views(rows@);
    let w = Which::Conversation(id.to_owned());
    let c = Change {
        status: "failed".to_owned(),
        model_used: Field::Keep,
        started_at: Field::Keep,
        completed_at: Field::Put(now.to_owned()),
        error: Field::Put(error.to_owned()),
    };
    let _n: usize = update(rows, &w, &c);
    assert(views(rows@) =~= changed(
        before,
        of_conversation(id@),
        |r: ExtractionView| failed(r, error@, now@),
    ));
}

/// The row once the extraction has ended, with success or an error.
pub open spec fn concluded(
    r: ExtractionView,
    outcome: Result<(), Seq<char>>,
    now: Seq<char>,
) -> ExtractionView {
    match outcome {
        Ok(_) => succeeded(r, now),
        Err(e) => failed(r, e, now),
    }
}

/// How an extraction ended, stated over contents.
pub open spec fn ending(outcome: Result<(), String>) -> Result<(), Seq<char>> {
    match outcome {
        Ok(_) => Ok(()),
        Err(e) => Err(e@),
    }
}

/// Notes how the extraction of the conversation ended.
pub fn conclude_extraction(
    rows: &mut Vec<ExtractionRow>,
    id: &str,
    outcome: &Result<(), String>,
    now: &str,
)
    ensures
        views(final(rows)@) == changed(
            views(old(rows)@),
            of_conversation(id@),
            |r: ExtractionView| concluded(r, ending(*outcome), now@),
        ),
{
    let ghost before = views(rows@);
    match outcome {
        Ok(_) => finish_extraction(rows, id, now),
        Err(e) => record_extraction_failure(rows, id, e.as_str(), now),
    }
    assert(views(rows@) =~= changed(
        before,
        of_conversation(id@),
        |r: ExtractionView| concluded(r, ending(*outcome), now@),
    ));
}

/// Gives the conversation up: it is not extracted again by itself.
pub fn skip_extraction(rows: &mut Vec<ExtractionRow>, id: &str)
    ensures
        views(final(rows)@) == changed(
            views(old(rows)@),
            of_conversation(id@),
            |r: ExtractionView| skipped(r),
        ),
{
    let ghost before = views(rows@);
    let w = Which::Conversation(id.to_owned());
    let c = Change {
        status: "skipped".to_owned(),
        model_used: Field::Keep,
        started_at: Field::Keep,
        completed_at: Field::Keep,
        error: Field::Clear,
    };
    let _n: usize = update(rows, &w, &c);
    assert(views(rows@) =~= changed(
        before,
        of_conversation(id@),
        |r: ExtractionView| skipped(r),
    ));
}

fn to_pending() -> (c: Change)
    ensures
        forall|r: ExtractionView| #[trigger] apply(c, r) == requeued(r),
{
    Change {
        status: "pending".to_owned(),
        model_used: Field::Keep,
        started_at: Field::Keep,
        completed_at: Field::Keep,
        error: Field::Clear,
    }
}

/// Has the conversation wait again.
pub fn retry_extraction(rows: &mut Vec<ExtractionRow>, id: &str)
    ensures
        views(final(rows)@) == changed(
            views(old(rows)@),
            of_conversation(id@),
            |r: ExtractionView| requeued(r),
        ),
{
    let ghost before = views(rows@);
    let w = Which::Conversation(id.to_owned());
    let c = to_pending();
    let _n: usize = update(rows, &w, &c);
    assert(views(rows@) =~= changed(
        before,
        of_conversation(id@),
        |r: ExtractionView| requeued(r),
    ));
}

/// Has every conversation wait again whose extraction failed, and counts them.
pub fn retry_all_failed_extractions_impl(rows: &mut Vec<ExtractionRow>) -> (r: i64)
    requires
        old(rows)@.len() <= i64::MAX,
    ensures
        views(final(rows)@) == changed(
            views(old(rows)@),
            with_status(seq!["failed"@]),
            |r: ExtractionView| requeued(r),
        ),
        r == kept(views(old(rows)@), with_status(seq!["failed"@])).len(),
{
    let ghost before = views(rows@);
    let statuses = vec!["failed".to_owned()];
    assert(texts(statuses@) =~= seq!["failed"@]);
    let w = Which::Statuses(statuses);
    let c = to_pending();
    let n: usize = update(rows, &w, &c);
    proof {
        let p = |r: ExtractionView| selects(w, r);
        crate::seqs::lemma_kept_same(before, p, with_status(seq!["failed"@]));
        assert(views(rows@) =~= changed(
            before,
            with_status(seq!["failed"@]),
            |r: ExtractionView| requeued(r),
        ));
    }
    n as i64
}

/// Has every conversation wait again whose extraction was broken off, and counts
/// them.
pub fn reset_stuck_processing(rows: &mut Vec<ExtractionRow>) -> (r: i64)
    requires
        old(rows)@.len() <= i64::MAX,
    ensures
        views(final(rows)@) == changed(
            views(old(rows)@),
            with_status(seq!["processing"@]),
            |r: ExtractionView| unstuck(r),
        ),
        r == kept(views(old(rows)@), with_status(seq!["processing"@])).len(),
{
    let ghost before = views(rows@);
    let statuses = vec!["processing".to_owned()];
    assert(texts(statuses@) =~= seq!["processing"@]);
    let w = Which::Statuses(statuses);
    let c = Change {
        status: "pending".to_owned(),
        model_used: Field::Keep,
        started_at: Field::Clear,
        completed_at: Field::Keep,
        error: Field::Clear,
    };
    let n: usize = update(rows, &w, &c);
    proof {
        let p = |r: ExtractionView| selects(w, r);
        crate::seqs::lemma_kept_same(before, p, with_status(seq!["processing"@]));
        assert(views(rows@) =~= changed(
            before,
            with_status(seq!["processing"@]),
            |r: ExtractionView| unstuck(r),
        ));
    }
    n as i64
}

/// The statuses of conversations that were not extracted and do not wait.
pub open spec fn left_behind() -> Seq<Seq<char>> {
    seq!["failed"@, "skipped"@, "stale"@]
}

/// Has every conversation wait again that was left behind, and counts them.
pub fn requeue_left_behind(rows: &mut Vec<ExtractionRow>) -> (r: i64)
    requires
        old(rows)@.len() <= i64::MAX,
    ensures
        views(final(rows)@) == changed(
            views(old(rows)@),
            with_status(left_behind()),
            |r: ExtractionView| requeued(r),
        ),
        r == kept(views(old(rows)@), with_status(left_behind())).len(),
{
    let ghost before = views(rows@);
    let statuses = vec!["failed".to_owned(), "skipped".to_owned(), "stale".to_owned()];
    assert(texts(statuses@) =~= left_behind());
    let w = Which::Statuses(statuses);
    let c = to_pending();
    let n: usize = update(rows, &w, &c);
    proof {
        let p = |r: ExtractionView| selects(w, r);
        crate::seqs::lemma_kept_same(before, p, with_status(left_behind()));
        assert(views(rows@) =~= changed(
            before,
            with_status(left_behind()),
            |r: ExtractionView| requeued(r),
        ));
    }
    n as i64
}

/// The rows that are missing for the nodes: one for each conversation without
/// one.
pub open spec fn missing_rows(nodes: Seq<NodeView>, rows: Seq<ExtractionView>) -> Seq<
    ExtractionView,
> {
    kept(
        nodes,
        |n: NodeView| n.kind == "conversation"@ && !has_row(rows, n.id),
    ).map_values(|n: NodeView| new_row(n.id, "pending"@, ""@))
}

/// Has every conversation wait as if it had never been extracted, whether it has
/// a row or not, and counts them.
pub fn requeue_everything(rows: &mut Vec<ExtractionRow>, nodes: &Vec<NodeRow>) -> (r: i64)
    requires
        old(rows)@.len() + nodes@.len() <= i64::MAX,
    ensures
        views(final(rows)@) == changed(
            views(old(rows)@),
            every_row(),
            |r: ExtractionView| restarted(r),
        ) + missing_rows(views(nodes@), views(old(rows)@)),
        r == views(final(rows)@).len(),
{
    let ghost before = views(rows@);
    let w = Which::All;
    let c = Change {
        status: "pending".to_owned(),
        model_used: Field::Keep,
        started_at: Field::Clear,
        completed_at: Field::Clear,
        error: Field::Clear,
    };
    let n: usize = update(rows, &w, &c);
    let ghost after = changed(before, every_row(), |r: ExtractionView| restarted(r));
    let ghost all = views(nodes@);
    let ghost p = |n: NodeView| n.kind == "conversation"@ && !has_row(before, n.id);
    let ghost f = |n: NodeView| new_row(n.id, "pending"@, ""@);
    proof {
        let q = |r: ExtractionView| selects(w, r);
        crate::seqs::lemma_kept_all(before, q);
        assert(views(rows@) =~= after);
        assert forall|id: Seq<char>| has_row(after, id) <==> #[trigger] has_row(before, id) by {
            if has_row(after, id) {
                let i = choose|i: int|
                    0 <= i < after.len() && (#[trigger] after[i]).conversation_id == id;
                assert(before[i].conversation_id == id);
            }
            if has_row(before, id) {
                let i = choose|i: int|
                    0 <= i < before.len() && (#[trigger] before[i]).conversation_id == id;
                assert(after[i].conversation_id == id);
            }
        }
    }
    let mut fresh: Vec<ExtractionRow> = Vec::new();
    let mut i: usize = 0;
    assert(all.take(0) =~= Seq::<NodeView>::empty());
    assert(views(fresh@) =~= kept(all.take(0), p).map_values(f));
    while i < nodes.len()
        invariant
            i <= nodes@.len(),
            all == views(nodes@),
            p == (|n: NodeView| n.kind == "conversation"@ && !has_row(before, n.id)),
            f == (|n: NodeView| new_row(n.id, "pending"@, ""@)),
            views(rows@) == after,
            forall|id: Seq<char>| has_row(after, id) <==> #[trigger] has_row(before, id),
            views(fresh@) == kept(all.take(i as int), p).map_values(f),
            fresh@.len() <= i,
        decreases nodes@.len() - i,
    {
        proof {
            lemma_kept_step(all, p, i as int);
            assert(all[i as int] == nodes@[i as int]@);
        }
        if same(nodes[i].kind.as_str(), "conversation") && !contains_row(
            rows,
            nodes[i].id.as_str(),
        ) {
            let row = make_row(nodes[i].id.as_str(), "pending", "");
            proof {
                lemma_views_push(fresh@, row);
                assert(kept(all.take(i as int), p).push(all[i as int]).map_values(f) =~= kept(
                    all.take(i as int),
                    p,
                ).map_values(f).push(row@));
            }
            fresh.push(row);
        }
        i = i + 1;
    }
    assert(all.take(i as int) =~= all);
    let ghost added = views(fresh@);
    let total: i64 = n as i64 + fresh.len() as i64;
    let ghost fresh_rows = fresh@;
    let ghost old_rows = rows@;
    rows.append(&mut fresh);
    assert(views(rows@) =~= after + added);
    total
}

// Ingest -----------------------------------------------------------------

/// The row once the conversation was imported again: changed contents make it
/// stale.
pub open spec fn imported_again(r: ExtractionView, content_hash: Seq<char>) -> ExtractionView {
    ExtractionView {
        status: if r.content_hash == content_hash {
            r.status
        } else {
            "stale"@
        },
        content_hash,
        ..r
    }
}

/// The rows once the conversation was imported.
pub open spec fn enqueued(
    rows: Seq<ExtractionView>,
    id: Seq<char>,
    content_hash: Seq<char>,
) -> Seq<ExtractionView> {
    if has_row(rows, id) {
        changed(rows, of_conversation(id), |r: ExtractionView| imported_again(r, content_hash))
    } else {
        rows.push(new_row(id, "pending"@, content_hash))
    }
}

/// Notes that the conversation was imported.
pub fn enqueue(rows: &mut Vec<ExtractionRow>, id: &str, content_hash: &str)
    ensures
        views(final(rows)@) == enqueued(views(old(rows)@), id@, content_hash@),
{
    let ghost before = views(rows@);
    if !contains_row(rows, id) {
        let row = make_row(id, "pending", content_hash);
        proof {
            lemma_views_push(rows@, row);
        }
        rows.push(row);
        return;
    }
    let ghost p = of_conversation(id@);
    let ghost f = |r: ExtractionView| imported_again(r, content_hash@);
    let ghost after = changed(before, p, f);
    let mut i: usize = 0;
    while i < rows.len()
        invariant
            i <= rows@.len(),
            rows@.len() == before.len(),
            p == of_conversation(id@),
            f == (|r: ExtractionView| imported_again(r, content_hash@)),
            after == changed(before, p, f),
            forall|k: int| 0 <= k < i ==> (#[trigger] views(rows@)[k]) == after[k],
            forall|k: int| i <= k < before.len() ==> (#[trigger] views(rows@)[k]) == before[k],
        decreases rows@.len() - i,
    {
        let ghost start = views(rows@);
        assert(start[i as int] == rows@[i as int]@);
        if same(rows[i].conversation_id.as_str(), id) {
            let status = if same(rows[i].content_hash.as_str(), content_hash) {
                rows[i].status.clone()
            } else {
                "stale".to_owned()
            };
            let row = ExtractionRow {
                conversation_id: rows[i].conversation_id.clone(),
                status,
                content_hash: content_hash.to_owned(),
                prompt_version: rows[i].prompt_version.clone(),
                model_used: clone_text(&rows[i].model_used),
                started_at: clone_text(&rows[i].started_at),
                completed_at: clone_text(&rows[i].completed_at),
                error: clone_text(&rows[i].error),
            };
            rows.set(i, row);
            assert(views(rows@) =~= start.update(i as int, row@));
        }
        i = i + 1;
    }
    assert(views(rows@) =~= after);
}

// What is next -----------------------------------------------------------

/// A conversation that waits, with what decides when its turn is.
#[derive(Debug)]
pub struct Waiting {
    pub turns: i64,
    pub updated: SortKey,
    pub id: String,
}

/// Conversations with few turns come first, then those that changed last, then
/// those whose name comes first.
impl Ranked for Waiting {
    open spec fn ranks_before(self, other: Waiting) -> bool {
        self.turns < other.turns || (self.turns == other.turns && (self.updated@.above(
            other.updated@,
        ) || (self.updated@ == other.updated@ && lex_lt(self.id@, other.id@))))
    }

    proof fn ranking(a: Waiting, b: Waiting, c: Waiting) {
        values_are_in_one_line(a.updated@, b.updated@, c.updated@);
        values_are_in_one_line(b.updated@, c.updated@, a.updated@);
        values_are_in_one_line(c.updated@, b.updated@, a.updated@);
        values_are_in_one_line(a.updated@, c.updated@, a.updated@);
        crate::text::lemma_lex_irreflexive(a.id@);
        if lex_lt(a.id@, b.id@) && lex_lt(b.id@, c.id@) {
            crate::text::lemma_lex_transitive(a.id@, b.id@, c.id@);
        }
        crate::text::lemma_lex_total(a.id@, b.id@);
        crate::text::lemma_lex_total(b.id@, c.id@);
        if lex_lt(c.id@, b.id@) && lex_lt(b.id@, a.id@) {
            crate::text::lemma_lex_transitive(c.id@, b.id@, a.id@);
        }
        if lex_lt(a.id@, c.id@) && lex_lt(c.id@, a.id@) {
            crate::text::lemma_lex_transitive(a.id@, c.id@, a.id@);
        }
    }

    fn precedes(&self, other: &Waiting) -> (r: bool) {
        proof {
            values_are_in_one_line(self.updated@, other.updated@, self.updated@);
        }
        if self.turns != other.turns {
            return self.turns < other.turns;
        }
        if self.updated.exceeds(&other.updated) {
            return true;
        }
        if other.updated.exceeds(&self.updated) {
            return false;
        }
        text_lt(self.id.as_str(), other.id.as_str())
    }
}

/// The statuses of conversations that are extracted at the next opportunity.
pub open spec fn waiting_statuses() -> Seq<Seq<char>> {
    seq!["pending"@, "stale"@, "failed"@]
}

/// The turns of a conversation of which none are known.
pub const UNKNOWN_TURNS: i64 = 999999;

/// The properties of the first node with the name.
pub open spec fn props_of(nodes: Seq<NodeView>, id: Seq<char>) -> JsonTree
    decreases nodes.len(),
{
    if nodes.len() == 0 {
        JsonTree::Null
    } else if nodes[0].id == id {
        nodes[0].props
    } else {
        props_of(nodes.drop_first(), id)
    }
}

/// The turns of a conversation, as its properties have them.
pub open spec fn turns_of(props: JsonTree) -> i64 {
    integer_or(props.at("turn_count"@), UNKNOWN_TURNS)
}

/// When a conversation changed last, as its properties have it.
pub open spec fn updated_of(props: JsonTree) -> SortView {
    sort_value(props.at("chatgpt_updated"@))
}

/// Whether the entry is that of the row.
pub open spec fn entry_for(w: Waiting, r: ExtractionView, nodes: Seq<NodeView>) -> bool {
    w.id@ == r.conversation_id && w.turns == turns_of(props_of(nodes, r.conversation_id))
        && w.updated@ == updated_of(props_of(nodes, r.conversation_id))
}

/// Whether the entries are those of the rows that wait.
pub open spec fn entries_for(
    entries: Seq<Waiting>,
    rows: Seq<ExtractionView>,
    nodes: Seq<NodeView>,
) -> bool {
    let waiting = kept(rows, with_status(waiting_statuses()));
    entries.len() == waiting.len() && forall|i: int|
        0 <= i < entries.len() ==> entry_for(#[trigger] entries[i], waiting[i], nodes)
}

fn waiting_entry(id: &str, nodes: &Vec<NodeRow>) -> (r: Waiting)
    ensures
        r.id@ == id@,
        r.turns == turns_of(props_of(views(nodes@), id@)),
        r.updated@ == updated_of(props_of(views(nodes@), id@)),
{
    let ghost all = views(nodes@);
    let mut i: usize = 0;
    assert(all.skip(0) =~= all);
    while i < nodes.len()
        invariant
            i <= nodes@.len(),
            all == views(nodes@),
            props_of(all, id@) == props_of(all.skip(i as int), id@),
        decreases nodes@.len() - i,
    {
        assert(all.skip(i as int)[0] == nodes@[i as int]@);
        if same(nodes[i].id.as_str(), id) {
            let turns: i64 = integer_at(&nodes[i].props, "turn_count", UNKNOWN_TURNS);
            let updated = sort_key_at(&nodes[i].props, "chatgpt_updated");
            return Waiting { turns, updated, id: id.to_owned() };
        }
        assert(all.skip(i as int).drop_first() =~= all.skip(i + 1));
        i = i + 1;
    }
    let nothing = Json::Null;
    Waiting {
        turns: UNKNOWN_TURNS,
        updated: sort_key_at(&nothing, "chatgpt_updated"),
        id: id.to_owned(),
    }
}

/// The conversations that wait, in the order in which they are extracted.
pub fn list_pending_extractions(rows: &Vec<ExtractionRow>, nodes: &Vec<NodeRow>) -> (r: Vec<Waiting>)
    ensures
        exists|entries: Seq<Waiting>| #[trigger]
            entries_for(entries, views(rows@), views(nodes@)) && r@ == arranged(entries),
{
    let ghost all = views(rows@);
    let ghost p = with_status(waiting_statuses());
    let statuses = vec!["pending".to_owned(), "stale".to_owned(), "failed".to_owned()];
    assert(texts(statuses@) =~= waiting_statuses());
    let mut entries: Vec<Waiting> = Vec::new();
    let mut i: usize = 0;
    assert(all.take(0) =~= Seq::<ExtractionView>::empty());
    while i < rows.len()
        invariant
            i <= rows@.len(),
            all == views(rows@),
            p == with_status(waiting_statuses()),
            texts(statuses@) == waiting_statuses(),
            entries_for(entries@, all.take(i as int), views(nodes@)),
        decreases rows@.len() - i,
    {
        proof {
            lemma_kept_step(all, p, i as int);
            assert(all[i as int] == rows@[i as int]@);
        }
        if contains_text(&statuses, rows[i].status.as_str()) {
            let e = waiting_entry(rows[i].conversation_id.as_str(), nodes);
            entries.push(e);
        }
        i = i + 1;
    }
    assert(all.take(i as int) =~= all);
    assert(entries_for(entries@, all, views(nodes@)));
    arrange(entries)
}

// What went wrong --------------------------------------------------------

/// An extraction that failed.
#[derive(Debug)]
pub struct FailedExtraction {
    pub id: String,
    pub title: String,
    pub error: String,
    pub completed_at: Option<String>,
}

/// The failures that came last come first; those of which it is not known when
/// they came are last.
impl Ranked for FailedExtraction {
    open spec fn ranks_before(self, other: FailedExtraction) -> bool {
        match (text_opt(self.completed_at), text_opt(other.completed_at)) {
            (Some(a), Some(b)) => lex_lt(b, a),
            (Some(_), None) => true,
            (None, _) => false,
        }
    }

    proof fn ranking(a: FailedExtraction, b: FailedExtraction, c: FailedExtraction) {
        match (text_opt(a.completed_at), text_opt(b.completed_at), text_opt(c.completed_at)) {
            (Some(x), Some(y), Some(z)) => {
                crate::text::lemma_lex_irreflexive(x);
                if lex_lt(y, x) && lex_lt(z, y) {
                    crate::text::lemma_lex_transitive(z, y, x);
                }
                crate::text::lemma_lex_total(x, y);
                crate::text::lemma_lex_total(y, z);
                if lex_lt(x, y) && lex_lt(y, z) {
                    crate::text::lemma_lex_transitive(x, y, z);
                }
                if lex_lt(x, z) && lex_lt(z, x) {
                    crate::text::lemma_lex_transitive(x, z, x);
                }
            },
            (Some(x), _, _) => {
                crate::text::lemma_lex_irreflexive(x);
            },
            _ => {},
        }
    }

    fn precedes(&self, other: &FailedExtraction) -> (r: bool) {
        match (&self.completed_at, &other.completed_at) {
            (Some(a), Some(b)) => text_lt(b.as_str(), a.as_str()),
            (Some(_), None) => true,
            (None, _) => false,
        }
    }
}

/// How many failures are listed at most.
pub const FAILED_LISTED: usize = 200;

/// The name of the first node with the name, or what stands for none.
pub open spec fn title_of(nodes: Seq<NodeView>, id: Seq<char>) -> Seq<char>
    decreases nodes.len(),
{
    if nodes.len() == 0 {
        "(untitled)"@
    } else if nodes[0].id == id {
        nodes[0].name
    } else {
        title_of(nodes.drop_first(), id)
    }
}

/// Whether the entry is that of the row.
pub open spec fn failure_for(
    f: FailedExtraction,
    r: ExtractionView,
    nodes: Seq<NodeView>,
) -> bool {
    &&& f.id@ == r.conversation_id
    &&& f.title@ == title_of(nodes, r.conversation_id)
    &&& f.error@ == match r.error {
        Some(e) => e,
        None => ""@,
    }
    &&& text_opt(f.completed_at) == r.completed_at
}

/// Whether the entries are those of the rows that failed.
pub open spec fn failures_for(
    entries: Seq<FailedExtraction>,
    rows: Seq<ExtractionView>,
    nodes: Seq<NodeView>,
) -> bool {
    let bad = kept(rows, with_status(seq!["failed"@]));
    entries.len() == bad.len() && forall|i: int|
        0 <= i < entries.len() ==> failure_for(#[trigger] entries[i], bad[i], nodes)
}

fn title_for(nodes: &Vec<NodeRow>, id: &str) -> (r: String)
    ensures
        r@ == title_of(views(nodes@), id@),
{
    let ghost all = views(nodes@);
    let mut i: usize = 0;
    assert(all.skip(0) =~= all);
    while i < nodes.len()
        invariant
            i <= nodes@.len(),
            all == views(nodes@),
            title_of(all, id@) == title_of(all.skip(i as int), id@),
        decreases nodes@.len() - i,
    {
        assert(all.skip(i as int)[0] == nodes@[i as int]@);
        if same(nodes[i].id.as_str(), id) {
            return nodes[i].name.clone();
        }
        assert(all.skip(i as int).drop_first() =~= all.skip(i + 1));
        i = i + 1;
    }
    "(untitled)".to_owned()
}

/// The extractions that failed, the latest first.
pub fn list_failed_extractions(rows: &Vec<ExtractionRow>, nodes: &Vec<NodeRow>) -> (r: Vec<
    FailedExtraction,
>)
    ensures
        exists|entries: Seq<FailedExtraction>| #[trigger]
            failures_for(entries, views(rows@), views(nodes@)) && r@ == if entries.len() <= 200 {
                arranged(entries)
            } else {
                arranged(entries).take(200)
            },
{
    let ghost all = views(rows@);
    let ghost p = with_status(seq!["failed"@]);
    let mut entries: Vec<FailedExtraction> = Vec::new();
    let mut i: usize = 0;
    assert(all.take(0) =~= Seq::<ExtractionView>::empty());
    while i < rows.len()
        invariant
            i <= rows@.len(),
            all == views(rows@),
            p == with_status(seq!["failed"@]),
            failures_for(entries@, all.take(i as int), views(nodes@)),
        decreases rows@.len() - i,
    {
        proof {
            lemma_kept_step(all, p, i as int);
            assert(all[i as int] == rows@[i as int]@);
            assert(seq!["failed"@].contains(all[i as int].status) <==> all[i as int].status
                == "failed"@) by {
                assert(seq!["failed"@][0] == "failed"@);
            }
        }
        if same(rows[i].status.as_str(), "failed") {
            let e = FailedExtraction {
                id: rows[i].conversation_id.clone(),
                title: title_for(nodes, rows[i].conversation_id.as_str()),
                error: match &rows[i].error {
                    Some(m) => m.clone(),
                    None => "".to_owned(),
                },
                completed_at: clone_text(&rows[i].completed_at),
            };
            entries.push(e);
        }
        i = i + 1;
    }
    assert(all.take(i as int) =~= all);
    let ghost found = entries@;
    assert(failures_for(found, all, views(nodes@)));
    proof {
        crate::seqs::arranging_orders(found);
    }
    let mut out = arrange(entries);
    if out.len() > FAILED_LISTED {
        out.truncate(FAILED_LISTED);
    }
    out
}

// Laws -------------------------------------------------------------------

/// Importing the same contents again leaves a conversation as it was; importing
/// changed contents makes it stale, so that it waits.
pub proof fn only_changed_contents_are_stale(r: ExtractionView, content_hash: Seq<char>)
    ensures
        r.content_hash == content_hash ==> imported_again(r, content_hash) == r,
        r.content_hash != content_hash ==> waiting_statuses().contains(
            imported_again(r, content_hash).status,
        ),
{
    assert(waiting_statuses()[1] == "stale"@);
}

/// After a retry of all failures none is left, as many conversations wait as
/// failed before or waited before, and the others stay as they were.
pub proof fn retrying_leaves_no_failure(rows: Seq<ExtractionView>)
    ensures
        ({
            let after = changed(
                rows,
                with_status(seq!["failed"@]),
                |r: ExtractionView| requeued(r),
            );
            &&& kept(after, with_status(seq!["failed"@])).len() == 0
            &&& kept(after, with_status(seq!["pending"@])).len() == kept(
                rows,
                with_status(seq!["pending"@]),
            ).len() + kept(rows, with_status(seq!["failed"@])).len()
            &&& forall|i: int|
                0 <= i < rows.len() && (#[trigger] rows[i]).status != "failed"@ ==> after[i]
                    == rows[i]
        }),
    decreases rows.len(),
{
    let bad = with_status(seq!["failed"@]);
    let waits = with_status(seq!["pending"@]);
    let f = |r: ExtractionView| requeued(r);
    let after = changed(rows, bad, f);
    reveal_strlit("failed");
    reveal_strlit("pending");
    assert("failed"@[0] == 'f');
    assert("pending"@[0] == 'p');
    assert(seq!["failed"@][0] == "failed"@);
    assert(seq!["pending"@][0] == "pending"@);
    if rows.len() > 0 {
        let rest = rows.drop_last();
        retrying_leaves_no_failure(rest);
        assert(after.drop_last() =~= changed(rest, bad, f));
        assert(seq!["failed"@].contains(rows.last().status) <==> rows.last().status == "failed"@);
        assert(seq!["pending"@].contains(rows.last().status) <==> rows.last().status
            == "pending"@);
        assert(seq!["failed"@].contains(after.last().status) <==> after.last().status
            == "failed"@);
        assert(seq!["pending"@].contains(after.last().status) <==> after.last().status
            == "pending"@);
    }
    assert forall|i: int|
        0 <= i < rows.len() && (#[trigger] rows[i]).status != "failed"@ implies after[i]
        == rows[i] by {
        assert(!seq!["failed"@].contains(rows[i].status));
    }
}

/// However an extraction ends, its conversation is not left in the middle: it is
/// done and has no error exactly if the extraction succeeded, and failed with the
/// error of the extraction exactly if it did not.
pub proof fn no_extraction_is_left_in_the_middle(
    rows: Seq<ExtractionView>,
    id: Seq<char>,
    outcome: Result<(), Seq<char>>,
    now: Seq<char>,
)
    ensures
        ({
            let after = changed(
                rows,
                of_conversation(id),
                |r: ExtractionView| concluded(r, outcome, now),
            );
            forall|i: int|
                0 <= i < after.len() && (#[trigger] after[i]).conversation_id == id ==> {
                    &&& after[i].status != "processing"@
                    &&& (after[i].status == "done"@ && after[i].error is None) <==> outcome is Ok
                    &&& match outcome {
                        Ok(_) => true,
                        Err(e) => after[i].status == "failed"@ && after[i].error == Some(e),
                    }
                }
        }),
{
    reveal_strlit("processing");
    reveal_strlit("done");
    reveal_strlit("failed");
    assert("processing"@[0] == 'p' && "done"@[0] == 'd' && "failed"@[0] == 'f');
    let f = |r: ExtractionView| concluded(r, outcome, now);
    let after = changed(rows, of_conversation(id), f);
    assert forall|i: int| 0 <= i < after.len() && (#[trigger] after[i]).conversation_id
        == id implies after[i] == f(rows[i]) by {
        assert(of_conversation(id)(rows[i]) == (rows[i].conversation_id == id));
    }
}

/// A second retry of all failures finds none: it counts zero and changes nothing.
pub proof fn retrying_twice_changes_nothing(rows: Seq<ExtractionView>)
    ensures
        ({
            let bad = with_status(seq!["failed"@]);
            let f = |r: ExtractionView| requeued(r);
            let after = changed(rows, bad, f);
            changed(after, bad, f) == after && kept(after, bad).len() == 0
        }),
{
    let bad = with_status(seq!["failed"@]);
    let f = |r: ExtractionView| requeued(r);
    let after = changed(rows, bad, f);
    retrying_leaves_no_failure(rows);
    crate::seqs::lemma_kept_members(after, bad);
    assert forall|i: int| 0 <= i < after.len() implies !bad(#[trigger] after[i]) by {
        if bad(after[i]) {
            assert(after.contains(after[i]));
            assert(kept(after, bad).contains(after[i]));
        }
    }
    assert(changed(after, bad, f) =~= after);
}

/// No conversation that was given up waits by itself.
pub proof fn skipped_conversations_do_not_wait(r: ExtractionView)
    ensures
        !waiting_statuses().contains(skipped(r).status),
        waiting_statuses().contains(requeued(skipped(r)).status),
{
    reveal_strlit("skipped");
    reveal_strlit("stale");
    reveal_strlit("pending");
    reveal_strlit("failed");
    assert("skipped"@.len() == 7);
    assert("pending"@.len() == 7);
    assert("skipped"@[0] == 's');
    assert("pending"@[0] == 'p');
    assert("stale"@.len() == 5);
    assert("failed"@.len() == 6);
    assert(waiting_statuses()[0] == "pending"@);
}

/// Starting everything anew has every conversation of the graph wait.
pub proof fn starting_anew_queues_every_conversation(
    nodes: Seq<NodeView>,
    rows: Seq<ExtractionView>,
)
    ensures
        ({
            let after = changed(rows, every_row(), |r: ExtractionView| restarted(r))
                + missing_rows(nodes, rows);
            &&& forall|i: int| 0 <= i < after.len() ==> (#[trigger] after[i]).status == "pending"@
            &&& forall|i: int|
                0 <= i < nodes.len() && (#[trigger] nodes[i]).kind == "conversation"@ ==> has_row(
                    after,
                    nodes[i].id,
                )
        }),
{
    let first = changed(rows, every_row(), |r: ExtractionView| restarted(r));
    let p = |n: NodeView| n.kind == "conversation"@ && !has_row(rows, n.id);
    let second = missing_rows(nodes, rows);
    let after = first + second;
    crate::seqs::lemma_kept_members(nodes, p);
    assert forall|i: int|
        0 <= i < nodes.len() && (#[trigger] nodes[i]).kind == "conversation"@ implies has_row(
        after,
        nodes[i].id,
    ) by {
        let id = nodes[i].id;
        if has_row(rows, id) {
            let k = choose|k: int|
                0 <= k < rows.len() && (#[trigger] rows[k]).conversation_id == id;
            assert(after[k].conversation_id == id);
        } else {
            assert(nodes.contains(nodes[i]));
            assert(p(nodes[i]));
            assert(kept(nodes, p).contains(nodes[i]));
            let k = choose|k: int| 0 <= k < kept(nodes, p).len() && kept(nodes, p)[k] == nodes[i];
            assert(second[k].conversation_id == id);
            assert(after[first.len() + k] == second[k]);
        }
    }
}

/// The steps of an extraction change the rows that they are for, and of these only
/// what they say: a row that is begun is processing with the model and the time, one
/// that succeeds is done, one that fails is failed with the error, one that is given
/// up is skipped, one that is retried is pending; only a step that ends an extraction
/// sets when it ended, and the checksum never changes.
pub proof fn steps_change_what_they_say(
    r: ExtractionView,
    model: Seq<char>,
    error: Seq<char>,
    now: Seq<char>,
)
    ensures
        begun(r, model, now) == (ExtractionView {
            status: "processing"@,
            model_used: Some(model),
            started_at: Some(now),
            error: None,
            ..r
        }),
        concluded(r, Ok(()), now) == (ExtractionView {
            status: "done"@,
            completed_at: Some(now),
            error: None,
            ..r
        }),
        concluded(r, Err(error), now) == (ExtractionView {
            status: "failed"@,
            completed_at: Some(now),
            error: Some(error),
            ..r
        }),
        succeeded(r, now) == concluded(r, Ok(()), now),
        failed(r, error, now) == concluded(r, Err(error), now),
        skipped(r) == (ExtractionView { status: "skipped"@, error: None, ..r }),
        requeued(r) == (ExtractionView { status: "pending"@, error: None, ..r }),
        unstuck(r) == (ExtractionView { status: "pending"@, started_at: None, error: None, ..r }),
        restarted(r) == (ExtractionView {
            status: "pending"@,
            started_at: None,
            completed_at: None,
            error: None,
            ..r
        }),
{
}

/// A change reaches exactly the rows that it is for: those of a conversation, those
/// in one of some statuses, or all of them; no row is added, lost or moved.
pub proof fn changes_reach_their_rows(
    rows: Seq<ExtractionView>,
    id: Seq<char>,
    statuses: Seq<Seq<char>>,
    change: spec_fn(ExtractionView) -> ExtractionView,
    i: int,
)
    requires
        0 <= i < rows.len(),
    ensures
        changed(rows, of_conversation(id), change).len() == rows.len(),
        changed(rows, of_conversation(id), change)[i] == if rows[i].conversation_id == id {
            change(rows[i])
        } else {
            rows[i]
        },
        changed(rows, with_status(statuses), change).len() == rows.len(),
        changed(rows, with_status(statuses), change)[i] == if (exists|k: int|
            0 <= k < statuses.len() && #[trigger] statuses[k] == rows[i].status) {
            change(rows[i])
        } else {
            rows[i]
        },
        changed(rows, every_row(), change).len() == rows.len(),
        changed(rows, every_row(), change)[i] == change(rows[i]),
{
    if exists|k: int| 0 <= k < statuses.len() && #[trigger] statuses[k] == rows[i].status {
        assert(statuses.contains(rows[i].status));
    }
}

/// What a refresh queues again is what failed, was given up or is stale; what waits is
/// what is pending, stale or failed. What is done or processing is neither.
pub proof fn what_waits_and_what_was_left_behind(status: Seq<char>)
    ensures
        left_behind().contains(status) <==> status == "failed"@ || status == "skipped"@ || status
            == "stale"@,
        waiting_statuses().contains(status) <==> status == "pending"@ || status == "stale"@
            || status == "failed"@,
{
    assert(left_behind()[0] == "failed"@ && left_behind()[1] == "skipped"@ && left_behind()[2]
        == "stale"@);
    assert(waiting_statuses()[0] == "pending"@ && waiting_statuses()[1] == "stale"@
        && waiting_statuses()[2] == "failed"@);
}

/// An import queues its conversation: a new one is pending with its checksum, one that
/// is there keeps all but the checksum, and is stale if that differs. No other row
/// changes.
pub proof fn imports_are_queued(rows: Seq<ExtractionView>, id: Seq<char>, content_hash: Seq<char>)
    ensures
        ({
            let after = enqueued(rows, id, content_hash);
            let there = exists|k: int|
                0 <= k < rows.len() && (#[trigger] rows[k]).conversation_id == id;
            &&& !there ==> after == rows.push(
                ExtractionView {
                    conversation_id: id,
                    status: "pending"@,
                    content_hash,
                    prompt_version: "1"@,
                    model_used: None,
                    started_at: None,
                    completed_at: None,
                    error: None,
                },
            )
            &&& there ==> after.len() == rows.len() && forall|i: int|
                0 <= i < rows.len() ==> #[trigger] after[i] == if rows[i].conversation_id != id {
                    rows[i]
                } else if rows[i].content_hash == content_hash {
                    rows[i]
                } else {
                    ExtractionView { status: "stale"@, content_hash, ..rows[i] }
                }
        }),
{
}

/// Every conversation that is pending, stale or failed waits, once for each of its
/// rows, and no other. Those with the fewest turns come first, of these those that
/// changed last, and of these those whose name comes first.
pub proof fn whatever_is_to_be_extracted_waits(
    entries: Seq<Waiting>,
    rows: Seq<ExtractionView>,
    nodes: Seq<NodeView>,
)
    requires
        entries_for(entries, rows, nodes),
    ensures
        entries.map_values(|w: Waiting| w.id@) == rows.filter(
            |r: ExtractionView|
                r.status == "pending"@ || r.status == "stale"@ || r.status == "failed"@,
        ).map_values(|r: ExtractionView| r.conversation_id),
        arranged(entries).to_multiset() == entries.to_multiset(),
        forall|i: int, j: int|
            0 <= i < j < arranged(entries).len() ==> {
                let a = #[trigger] arranged(entries)[i];
                let b = #[trigger] arranged(entries)[j];
                &&& a.turns <= b.turns
                &&& a.turns == b.turns ==> !b.updated@.above(a.updated@)
                &&& a.turns == b.turns && a.updated@ == b.updated@ ==> !lex_lt(b.id@, a.id@)
            },
{
    let p = with_status(waiting_statuses());
    let q = |r: ExtractionView|
        r.status == "pending"@ || r.status == "stale"@ || r.status == "failed"@;
    assert forall|i: int| 0 <= i < rows.len() implies p(#[trigger] rows[i]) == q(rows[i]) by {
        what_waits_and_what_was_left_behind(rows[i].status);
    }
    crate::seqs::lemma_kept_same(rows, p, q);
    crate::seqs::keeping_is_filtering(rows, q);
    assert(entries.map_values(|w: Waiting| w.id@) =~= rows.filter(q).map_values(
        |r: ExtractionView| r.conversation_id,
    ));
    crate::seqs::arranging_orders(entries);
    let s = arranged(entries);
    assert forall|i: int, j: int| 0 <= i < j < s.len() implies ({
        let a = #[trigger] s[i];
        let b = #[trigger] s[j];
        &&& a.turns <= b.turns
        &&& a.turns == b.turns ==> !b.updated@.above(a.updated@)
        &&& a.turns == b.turns && a.updated@ == b.updated@ ==> !lex_lt(b.id@, a.id@)
    }) by {
        assert(!s[j].ranks_before(s[i]));
    }
}

/// The turns and the time by which a conversation waits are those of the first node
/// with its name: an integer as it stands, and 999999 turns where none are told.
pub proof fn waiting_goes_by_the_node(nodes: Seq<NodeView>, id: Seq<char>, k: int)
    ensures
        0 <= k < nodes.len() && nodes[k].id == id && (forall|i: int|
            0 <= i < k ==> (#[trigger] nodes[i]).id != id) ==> props_of(nodes, id)
            == nodes[k].props && title_of(nodes, id) == nodes[k].name,
        (forall|i: int| 0 <= i < nodes.len() ==> (#[trigger] nodes[i]).id != id) ==> props_of(
            nodes,
            id,
        ) is Null && title_of(nodes, id) == "(untitled)"@,
        props_of(nodes, id).at("turn_count"@) is Null ==> turns_of(props_of(nodes, id)) == 999999,
        props_of(nodes, id).at("turn_count"@).as_i64() matches Some(n) ==> turns_of(
            props_of(nodes, id),
        ) == n,
        updated_of(props_of(nodes, id)) == sort_value(props_of(nodes, id).at("chatgpt_updated"@)),
    decreases nodes.len(),
{
    if nodes.len() > 0 {
        let rest = nodes.drop_first();
        assert forall|i: int| 0 <= i < rest.len() implies #[trigger] rest[i] == nodes[i + 1] by {}
        if nodes[0].id != id {
            waiting_goes_by_the_node(rest, id, k - 1);
            if 0 <= k < nodes.len() && nodes[k].id == id && (forall|i: int|
                0 <= i < k ==> (#[trigger] nodes[i]).id != id) {
                assert(k > 0);
                assert(rest[k - 1] == nodes[k]);
            }
        } else if 0 <= k < nodes.len() && nodes[k].id == id && (forall|i: int|
            0 <= i < k ==> (#[trigger] nodes[i]).id != id) {
            assert(k == 0);
        }
    }
}

/// What is listed as failed is what failed, each with its error and its end; those that
/// ended later come first, and those of which no end is known come last.
pub proof fn failures_are_listed(
    entries: Seq<FailedExtraction>,
    rows: Seq<ExtractionView>,
    nodes: Seq<NodeView>,
    i: int,
)
    requires
        failures_for(entries, rows, nodes),
        0 <= i < entries.len(),
    ensures
        ({
            let bad = rows.filter(|r: ExtractionView| r.status == "failed"@);
            &&& entries.len() == bad.len()
            &&& entries[i].id@ == bad[i].conversation_id
            &&& bad[i].error matches Some(e) ==> entries[i].error@ == e
            &&& bad[i].error is None ==> entries[i].error@.len() == 0
            &&& text_opt(entries[i].completed_at) == bad[i].completed_at
            &&& forall|a: FailedExtraction, b: FailedExtraction| #[trigger]
                a.ranks_before(b) <==> (text_opt(a.completed_at) matches Some(x) && (text_opt(
                    b.completed_at,
                ) matches Some(y) ==> lex_lt(y, x)))
        }),
{
    let p = with_status(seq!["failed"@]);
    let q = |r: ExtractionView| r.status == "failed"@;
    assert forall|k: int| 0 <= k < rows.len() implies p(#[trigger] rows[k]) == q(rows[k]) by {
        assert(seq!["failed"@][0] == "failed"@);
    }
    crate::seqs::lemma_kept_same(rows, p, q);
    crate::seqs::keeping_is_filtering(rows, q);
    assert(failure_for(entries[i], kept(rows, p)[i], nodes));
    reveal_strlit("");
    assert forall|a: FailedExtraction, b: FailedExtraction| #[trigger] a.ranks_before(b) <==> (
    text_opt(a.completed_at) matches Some(x) && (text_opt(b.completed_at) matches Some(y)
        ==> lex_lt(y, x))) by {}
}

/// Starting anew adds a pending row for exactly the conversations that have none.
pub proof fn missing_rows_are_added(nodes: Seq<NodeView>, rows: Seq<ExtractionView>)
    ensures
        missing_rows(nodes, rows) == nodes.filter(
            |n: NodeView|
                n.kind == "conversation"@ && forall|i: int|
                    0 <= i < rows.len() ==> (#[trigger] rows[i]).conversation_id != n.id,
        ).map_values(
            |n: NodeView|
                ExtractionView {
                    conversation_id: n.id,
                    status: "pending"@,
                    content_hash: ""@,
                    prompt_version: "1"@,
                    model_used: None,
                    started_at: None,
                    completed_at: None,
                    error: None,
                },
        ),
{
    let p = |n: NodeView| n.kind == "conversation"@ && !has_row(rows, n.id);
    let q = |n: NodeView|
        n.kind == "conversation"@ && forall|i: int|
            0 <= i < rows.len() ==> (#[trigger] rows[i]).conversation_id != n.id;
    crate::seqs::lemma_kept_same(nodes, p, q);
    crate::seqs::keeping_is_filtering(nodes, q);
    assert(missing_rows(nodes, rows) =~= nodes.filter(q).map_values(
        |n: NodeView|
            ExtractionView {
                conversation_id: n.id,
                status: "pending"@,
                content_hash: ""@,
                prompt_version: "1"@,
                model_used: None,
                started_at: None,
                completed_at: None,
                error: None,
            },
    ));
}

} // verus!
