//! The extraction of one conversation, step by step: what is asked of the models
//! and of the graph, and what follows from their answers.

use super::messages::{no_messages, plan_extraction, plan_for, single_pass_summary, Plan};
use super::naming::is_parked;
use super::prompt::{
    after_answer, attempt_prompt, chunk_question, extraction_prompt, fill_prompt, json_held,
    limit_summary, limited, map_prompt, map_reduce_summary, reduce_outcome, reduce_prompt,
    ReduceStep, ReduceView, REDUCE_ATTEMPTS,
};
use super::proposal::{
    decide, decided, decision_views, embed_plan, embed_positions, embedded_text,
    find_merge_candidate, kinded, lookup_for, lookup_of, merge_distance, needs_embedding,
    proposals_of, propose, proposed_views, slot_of, spread_embeddings, Decision, DecisionView,
    Lookup, Proposed, ProposedView,
};
use super::repair::parse_json_response;
use crate::double::Double;
use crate::json::{Json, JsonTree};
use crate::kg::extraction::{sanitize_extraction_output, sanitized};
use crate::llm::openai::read_view;
use crate::text::{joined, text_opt, texts};
use vstd::prelude::*;

verus! {

// States -----------------------------------------------------------------

/// What a run waits for.
#[derive(Debug)]
pub enum Stage {
    /// The summaries of the chunks.
    Summarising,
    /// The answer to the question, in an attempt that is counted from zero.
    Asking { prompt: String, attempt: usize },
    /// The embeddings of the proposals that need one.
    Embedding { proposals: Vec<Proposed> },
    /// The nodes that the proposals could be merged into.
    Finding { proposals: Vec<Proposed>, embeddings: Vec<Option<Vec<u32>>> },
    /// Nothing more.
    Over,
}

/// The extraction of a conversation.
#[derive(Debug)]
pub struct Run {
    pub title: String,
    pub created: String,
    /// The workspace's own question, if it has one.
    pub body: Option<String>,
    pub stage: Stage,
}

/// What is to be done next.
#[derive(Debug)]
pub enum Action {
    /// Nothing: the conversation is too short to extract anything from it.
    Finish,
    /// Nothing: the extraction failed.
    Fail(String),
    /// Nothing: the extraction failed, as the answer is neither an object nor an
    /// array.
    Reject(Json),
    /// The model is asked each of these questions.
    Summarise(Vec<String>),
    /// The model is asked this question.
    Ask(String),
    /// These texts are embedded.
    Embed(Vec<String>),
    /// For each proposal a node to merge into is looked for.
    Find(Vec<Lookup>),
    /// The decisions are carried out.
    Apply(Vec<Decision>),
}

/// A node that a proposal could be merged into.
#[derive(Debug)]
pub enum Candidate {
    /// There is none.
    Nothing,
    /// The node has the name of the proposal.
    Named(String),
    /// The node is the nearest, at a distance in single precision.
    Near(String, Double),
}

/// What a run waits for, stated over contents.
pub ghost enum StageView {
    Summarising,
    Asking { prompt: Seq<char>, attempt: usize },
    Embedding { proposals: Seq<ProposedView> },
    Finding { proposals: Seq<ProposedView>, embeddings: Seq<Option<Seq<u32>>> },
    Over,
}

/// What a run holds.
pub ghost struct RunView {
    pub title: Seq<char>,
    pub created: Seq<char>,
    pub body: Option<Seq<char>>,
    pub stage: StageView,
}

/// What is to be done next, stated over contents.
pub ghost enum ActionView {
    Finish,
    Fail(Seq<char>),
    Reject(JsonTree),
    Summarise(Seq<Seq<char>>),
    Ask(Seq<char>),
    Embed(Seq<Seq<char>>),
    Find(Seq<Lookup>),
    Apply(Seq<DecisionView>),
}

/// The components of an embedding, if there is one.
pub open spec fn embedding_view(e: Option<Vec<u32>>) -> Option<Seq<u32>> {
    match e {
        Some(v) => Some(v@),
        None => None,
    }
}

/// The components of embeddings.
pub open spec fn embedding_views(v: Seq<Option<Vec<u32>>>) -> Seq<Option<Seq<u32>>> {
    v.map_values(|e: Option<Vec<u32>>| embedding_view(e))
}

impl View for Stage {
    type V = StageView;

    open spec fn view(&self) -> StageView {
        match self {
            Stage::Summarising => StageView::Summarising,
            Stage::Asking { prompt, attempt } => StageView::Asking {
                prompt: prompt@,
                attempt: *attempt,
            },
            Stage::Embedding { proposals } => StageView::Embedding {
                proposals: proposed_views(proposals@),
            },
            Stage::Finding { proposals, embeddings } => StageView::Finding {
                proposals: proposed_views(proposals@),
                embeddings: embedding_views(embeddings@),
            },
            Stage::Over => StageView::Over,
        }
    }
}

impl View for Run {
    type V = RunView;

    open spec fn view(&self) -> RunView {
        RunView {
            title: self.title@,
            created: self.created@,
            body: text_opt(self.body),
            stage: self.stage@,
        }
    }
}

impl View for Action {
    type V = ActionView;

    open spec fn view(&self) -> ActionView {
        match self {
            Action::Finish => ActionView::Finish,
            Action::Fail(m) => ActionView::Fail(m@),
            Action::Reject(v) => ActionView::Reject(v@),
            Action::Summarise(v) => ActionView::Summarise(texts(v@)),
            Action::Ask(p) => ActionView::Ask(p@),
            Action::Embed(v) => ActionView::Embed(texts(v@)),
            Action::Find(v) => ActionView::Find(v@),
            Action::Apply(v) => ActionView::Apply(decision_views(v@)),
        }
    }
}

// Steps ------------------------------------------------------------------

/// A run and what it does next.
pub ghost struct Step {
    pub run: RunView,
    pub action: ActionView,
}

/// The run is over.
pub open spec fn over(run: RunView, action: ActionView) -> Step {
    Step { run: RunView { stage: StageView::Over, ..run }, action }
}

/// The model is asked about the summary.
pub open spec fn ask_about(run: RunView, summary: Seq<char>) -> Step {
    let prompt = extraction_prompt(run.body, run.title, run.created, limited(summary));
    Step {
        run: RunView { stage: StageView::Asking { prompt, attempt: 0 }, ..run },
        action: ActionView::Ask(attempt_prompt(prompt, 0)),
    }
}

/// The run begins.
pub open spec fn started(run: RunView, chunks: Seq<Seq<char>>) -> Step {
    match plan_for(chunks) {
        Plan::NoMessages => over(run, ActionView::Fail("No messages to extract from"@)),
        Plan::Trivial => over(run, ActionView::Finish),
        Plan::SinglePass => ask_about(run, joined(chunks, ""@)),
        Plan::MapReduce => Step {
            run: RunView { stage: StageView::Summarising, ..run },
            action: ActionView::Summarise(chunks.map_values(|c: Seq<char>| chunk_question(c))),
        },
    }
}

/// The summaries have come.
pub open spec fn after_summaries(run: RunView, summaries: Seq<Seq<char>>) -> Step {
    ask_about(run, joined(summaries, "\n\n---\n\n"@))
}

/// What is embedded for the proposals that need it.
pub open spec fn embedded_texts(proposals: Seq<ProposedView>) -> Seq<Seq<char>> {
    embed_positions(proposals).map_values(|i: int| embedded_text(proposals[i]))
}

/// The nodes to merge into are looked for.
pub open spec fn look_for_nodes(
    run: RunView,
    proposals: Seq<ProposedView>,
    embeddings: Seq<Option<Seq<u32>>>,
) -> Step {
    Step {
        run: RunView { stage: StageView::Finding { proposals, embeddings }, ..run },
        action: ActionView::Find(
            Seq::new(
                proposals.len(),
                |i: int| lookup_of(proposals[i], embeddings[i] is Some),
            ),
        ),
    }
}

/// The model has given a document.
pub open spec fn after_document(run: RunView, v: JsonTree) -> Step {
    if !(v is Object || v is Array) {
        over(run, ActionView::Reject(v))
    } else {
        match proposals_of(kinded(sanitized(v))) {
            None => over(run, ActionView::Fail("proposal missing name"@)),
            Some(proposals) => if embed_positions(proposals).len() == 0 {
                look_for_nodes(
                    run,
                    proposals,
                    Seq::new(proposals.len(), |i: int| None::<Seq<u32>>),
                )
            } else {
                Step {
                    run: RunView { stage: StageView::Embedding { proposals }, ..run },
                    action: ActionView::Embed(embedded_texts(proposals)),
                }
            },
        }
    }
}

/// The model has answered, and so much was read from its answer.
pub open spec fn after_reading(
    run: RunView,
    answer: Seq<char>,
    read: Result<JsonTree, Seq<char>>,
) -> Step
    recommends
        run.stage is Asking,
{
    let prompt = run.stage->prompt;
    let attempt = run.stage->attempt;
    match reduce_outcome(attempt, answer, read) {
        ReduceView::Parsed(v) => after_document(run, v),
        ReduceView::Again => Step {
            run: RunView {
                stage: StageView::Asking { prompt, attempt: (attempt + 1) as usize },
                ..run
            },
            action: ActionView::Ask(attempt_prompt(prompt, (attempt + 1) as usize)),
        },
        ReduceView::Failed(m) => over(run, ActionView::Fail(m)),
    }
}

/// The embedding at a position: the positions got theirs in order, as far as
/// there were any.
pub open spec fn slot(at: Seq<int>, batch: Seq<Seq<u32>>, i: int) -> Option<Seq<u32>>
    decreases at.len(),
{
    if at.len() == 0 {
        None
    } else if at.len() <= batch.len() && at.last() == i {
        Some(batch[at.len() - 1])
    } else {
        slot(at.drop_last(), batch, i)
    }
}

/// The embeddings have come.
pub open spec fn after_embeddings(run: RunView, batch: Seq<Seq<u32>>) -> Step
    recommends
        run.stage is Embedding,
{
    let proposals = run.stage->Embedding_proposals;
    look_for_nodes(
        run,
        proposals,
        Seq::new(proposals.len(), |i: int| slot(embed_positions(proposals), batch, i)),
    )
}

/// The node that a proposal of the kind is merged into: one with its name, or one
/// that is near enough.
pub open spec fn taken(kind: Seq<char>, c: Candidate) -> Option<Seq<char>> {
    match c {
        Candidate::Nothing => None,
        Candidate::Named(id) => Some(id@),
        Candidate::Near(id, distance) => if merge_distance(kind).at_least(distance) {
            Some(id@)
        } else {
            None
        },
    }
}

/// The nodes to merge into have been looked for.
pub open spec fn after_search(run: RunView, found: Seq<Candidate>) -> Step
    recommends
        run.stage is Finding,
{
    let proposals = run.stage->Finding_proposals;
    let embeddings = run.stage->embeddings;
    over(
        run,
        ActionView::Apply(
            Seq::new(
                proposals.len(),
                |i: int| decided(proposals[i], embeddings[i], taken(proposals[i].kind, found[i])),
            ),
        ),
    )
}

impl Run {
    /// Begins the extraction of a conversation with the title and the date, whose
    /// messages make the chunks.
    pub fn start(title: String, created: String, body: Option<String>, chunks: &Vec<String>) -> (r: (
        Run,
        Action,
    ))
        ensures
            ({
                let fresh = RunView {
                    title: title@,
                    created: created@,
                    body: text_opt(body),
                    stage: StageView::Over,
                };
                (Step { run: r.0@, action: r.1@ }) == started(fresh, texts(chunks@))
            }),
    {
        let mut run = Run { title, created, body, stage: Stage::Over };
        match plan_extraction(chunks) {
            Plan::NoMessages => (run, Action::Fail(no_messages())),
            Plan::Trivial => (run, Action::Finish),
            Plan::SinglePass => {
                let action = run.ask(single_pass_summary(chunks));
                (run, action)
            },
            Plan::MapReduce => {
                let questions = map_questions(chunks);
                run.stage = Stage::Summarising;
                (run, Action::Summarise(questions))
            },
        }
    }

    fn ask(&mut self, summary: String) -> (r: Action)
        ensures
            (Step { run: final(self)@, action: r@ }) == ask_about(old(self)@, summary@),
    {
        let shown = limit_summary(summary);
        let body: Option<&str> = match &self.body {
            Some(b) => Some(b.as_str()),
            None => None,
        };
        let prompt = fill_prompt(body, self.title.as_str(), self.created.as_str(), shown.as_str());
        let first = reduce_prompt(prompt.as_str(), 0);
        self.stage = Stage::Asking { prompt, attempt: 0 };
        Action::Ask(first)
    }

    /// Goes on once the chunks have been summarised.
    pub fn summarised(&mut self, summaries: &Vec<String>) -> (r: Action)
        requires
            old(self).stage is Summarising,
        ensures
            (Step { run: final(self)@, action: r@ }) == after_summaries(
                old(self)@,
                texts(summaries@),
            ),
    {
        self.ask(map_reduce_summary(summaries))
    }
}

fn map_questions(chunks: &Vec<String>) -> (r: Vec<String>)
    ensures
        texts(r@) == texts(chunks@).map_values(|c: Seq<char>| chunk_question(c)),
{
    let mut out: Vec<String> = Vec::new();
    let mut i: usize = 0;
    while i < chunks.len()
        invariant
            i <= chunks@.len(),
            out@.len() == i,
            forall|k: int| 0 <= k < i ==> (#[trigger] out@[k])@ == chunk_question(chunks@[k]@),
        decreases chunks@.len() - i,
    {
        out.push(map_prompt(chunks[i].as_str()));
        i = i + 1;
    }
    assert(texts(out@) =~= texts(chunks@).map_values(|c: Seq<char>| chunk_question(c)));
    out
}

impl Run {
    /// Goes on once the model has answered and so much was read from its answer.
    pub fn after_reading_answer(&mut self, answer: &str, read: Result<Json, String>) -> (r: Action)
        requires
            old(self).stage is Asking,
        ensures
            (Step { run: final(self)@, action: r@ }) == after_reading(
                old(self)@,
                answer@,
                read_view(read),
            ),
    {
        let mut stage = Stage::Over;
        std::mem::swap(&mut stage, &mut self.stage);
        if let Stage::Asking { prompt, attempt } = stage {
            match after_answer(attempt, answer, read) {
                ReduceStep::Parsed(v) => self.read_document(v),
                ReduceStep::Again => {
                    let next: usize = attempt + 1;
                    let asked = reduce_prompt(prompt.as_str(), next);
                    self.stage = Stage::Asking { prompt, attempt: next };
                    Action::Ask(asked)
                },
                ReduceStep::Failed(m) => Action::Fail(m),
            }
        } else {
            Action::Finish
        }
    }

    /// Goes on once the model has answered.
    pub fn answered(&mut self, answer: &str) -> (r: Action)
        requires
            old(self).stage is Asking,
        ensures
            (Step { run: final(self)@, action: r@ }) == after_reading(
                old(self)@,
                answer@,
                json_held(answer@),
            ),
    {
        let read = parse_json_response(answer);
        self.after_reading_answer(answer, read)
    }

    fn read_document(&mut self, v: Json) -> (r: Action)
        requires
            old(self).stage is Over,
        ensures
            (Step { run: final(self)@, action: r@ }) == after_document(old(self)@, v@),
    {
        match sanitize_extraction_output(v) {
            Err(root) => Action::Reject(root),
            Ok(output) => match propose(output) {
                Err(m) => Action::Fail(m),
                Ok(proposals) => {
                    let (at, inputs) = embed_plan(&proposals);
                    proof {
                        lemma_planned(proposals@, at@, inputs@);
                    }
                    if inputs.len() == 0 {
                        let embeddings = spread_embeddings(proposals.len(), &at, Vec::new());
                        assert(embedding_views(embeddings@) =~= Seq::new(
                            proposals@.len(),
                            |i: int| None::<Seq<u32>>,
                        ));
                        self.look_up(proposals, embeddings)
                    } else {
                        self.stage = Stage::Embedding { proposals };
                        Action::Embed(inputs)
                    }
                },
            },
        }
    }

    fn look_up(&mut self, proposals: Vec<Proposed>, embeddings: Vec<Option<Vec<u32>>>) -> (r: Action)
        requires
            embeddings@.len() == proposals@.len(),
        ensures
            (Step { run: final(self)@, action: r@ }) == look_for_nodes(
                old(self)@,
                proposed_views(proposals@),
                embedding_views(embeddings@),
            ),
    {
        let mut lookups: Vec<Lookup> = Vec::new();
        let mut i: usize = 0;
        while i < proposals.len()
            invariant
                i <= proposals@.len(),
                embeddings@.len() == proposals@.len(),
                lookups@.len() == i,
                forall|k: int|
                    0 <= k < i ==> #[trigger] lookups@[k] == lookup_of(
                        proposals@[k]@,
                        embeddings@[k] is Some,
                    ),
            decreases proposals@.len() - i,
        {
            lookups.push(lookup_for(&proposals[i], embeddings[i].is_some()));
            i = i + 1;
        }
        assert(lookups@ =~= Seq::new(
            proposals@.len(),
            |i: int|
                lookup_of(
                    proposed_views(proposals@)[i],
                    embedding_views(embeddings@)[i] is Some,
                ),
        ));
        self.stage = Stage::Finding { proposals, embeddings };
        Action::Find(lookups)
    }

    /// Goes on once the embeddings have come.
    pub fn embedded(&mut self, batch: Vec<Vec<u32>>) -> (r: Action)
        requires
            old(self).stage is Embedding,
        ensures
            (Step { run: final(self)@, action: r@ }) == after_embeddings(
                old(self)@,
                embeddings_in(batch@),
            ),
    {
        let mut stage = Stage::Over;
        std::mem::swap(&mut stage, &mut self.stage);
        if let Stage::Embedding { proposals } = stage {
            let (at, inputs) = embed_plan(&proposals);
            let embeddings = spread_embeddings(proposals.len(), &at, batch);
            proof {
                let views = embedding_views(embeddings@);
                assert forall|i: int| 0 <= i < proposals@.len() implies views[i] == slot(
                    embed_positions(proposed_views(proposals@)),
                    embeddings_in(batch@),
                    i,
                ) by {
                    lemma_slots(at@, batch@, i);
                }
                assert(views =~= Seq::new(
                    proposals@.len(),
                    |i: int|
                        slot(
                            embed_positions(proposed_views(proposals@)),
                            embeddings_in(batch@),
                            i,
                        ),
                ));
            }
            self.look_up(proposals, embeddings)
        } else {
            Action::Finish
        }
    }

    /// Goes on once a node to merge into has been looked for, for each proposal.
    pub fn found(&mut self, found: Vec<Candidate>) -> (r: Action)
        requires
            old(self)@.stage is Finding,
            in_order(old(self)@),
            found@.len() == old(self)@.stage->Finding_proposals.len(),
        ensures
            (Step { run: final(self)@, action: r@ }) == after_search(old(self)@, found@),
    {
        let mut stage = Stage::Over;
        std::mem::swap(&mut stage, &mut self.stage);
        if let Stage::Finding { proposals, embeddings } = stage {
            Action::Apply(decide_all(proposals, embeddings, found))
        } else {
            Action::Finish
        }
    }
}

/// The components of the embeddings.
pub open spec fn embeddings_in(batch: Seq<Vec<u32>>) -> Seq<Seq<u32>> {
    batch.map_values(|e: Vec<u32>| e@)
}

proof fn lemma_planned(v: Seq<Proposed>, at: Seq<usize>, inputs: Seq<String>)
    requires
        at.map_values(|i: usize| i as int) == embed_positions(proposed_views(v)),
        at.len() == inputs.len(),
        forall|k: int|
            0 <= k < at.len() ==> #[trigger] at[k] < v.len() && inputs[k]@ == embedded_text(
                v[at[k] as int]@,
            ),
    ensures
        texts(inputs) == embedded_texts(proposed_views(v)),
{
    let positions = embed_positions(proposed_views(v));
    assert forall|k: int| 0 <= k < inputs.len() implies texts(inputs)[k] == #[trigger] embedded_texts(
        proposed_views(v),
    )[k] by {
        assert(positions[k] == at.map_values(|i: usize| i as int)[k]);
        assert(at[k] < v.len());
    }
    assert(positions.len() == at.map_values(|i: usize| i as int).len());
    assert(texts(inputs) =~= embedded_texts(proposed_views(v)));
}

proof fn lemma_slots(at: Seq<usize>, batch: Seq<Vec<u32>>, i: int)
    ensures
        embedding_view(slot_of(at, batch, i)) == slot(
            at.map_values(|k: usize| k as int),
            embeddings_in(batch),
            i,
        ),
    decreases at.len(),
{
    let positions = at.map_values(|k: usize| k as int);
    if at.len() > 0 {
        lemma_slots(at.drop_last(), batch, i);
        assert(at.drop_last().map_values(|k: usize| k as int) =~= positions.drop_last());
        assert(positions.last() == at.last());
    }
}

/// The node that a proposal of the kind is merged into.
pub fn take_candidate(kind: &str, c: Candidate) -> (r: Option<String>)
    ensures
        text_opt(r) == taken(kind@, c),
{
    match c {
        Candidate::Nothing => None,
        Candidate::Named(id) => Some(id),
        Candidate::Near(id, distance) => find_merge_candidate(kind, Some((id, distance))),
    }
}

/// What is done with each proposal.
fn decide_all(
    proposals: Vec<Proposed>,
    embeddings: Vec<Option<Vec<u32>>>,
    found: Vec<Candidate>,
) -> (r: Vec<Decision>)
    requires
        embeddings@.len() == proposals@.len(),
        found@.len() == proposals@.len(),
    ensures
        decision_views(r@) == Seq::new(
            proposals@.len(),
            |i: int|
                decided(
                    proposed_views(proposals@)[i],
                    embedding_views(embeddings@)[i],
                    taken(proposed_views(proposals@)[i].kind, found@[i]),
                ),
        ),
{
    let ghost ps = proposals@;
    let ghost es = embeddings@;
    let ghost fs = found@;
    let mut embeddings = embeddings;
    let mut found = found;
    let mut out: Vec<Decision> = Vec::new();
    for p in it: proposals
        invariant
            ps == it.seq(),
            es.len() == ps.len(),
            fs.len() == ps.len(),
            embeddings@.len() == es.len(),
            found@.len() == fs.len(),
            out@.len() == it.index(),
            forall|k: int| it.index() <= k < es.len() ==> #[trigger] embeddings@[k] == es[k],
            forall|k: int| it.index() <= k < fs.len() ==> #[trigger] found@[k] == fs[k],
            forall|k: int|
                0 <= k < out@.len() ==> (#[trigger] out@[k])@ == decided(
                    ps[k]@,
                    embedding_view(es[k]),
                    taken(ps[k]@.kind, fs[k]),
                ),
    {
        let i: usize = out.len();
        let mut embedding: Option<Vec<u32>> = None;
        std::mem::swap(&mut embedding, &mut embeddings[i]);
        let mut candidate = Candidate::Nothing;
        std::mem::swap(&mut candidate, &mut found[i]);
        let node = take_candidate(p.kind.as_str(), candidate);
        out.push(decide(p, embedding, node));
    }
    out
}

// Laws -------------------------------------------------------------------

/// A run keeps count of its attempts and has a place for each embedding.
pub open spec fn in_order(run: RunView) -> bool {
    match run.stage {
        StageView::Asking { attempt, .. } => attempt < REDUCE_ATTEMPTS,
        StageView::Finding { proposals, embeddings } => embeddings.len() == proposals.len(),
        _ => true,
    }
}

/// How many answers a run can still wait for.
pub open spec fn answers_left(run: RunView) -> int {
    match run.stage {
        StageView::Summarising => REDUCE_ATTEMPTS + 3,
        StageView::Asking { attempt, .. } => REDUCE_ATTEMPTS + 2 - attempt,
        StageView::Embedding { .. } => 2,
        StageView::Finding { .. } => 1,
        StageView::Over => 0,
    }
}

/// Whether nothing more is waited for after the action.
pub open spec fn is_last(action: ActionView) -> bool {
    action is Finish || action is Fail || action is Reject || action is Apply
}

/// Whether a step follows, whatever was answered.
pub open spec fn follows(run: RunView, step: Step) -> bool {
    match run.stage {
        StageView::Summarising => exists|summaries: Seq<Seq<char>>|
            step == #[trigger] after_summaries(run, summaries),
        StageView::Asking { .. } => exists|answer: Seq<char>, read: Result<JsonTree, Seq<char>>|
            step == #[trigger] after_reading(run, answer, read),
        StageView::Embedding { .. } => exists|batch: Seq<Seq<u32>>|
            step == #[trigger] after_embeddings(run, batch),
        StageView::Finding { .. } => exists|found: Seq<Candidate>|
            step == #[trigger] after_search(run, found),
        StageView::Over => false,
    }
}

/// A run begins in order. It is over at once exactly if there is nothing to wait
/// for.
pub proof fn runs_begin_in_order(run: RunView, chunks: Seq<Seq<char>>)
    ensures
        in_order(started(run, chunks).run),
        started(run, chunks).run.stage is Over <==> is_last(started(run, chunks).action),
{
}

/// Whatever is answered, a run stays in order and comes nearer to its end, which
/// it reaches exactly with an action that asks for nothing more. What it is about
/// does not change.
pub proof fn runs_come_to_an_end(run: RunView, step: Step)
    requires
        in_order(run),
        follows(run, step),
    ensures
        in_order(step.run),
        0 <= answers_left(step.run) < answers_left(run),
        step.run.stage is Over <==> is_last(step.action),
        (RunView { stage: run.stage, ..step.run }) == run,
{
}

proof fn lemma_positions(v: Seq<ProposedView>)
    ensures
        forall|k: int|
            0 <= k < embed_positions(v).len() ==> 0 <= #[trigger] embed_positions(v)[k] < v.len()
                && needs_embedding(v[embed_positions(v)[k]]),
        forall|j: int, k: int|
            0 <= j < k < embed_positions(v).len() ==> #[trigger] embed_positions(v)[j]
                < #[trigger] embed_positions(v)[k],
    decreases v.len(),
{
    if v.len() > 0 {
        let before = v.drop_last();
        lemma_positions(before);
        let at = embed_positions(v);
        let old_at = embed_positions(before);
        assert forall|k: int| 0 <= k < at.len() implies 0 <= #[trigger] at[k] < v.len()
            && needs_embedding(v[at[k]]) by {
            if k < old_at.len() {
                assert(at[k] == old_at[k]);
                assert(v[at[k]] == before[old_at[k]]);
            }
        }
        assert forall|j: int, k: int| 0 <= j < k < at.len() implies #[trigger] at[j]
            < #[trigger] at[k] by {
            assert(at[j] == old_at[j]);
            if k < old_at.len() {
                assert(at[k] == old_at[k]);
            }
        }
    }
}

proof fn lemma_slot(at: Seq<int>, batch: Seq<Seq<u32>>, i: int)
    requires
        forall|j: int, k: int| 0 <= j < k < at.len() ==> #[trigger] at[j] < #[trigger] at[k],
    ensures
        forall|k: int|
            0 <= k < at.len() && #[trigger] at[k] == i ==> slot(at, batch, i) == if k < batch.len() {
                Some(batch[k])
            } else {
                None
            },
        !at.contains(i) ==> slot(at, batch, i) is None,
    decreases at.len(),
{
    if at.len() > 0 {
        let before = at.drop_last();
        lemma_slot(before, batch, i);
        assert forall|k: int| 0 <= k < at.len() && #[trigger] at[k] == i implies slot(at, batch, i)
            == if k < batch.len() {
            Some(batch[k])
        } else {
            None
        } by {
            if k < before.len() {
                assert(before[k] == at[k]);
                assert(at[k] < at[at.len() - 1]);
            } else if before.contains(i) {
                let j = choose|j: int| 0 <= j < before.len() && before[j] == i;
                assert(at[j] == before[j]);
                assert(at[j] < at[k]);
            }
        }
        if !at.contains(i) {
            assert(!before.contains(i)) by {
                if before.contains(i) {
                    let j = choose|j: int| 0 <= j < before.len() && before[j] == i;
                    assert(at[j] == i);
                }
            }
            assert(at[at.len() - 1] != i);
        }
    }
}

/// Each proposal that needs an embedding gets its own: the texts that are
/// embedded are those of these proposals in their order, and what comes back for
/// one of them goes to its proposal and to no other.
pub proof fn embeddings_go_to_their_proposals(proposals: Seq<ProposedView>, batch: Seq<Seq<u32>>)
    ensures
        embedded_texts(proposals).len() == embed_positions(proposals).len(),
        forall|k: int|
            0 <= k < embed_positions(proposals).len() ==> {
                let i = #[trigger] embed_positions(proposals)[k];
                &&& 0 <= i < proposals.len()
                &&& needs_embedding(proposals[i])
                &&& embedded_texts(proposals)[k] == embedded_text(proposals[i])
                &&& slot(embed_positions(proposals), batch, i) == if k < batch.len() {
                    Some(batch[k])
                } else {
                    None
                }
            },
        forall|i: int|
            0 <= i < proposals.len() && !needs_embedding(proposals[i]) ==> (#[trigger] slot(
                embed_positions(proposals),
                batch,
                i,
            )) is None,
{
    let at = embed_positions(proposals);
    lemma_positions(proposals);
    assert forall|k: int| 0 <= k < at.len() implies slot(at, batch, #[trigger] at[k]) == if k
        < batch.len() {
        Some(batch[k])
    } else {
        None
    } by {
        lemma_slot(at, batch, at[k]);
    }
    assert forall|i: int| 0 <= i < proposals.len() && !needs_embedding(proposals[i]) implies (
    #[trigger] slot(at, batch, i)) is None by {
        lemma_slot(at, batch, i);
        if at.contains(i) {
            let k = choose|k: int| 0 <= k < at.len() && at[k] == i;
            assert(needs_embedding(proposals[at[k]]));
        }
    }
}

/// What is carried out in the end is one decision for each proposal of the
/// answer, in its order. One that is parked is merged into nothing and keeps no
/// embedding.
pub proof fn every_proposal_is_decided(run: RunView, found: Seq<Candidate>)
    requires
        run.stage is Finding,
    ensures
        after_search(run, found).action matches ActionView::Apply(decisions) && decisions.len()
            == run.stage->Finding_proposals.len() && (forall|i: int|
            0 <= i < decisions.len() ==> (#[trigger] decisions[i]).proposal
                == run.stage->Finding_proposals[i] && (is_parked(decisions[i].proposal.confidence)
                ==> decisions[i].merge_into is None && decisions[i].embedding is None)),
{
}

/// A run shows the model what it was given: the whole of it where one question does,
/// and else each chunk by itself, at the end of a question.
pub proof fn every_chunk_is_shown(run: RunView, chunks: Seq<Seq<char>>)
    ensures
        plan_for(chunks) is NoMessages ==> started(run, chunks).action == ActionView::Fail(
            "No messages to extract from"@,
        ),
        plan_for(chunks) is Trivial ==> started(run, chunks).action is Finish,
        plan_for(chunks) is SinglePass ==> started(run, chunks).action == ActionView::Ask(
            extraction_prompt(run.body, run.title, run.created, limited(joined(chunks, ""@))),
        ),
        plan_for(chunks) is MapReduce ==> (started(run, chunks).action matches
            ActionView::Summarise(questions) && questions.len() == chunks.len() && forall|i: int|
            0 <= i < chunks.len() ==> (#[trigger] questions[i]).len() >= chunks[i].len()
                && questions[i].skip(questions[i].len() - chunks[i].len()) == chunks[i]),
{
    if plan_for(chunks) is MapReduce {
        let questions = started(run, chunks).action->Summarise_0;
        assert forall|i: int| 0 <= i < chunks.len() implies (#[trigger] questions[i]).len()
            >= chunks[i].len() && questions[i].skip(questions[i].len() - chunks[i].len())
            == chunks[i] by {
            assert(questions[i] == chunk_question(chunks[i]));
            assert(questions[i].skip(questions[i].len() - chunks[i].len()) =~= chunks[i]);
        }
    }
}

/// A document that is neither an object nor an array is refused, and one in which a
/// finding has no name fails; from every other its findings are taken, and are embedded
/// before nodes are looked for, where one of them needs to be.
pub proof fn documents_are_taken_or_refused(run: RunView, v: JsonTree)
    ensures
        !(v is Object) && !(v is Array) <==> after_document(run, v).action == ActionView::Reject(
            v,
        ),
        (v is Object || v is Array) && proposals_of(kinded(sanitized(v))) is None
            <==> after_document(run, v).action == ActionView::Fail("proposal missing name"@),
        (v is Object || v is Array) ==> (proposals_of(kinded(sanitized(v))) matches Some(proposals)
            ==> (after_document(run, v).action is Embed || after_document(run, v).action is Find)
            && (after_document(run, v).action is Embed <==> exists|i: int|
            0 <= i < proposals.len() && needs_embedding(#[trigger] proposals[i]))),
{
    if v is Object || v is Array {
        if let Some(proposals) = proposals_of(kinded(sanitized(v))) {
            lemma_positions(proposals);
            lemma_positions_complete(proposals);
            if embed_positions(proposals).len() > 0 {
                assert(needs_embedding(proposals[embed_positions(proposals)[0]]));
            }
        }
    }
}

proof fn lemma_positions_complete(v: Seq<ProposedView>)
    ensures
        forall|i: int|
            0 <= i < v.len() && needs_embedding(#[trigger] v[i]) ==> embed_positions(v).len() > 0,
    decreases v.len(),
{
    if v.len() > 0 {
        let rest = v.drop_last();
        lemma_positions_complete(rest);
        assert forall|i: int| 0 <= i < v.len() && needs_embedding(#[trigger] v[i]) implies
            embed_positions(v).len() > 0 by {
            if i < rest.len() {
                assert(rest[i] == v[i]);
            }
        }
    }
}

/// A node with the name of a finding is always taken, and the nearest exactly if it is
/// no farther than nodes of the kind are merged from; so what is taken at a distance is
/// taken at every smaller one.
pub proof fn near_nodes_are_taken(kind: Seq<char>, id: String, near: Double, far: Double)
    ensures
        taken(kind, Candidate::Nothing) is None,
        taken(kind, Candidate::Named(id)) == Some(id@),
        taken(kind, Candidate::Near(id, near)) is None || taken(kind, Candidate::Near(id, near))
            == Some(id@),
        !near.is_nan() && near.level() <= far.level() && taken(
            kind,
            Candidate::Near(id, far),
        ) is Some ==> taken(kind, Candidate::Near(id, near)) == Some(id@),
        taken(kind, Candidate::Near(id, near)) is Some ==> near.level() <= merge_distance(
            kind,
        ).level(),
        near == merge_distance(kind) ==> taken(kind, Candidate::Near(id, near)) == Some(id@),
{
    let limit = merge_distance(kind);
    crate::double::comparison_is_total_on_numbers(limit, near);
    crate::double::comparison_is_total_on_numbers(limit, far);
}

/// After the summaries the model is asked about all of them, each two of them parted by
/// a line of dashes; the run itself stays as it was.
pub proof fn summaries_are_asked_about_together(
    run: RunView,
    first: Seq<Seq<char>>,
    rest: Seq<Seq<char>>,
)
    requires
        first.len() > 0,
        rest.len() > 0,
    ensures
        ({
            let sep = "\n\n---\n\n"@;
            let all = joined(first, sep) + sep + joined(rest, sep);
            let step = after_summaries(run, first + rest);
            &&& step.action == ActionView::Ask(
                extraction_prompt(run.body, run.title, run.created, limited(all)),
            )
            &&& (RunView { stage: run.stage, ..step.run }) == run
        }),
{
    crate::text::joining_goes_on(first, rest, "\n\n---\n\n"@);
}

} // verus!
