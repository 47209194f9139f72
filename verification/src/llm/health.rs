//! Probing what an endpoint can do.

use super::openai::listing;
use super::{unknown_health, ChatOpts, HealthStatus, HealthView};
use crate::double::{Double, ZERO_BITS};
use crate::text::{contains, lowered, occurs, texts, lower};
use vstd::prelude::*;

verus! {

/// What the probe asks the endpoint next.
#[derive(Debug)]
pub enum Probe {
    /// The list of models.
    Models,
    /// A chat with the model, in JSON mode or not.
    Chat { model: String, json_mode: bool },
    /// An embedding by the model.
    Embed { model: String },
    /// Nothing more.
    Done,
}

/// What a probe asks.
pub ghost enum ProbeView {
    Models,
    Chat { model: Seq<char>, json_mode: bool },
    Embed { model: Seq<char> },
    Done,
}

impl View for Probe {
    type V = ProbeView;

    open spec fn view(&self) -> ProbeView {
        match self {
            Probe::Models => ProbeView::Models,
            Probe::Chat { model, json_mode } => ProbeView::Chat {
                model: model@,
                json_mode: *json_mode,
            },
            Probe::Embed { model } => ProbeView::Embed { model: model@ },
            Probe::Done => ProbeView::Done,
        }
    }
}

/// What is sent to find out whether an endpoint answers.
pub fn ping() -> (r: String)
    ensures
        r@ == "ping"@,
{
    "ping".to_owned()
}

/// How the chat that only finds out whether an endpoint answers is run.
pub fn ping_opts(json_mode: bool) -> (r: ChatOpts)
    ensures
        r == (ChatOpts {
            temperature: Double { bits: ZERO_BITS },
            json_mode,
            max_tokens: Some(20),
        }),
{
    ChatOpts { temperature: Double { bits: ZERO_BITS }, json_mode, max_tokens: Some(20) }
}

/// A health check under way.
#[derive(Debug)]
pub struct HealthCheck {
    pub status: HealthStatus,
    /// What is asked next.
    pub probe: Probe,
    /// The models of the endpoint, if it listed them.
    pub models: Option<Vec<String>>,
    /// Why the chat in JSON mode failed, while the plain one is tried.
    pub json_error: String,
}

/// What a health check holds.
pub ghost struct CheckView {
    pub status: HealthView,
    pub probe: ProbeView,
    pub models: Option<Seq<Seq<char>>>,
    pub json_error: Seq<char>,
}

/// The contents of an optional list.
pub open spec fn list_opt(v: Option<Vec<String>>) -> Option<Seq<Seq<char>>> {
    match v {
        Some(x) => Some(texts(x@)),
        None => None,
    }
}

impl View for HealthCheck {
    type V = CheckView;

    open spec fn view(&self) -> CheckView {
        CheckView {
            status: self.status@,
            probe: self.probe@,
            models: list_opt(self.models),
            json_error: self.json_error@,
        }
    }
}

/// The first of the texts for which `pred` holds.
pub open spec fn first_where(v: Seq<Seq<char>>, pred: spec_fn(Seq<char>) -> bool) -> Option<
    Seq<char>,
>
    decreases v.len(),
{
    if v.len() == 0 {
        None
    } else if pred(v[0]) {
        Some(v[0])
    } else {
        first_where(v.drop_first(), pred)
    }
}

/// The model that the chat probe uses: the first that is not named as an
/// embedding model.
pub open spec fn chat_model(models: Option<Seq<Seq<char>>>) -> Seq<char> {
    match models {
        Some(v) => match first_where(v, |s: Seq<char>| !occurs(s, "embed"@)) {
            Some(s) => s,
            None => "default"@,
        },
        None => "default"@,
    }
}

/// The model that the embedding probe uses: the first that is named as an
/// embedding model, in whatever case.
pub open spec fn embed_model(models: Option<Seq<Seq<char>>>) -> Option<Seq<char>> {
    match models {
        Some(v) => first_where(v, |s: Seq<char>| occurs(lowered(s), "embed"@)),
        None => None,
    }
}

/// The message for an endpoint that lists no embedding model.
pub open spec fn no_embed_model_message() -> Seq<char> {
    "Endpoint didn't advertise any embedding model (nothing containing 'embed' in /models). Check Settings \u{2192} LLM Routing (Embedding) for the exact model your server is serving."@
}

/// The check before anything was asked.
pub open spec fn check_start() -> CheckView {
    CheckView {
        status: unknown_health(),
        probe: ProbeView::Models,
        models: None,
        json_error: Seq::empty(),
    }
}

/// The check once the list of models has come, or failed to.
pub open spec fn after_models(
    c: CheckView,
    outcome: Result<Seq<Seq<char>>, Seq<char>>,
) -> CheckView {
    let models = match outcome {
        Ok(v) => Some(v),
        Err(_) => None,
    };
    CheckView {
        status: HealthView {
            models: models matches Some(v) && v.len() > 0,
            models_error: match outcome {
                Ok(v) => if v.len() > 0 {
                    c.status.models_error
                } else {
                    Some("Provider returned an empty model list."@)
                },
                Err(m) => Some(m),
            },
            ..c.status
        },
        probe: ProbeView::Chat { model: chat_model(models), json_mode: true },
        models,
        ..c
    }
}

/// The check once the chats are over: it goes on to the embedding probe, if the
/// endpoint lists a model for it.
pub open spec fn to_embedding(c: CheckView) -> CheckView {
    match embed_model(c.models) {
        Some(m) => CheckView { probe: ProbeView::Embed { model: m }, ..c },
        None => CheckView {
            status: HealthView {
                embeddings_error: Some(no_embed_model_message()),
                ..c.status
            },
            probe: ProbeView::Done,
            ..c
        },
    }
}

/// The check once a chat has been answered, or failed.
pub open spec fn after_chat(c: CheckView, json_mode: bool, outcome: Result<(), Seq<char>>) -> CheckView {
    match outcome {
        Ok(_) => to_embedding(
            CheckView { status: HealthView { chat: true, json_mode, ..c.status }, ..c },
        ),
        Err(m) => if json_mode {
            CheckView {
                probe: ProbeView::Chat { model: chat_model(c.models), json_mode: false },
                json_error: m,
                ..c
            }
        } else {
            to_embedding(
                CheckView {
                    status: HealthView {
                        chat_error: Some(
                            "json_mode: "@ + c.json_error + "; plain: "@ + m,
                        ),
                        ..c.status
                    },
                    ..c
                },
            )
        },
    }
}

/// The check once an embedding has come, or failed to.
pub open spec fn after_embed(c: CheckView, outcome: Result<(), Seq<char>>) -> CheckView {
    CheckView {
        status: match outcome {
            Ok(_) => HealthView { embeddings: true, ..c.status },
            Err(m) => HealthView { embeddings_error: Some(m), ..c.status },
        },
        probe: ProbeView::Done,
        ..c
    }
}

/// The contents of an outcome.
pub open spec fn outcome_view(r: Result<(), String>) -> Result<(), Seq<char>> {
    match r {
        Ok(_) => Ok(()),
        Err(m) => Err(m@),
    }
}

fn find_chat_model(models: &Vec<String>) -> (r: Option<String>)
    ensures
        match r {
            Some(s) => first_where(texts(models@), |s: Seq<char>| !occurs(s, "embed"@)) == Some(
                s@,
            ),
            None => first_where(texts(models@), |s: Seq<char>| !occurs(s, "embed"@)) is None,
        },
{
    let ghost pred = |s: Seq<char>| !occurs(s, "embed"@);
    let ghost all = texts(models@);
    let mut i: usize = 0;
    assert(all.skip(0) =~= all);
    while i < models.len()
        invariant
            i <= models@.len(),
            all == texts(models@),
            pred == (|s: Seq<char>| !occurs(s, "embed"@)),
            first_where(all, pred) == first_where(all.skip(i as int), pred),
        decreases models@.len() - i,
    {
        assert(all.skip(i as int)[0] == models@[i as int]@);
        if !contains(models[i].as_str(), "embed") {
            return Some(models[i].clone());
        }
        assert(all.skip(i as int).drop_first() =~= all.skip(i + 1));
        i = i + 1;
    }
    None
}

fn find_embed_model(models: &Vec<String>) -> (r: Option<String>)
    ensures
        match r {
            Some(s) => first_where(texts(models@), |s: Seq<char>| occurs(lowered(s), "embed"@))
                == Some(s@),
            None => first_where(
                texts(models@),
                |s: Seq<char>| occurs(lowered(s), "embed"@),
            ) is None,
        },
{
    let ghost pred = |s: Seq<char>| occurs(lowered(s), "embed"@);
    let ghost all = texts(models@);
    let mut i: usize = 0;
    assert(all.skip(0) =~= all);
    while i < models.len()
        invariant
            i <= models@.len(),
            all == texts(models@),
            pred == (|s: Seq<char>| occurs(lowered(s), "embed"@)),
            first_where(all, pred) == first_where(all.skip(i as int), pred),
        decreases models@.len() - i,
    {
        assert(all.skip(i as int)[0] == models@[i as int]@);
        let low_text = lower(models[i].as_str());
        if contains(low_text.as_str(), "embed") {
            return Some(models[i].clone());
        }
        assert(all.skip(i as int).drop_first() =~= all.skip(i + 1));
        i = i + 1;
    }
    None
}

fn pick_chat_model(models: &Option<Vec<String>>) -> (r: String)
    ensures
        r@ == chat_model(list_opt(*models)),
{
    match models {
        Some(v) => match find_chat_model(v) {
            Some(s) => s,
            None => "default".to_owned(),
        },
        None => "default".to_owned(),
    }
}

impl HealthCheck {
    /// A check before anything was asked.
    pub fn new() -> (r: HealthCheck)
        ensures
            r@ == check_start(),
    {
        HealthCheck {
            status: HealthStatus::default(),
            probe: Probe::Models,
            models: None,
            json_error: String::new(),
        }
    }

    /// Goes on once the list of models has come, or failed to.
    pub fn models_listed(&mut self, outcome: Result<Vec<String>, String>)
        ensures
            final(self)@ == after_models(old(self)@, listing(outcome)),
    {
        let ghost c = self@;
        match outcome {
            Ok(v) => {
                if v.len() > 0 {
                    self.status.models = true;
                } else {
                    self.status.models = false;
                    self.status.models_error = Some(
                        "Provider returned an empty model list.".to_owned(),
                    );
                }
                assert(texts(v@).len() == v@.len());
                self.models = Some(v);
            },
            Err(m) => {
                self.status.models = false;
                self.status.models_error = Some(m);
                self.models = None;
            },
        }
        let model = pick_chat_model(&self.models);
        self.probe = Probe::Chat { model, json_mode: true };
        assert(self@ == after_models(c, listing(outcome)));
    }

    fn go_to_embedding(&mut self)
        ensures
            final(self)@ == to_embedding(old(self)@),
    {
        let found = match &self.models {
            Some(v) => find_embed_model(v),
            None => None,
        };
        match found {
            Some(model) => {
                self.probe = Probe::Embed { model };
            },
            None => {
                self.status.embeddings_error = Some(
                    "Endpoint didn't advertise any embedding model (nothing containing 'embed' in /models). Check Settings \u{2192} LLM Routing (Embedding) for the exact model your server is serving.".to_owned(),
                );
                self.probe = Probe::Done;
            },
        }
    }

    /// Goes on once the chat, run in JSON mode or not, has been answered or has
    /// failed.
    pub fn chatted(&mut self, json_mode: bool, outcome: Result<(), String>)
        ensures
            final(self)@ == after_chat(old(self)@, json_mode, outcome_view(outcome)),
    {
        match outcome {
            Ok(_) => {
                self.status.chat = true;
                self.status.json_mode = json_mode;
                self.go_to_embedding();
            },
            Err(m) => {
                if json_mode {
                    let model = pick_chat_model(&self.models);
                    self.probe = Probe::Chat { model, json_mode: false };
                    self.json_error = m;
                } else {
                    let mut e = "json_mode: ".to_owned();
                    e.append(self.json_error.as_str());
                    e.append("; plain: ");
                    e.append(m.as_str());
                    self.status.chat_error = Some(e);
                    self.go_to_embedding();
                }
            },
        }
    }

    /// Goes on once the embedding has come, or failed to.
    pub fn embedded(&mut self, outcome: Result<(), String>)
        ensures
            final(self)@ == after_embed(old(self)@, outcome_view(outcome)),
    {
        match outcome {
            Ok(_) => {
                self.status.embeddings = true;
            },
            Err(m) => {
                self.status.embeddings_error = Some(m);
            },
        }
        self.probe = Probe::Done;
    }
}

/// The check that follows from what the endpoint answered: to the request for
/// its models, to the chat in JSON mode, to the plain chat if that one is run,
/// and to the embedding if that one is.
pub open spec fn whole_check(
    models: Result<Seq<Seq<char>>, Seq<char>>,
    json_chat: Result<(), Seq<char>>,
    plain_chat: Result<(), Seq<char>>,
    embedding: Result<(), Seq<char>>,
) -> CheckView {
    let a = after_models(check_start(), models);
    let b = after_chat(a, true, json_chat);
    let c = if json_chat is Err {
        after_chat(b, false, plain_chat)
    } else {
        b
    };
    if c.probe is Embed {
        after_embed(c, embedding)
    } else {
        c
    }
}

/// Whatever the endpoint answers, a check comes to its end, and each capability
/// that it denies comes with an error, each that it grants with none; JSON mode
/// is never granted without chat.
pub proof fn every_denial_comes_with_its_error(
    models: Result<Seq<Seq<char>>, Seq<char>>,
    json_chat: Result<(), Seq<char>>,
    plain_chat: Result<(), Seq<char>>,
    embedding: Result<(), Seq<char>>,
)
    ensures
        ({
            let c = whole_check(models, json_chat, plain_chat, embedding);
            &&& c.probe is Done
            &&& c.status.models <==> c.status.models_error is None
            &&& c.status.chat <==> c.status.chat_error is None
            &&& c.status.embeddings <==> c.status.embeddings_error is None
            &&& c.status.json_mode ==> c.status.chat
            &&& c.status.json_mode <==> json_chat is Ok
        }),
{
}

proof fn lemma_first_where(v: Seq<Seq<char>>, pred: spec_fn(Seq<char>) -> bool)
    ensures
        first_where(v, pred) is None <==> forall|i: int|
            0 <= i < v.len() ==> !pred(#[trigger] v[i]),
        first_where(v, pred) matches Some(s) ==> exists|k: int|
            0 <= k < v.len() && #[trigger] v[k] == s && pred(s) && forall|i: int|
                0 <= i < k ==> !pred(#[trigger] v[i]),
    decreases v.len(),
{
    if v.len() > 0 {
        let rest = v.drop_first();
        if !pred(v[0]) {
            lemma_first_where(rest, pred);
            if first_where(rest, pred) is None {
                assert forall|i: int| 0 <= i < v.len() implies !pred(#[trigger] v[i]) by {
                    if i > 0 {
                        assert(rest[i - 1] == v[i]);
                    }
                }
            } else {
                let s = first_where(rest, pred)->0;
                let k = choose|k: int|
                    0 <= k < rest.len() && #[trigger] rest[k] == s && pred(s) && forall|i: int|
                        0 <= i < k ==> !pred(#[trigger] rest[i]);
                assert(v[k + 1] == s);
                assert forall|i: int| 0 <= i < k + 1 implies !pred(#[trigger] v[i]) by {
                    if i > 0 {
                        assert(rest[i - 1] == v[i]);
                    }
                }
            }
        } else {
            assert(v[0] == first_where(v, pred)->0);
        }
    }
}

/// The chat is tried with the first model that is not named after embeddings, and
/// the embedding with the first that is, in letters of any size.
pub proof fn models_are_tried_by_their_names(v: Seq<Seq<char>>)
    ensures
        (forall|i: int| 0 <= i < v.len() ==> occurs(#[trigger] v[i], "embed"@)) ==> chat_model(
            Some(v),
        ) == "default"@,
        (exists|i: int| 0 <= i < v.len() && !occurs(#[trigger] v[i], "embed"@)) ==> exists|k: int|
            0 <= k < v.len() && #[trigger] v[k] == chat_model(Some(v)) && !occurs(v[k], "embed"@)
                && forall|i: int| 0 <= i < k ==> occurs(#[trigger] v[i], "embed"@),
        embed_model(Some(v)) is None <==> forall|i: int|
            0 <= i < v.len() ==> !occurs(lowered(#[trigger] v[i]), "embed"@),
        embed_model(Some(v)) matches Some(s) ==> exists|k: int|
            0 <= k < v.len() && #[trigger] v[k] == s && occurs(lowered(s), "embed"@) && forall|
                i: int,
            |
                0 <= i < k ==> !occurs(lowered(#[trigger] v[i]), "embed"@),
{
    lemma_first_where(v, |s: Seq<char>| !occurs(s, "embed"@));
    lemma_first_where(v, |s: Seq<char>| occurs(lowered(s), "embed"@));
}

/// What a check finds is what came back: there are models if some were listed, a chat
/// if either chat succeeded, and embeddings if a model for them was listed and gave one.
pub proof fn checks_tell_what_came_back(
    models: Result<Seq<Seq<char>>, Seq<char>>,
    json_chat: Result<(), Seq<char>>,
    plain_chat: Result<(), Seq<char>>,
    embedding: Result<(), Seq<char>>,
)
    ensures
        ({
            let c = whole_check(models, json_chat, plain_chat, embedding);
            &&& c.status.models <==> (models matches Ok(v) && v.len() > 0)
            &&& c.status.chat <==> json_chat is Ok || plain_chat is Ok
            &&& c.status.embeddings <==> embedding is Ok && (models matches Ok(v) && exists|i: int|
                0 <= i < v.len() && occurs(lowered(#[trigger] v[i]), "embed"@))
            &&& models matches Err(m) ==> c.status.models_error == Some(m)
            &&& json_chat matches Err(a) ==> (plain_chat matches Err(b) ==> c.status.chat_error
                == Some("json_mode: "@ + a + "; plain: "@ + b))
        }),
{
    if let Ok(v) = models {
        models_are_tried_by_their_names(v);
    }
}

} // verus!
