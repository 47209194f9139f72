//! The OpenAI-compatible protocol: requests as JSON documents, replies read from
//! JSON documents.

use super::content::{choice_text, coerce_message_from_openai_choice};
use super::{ChatOpts, ChatResponse, Message, MessageView};
use crate::double::{Double, ZERO_BITS};
use crate::json::{
    decimal_number, integer, json_double, json_integer, json_of_text, parse, trees, Json, JsonTree,
    ObjectBuilder,
};
use crate::text::{
    chars, contains, lowered, occurs, occurs_at, same, starts_with, string_of, texts,
    lower, trim_end_of, trimmed_end_of,
};
use vstd::prelude::*;

verus! {

// The endpoint -----------------------------------------------------------

/// A client of one endpoint.
#[derive(Debug)]
pub struct OpenAiCompatibleClient {
    pub base_url: String,
    pub api_key: String,
    /// Whether the endpoint looks like Ollama, which alone takes the request
    /// fields that strict providers refuse.
    pub is_ollama: bool,
}

/// Whether the address is that of an Ollama server.
pub open spec fn looks_like_ollama(url: Seq<char>) -> bool {
    occurs(url, "localhost"@) || occurs(url, "127.0.0.1"@) || occurs(url, ":11434"@)
}

impl OpenAiCompatibleClient {
    /// A client of the endpoint at `base_url`, whose trailing slashes are taken
    /// off, so that a path put behind it never makes a double slash.
    pub fn new(base_url: String, api_key: String) -> (r: OpenAiCompatibleClient)
        ensures
            r.base_url@ == trimmed_end_of(base_url@, '/'),
            r.base_url@.len() > 0 ==> r.base_url@.last() != '/',
            r.api_key@ == api_key@,
            r.is_ollama == looks_like_ollama(r.base_url@),
    {
        proof {
            crate::text::lemma_trimmed_end_of(base_url@, '/');
        }
        let url = trim_end_of(base_url.as_str(), '/').to_owned();
        let is_ollama = contains(url.as_str(), "localhost") || contains(url.as_str(), "127.0.0.1")
            || contains(url.as_str(), ":11434");
        OpenAiCompatibleClient { base_url: url, api_key, is_ollama }
    }

    /// The address of one of the endpoint's services.
    pub fn url(&self, path: &str) -> (r: String)
        ensures
            r@ == self.base_url@ + path@,
    {
        let mut out = self.base_url.clone();
        out.append(path);
        out
    }
}

// Models that think ------------------------------------------------------

/// The name of a model in lower case, without the prefix that Gemini puts
/// before it.
pub open spec fn plain_model_name(name: Seq<char>) -> Seq<char> {
    let n = lowered(name);
    if occurs_at(n, "models/"@, 0) {
        n.skip("models/"@.len() as int)
    } else {
        n
    }
}

/// Whether a plain model name is that of a model that spends output tokens on
/// hidden reasoning.
pub open spec fn names_thinking_model(n: Seq<char>) -> bool {
    ||| occurs(n, "thinking"@)
    ||| occurs(n, "reasoning"@)
    ||| occurs_at(n, "gemini-2.5-pro"@, 0)
    ||| n == "o1"@
    ||| n == "o3"@
    ||| n == "o4"@
    ||| occurs_at(n, "o1-"@, 0)
    ||| occurs_at(n, "o3-"@, 0)
    ||| occurs_at(n, "o4-"@, 0)
}

/// `name` without the prefix that Gemini puts before it.
fn strip_models_prefix(name: String) -> (r: String)
    ensures
        r@ == if occurs_at(name@, "models/"@, 0) {
            name@.skip("models/"@.len() as int)
        } else {
            name@
        },
{
    if starts_with(name.as_str(), "models/") {
        let v = chars(name.as_str());
        let p = chars("models/");
        let out = string_of(&v, p.len(), v.len());
        assert(out@ =~= name@.skip("models/"@.len() as int));
        out
    } else {
        name
    }
}

/// Whether the plain model name is that of a model that thinks.
pub fn plain_name_is_thinking(n: &str) -> (r: bool)
    ensures
        r == names_thinking_model(n@),
{
    contains(n, "thinking") || contains(n, "reasoning") || starts_with(n, "gemini-2.5-pro") || same(
        n,
        "o1",
    ) || same(n, "o3") || same(n, "o4") || starts_with(n, "o1-") || starts_with(n, "o3-")
        || starts_with(n, "o4-")
}

/// Whether a model spends output tokens on hidden reasoning before it produces
/// what is visible.
pub fn model_is_thinking(name: &str) -> (r: bool)
    ensures
        r == names_thinking_model(plain_model_name(name@)),
{
    let n = strip_models_prefix(lower(name));
    plain_name_is_thinking(n.as_str())
}

// Retries ----------------------------------------------------------------

/// What follows an attempt.
#[derive(Clone, Copy, Debug, PartialEq, Eq, Structural)]
pub enum RetryStep {
    /// The attempt succeeded.
    Return,
    /// The attempt failed: wait so many seconds and try again.
    Wait(u64),
    /// The attempt failed, and it was the last.
    GiveUp,
}

/// How often a call is attempted.
pub const MAX_ATTEMPTS: usize = 3;

/// What follows attempt number `attempt`, counted from zero: a failure is tried
/// again after one second, then after three.
pub open spec fn retry_step(attempt: usize, succeeded: bool) -> RetryStep {
    if succeeded {
        RetryStep::Return
    } else if attempt == 0 {
        RetryStep::Wait(1)
    } else if attempt == 1 {
        RetryStep::Wait(3)
    } else {
        RetryStep::GiveUp
    }
}

/// What follows attempt number `attempt`.
pub fn with_retry(attempt: usize, succeeded: bool) -> (r: RetryStep)
    ensures
        r == retry_step(attempt, succeeded),
{
    if succeeded {
        RetryStep::Return
    } else if attempt == 0 {
        RetryStep::Wait(1)
    } else if attempt == 1 {
        RetryStep::Wait(3)
    } else {
        RetryStep::GiveUp
    }
}

/// A call is attempted again exactly while it has failed fewer than three times:
/// after one second, and then after three.
pub proof fn a_call_is_attempted_three_times(attempt: usize)
    ensures
        retry_step(attempt, false) is Wait <==> attempt + 1 < 3,
        retry_step(attempt, false) is GiveUp <==> attempt + 1 >= 3,
        attempt < 2 ==> retry_step(attempt, false) == RetryStep::Wait((1 + 2 * attempt) as u64),
        retry_step(attempt, true) is Return,
{
}

// Replies ----------------------------------------------------------------

/// The first `n` characters.
pub open spec fn snippet(s: Seq<char>, n: int) -> Seq<char> {
    if s.len() <= n {
        s
    } else {
        s.take(n)
    }
}

/// The first `n` characters of `s`.
pub fn first_chars(s: &str, n: usize) -> (r: String)
    ensures
        r@ == snippet(s@, n as int),
{
    let v = chars(s);
    let to: usize = if v.len() <= n {
        v.len()
    } else {
        n
    };
    let out = string_of(&v, 0, to);
    assert(out@ =~= snippet(s@, n as int));
    out
}

/// What a reply amounts to of which so much was read.
pub open spec fn read_outcome(read: Result<JsonTree, Seq<char>>) -> Result<JsonTree, Seq<char>> {
    match read {
        Ok(v) => Ok(v),
        Err(m) => Err("Invalid JSON from endpoint: "@ + m),
    }
}

/// What a reply with the status and the body amounts to.
pub open spec fn reply_outcome(success: bool, status: Seq<char>, body: Seq<char>) -> Result<
    JsonTree,
    Seq<char>,
> {
    if !success {
        Err("HTTP "@ + status + ": "@ + body)
    } else {
        read_outcome(json_of_text(body))
    }
}

/// The contents of what was read.
pub open spec fn read_view(read: Result<Json, String>) -> Result<JsonTree, Seq<char>> {
    match read {
        Ok(v) => Ok(v@),
        Err(m) => Err(m@),
    }
}

/// Goes on with what was read of the body of a reply.
pub fn after_reading_reply(read: Result<Json, String>) -> (r: Result<Json, String>)
    ensures
        read_view(r) == read_outcome(read_view(read)),
{
    match read {
        Ok(v) => Ok(v),
        Err(e) => {
            let mut m = "Invalid JSON from endpoint: ".to_owned();
            m.append(e.as_str());
            Err(m)
        },
    }
}

/// Reads the reply to a request: `success` says whether the status, printed as
/// `status`, is one of success.
pub fn post_json(success: bool, status: &str, body: &str) -> (r: Result<Json, String>)
    ensures
        read_view(r) == reply_outcome(success, status@, body@),
{
    if !success {
        let mut m = "HTTP ".to_owned();
        m.append(status);
        m.append(": ");
        m.append(body);
        return Err(m);
    }
    after_reading_reply(parse(body))
}

// Chat -------------------------------------------------------------------

/// A message as it is sent.
pub open spec fn message_json(m: MessageView) -> JsonTree {
    JsonTree::Object(
        seq![("role"@, JsonTree::Str(m.role)), ("content"@, JsonTree::Str(m.content))],
    )
}

/// What the messages hold.
pub open spec fn message_views(v: Seq<Message>) -> Seq<MessageView> {
    v.map_values(|m: Message| m@)
}

/// The least budget of output tokens for a model that thinks.
pub const THINKING_TOKENS: u32 = 8000;

/// The cap on output tokens that is sent.
pub open spec fn adjusted_limit(limit: u32, is_ollama: bool, model: Seq<char>) -> u32 {
    if !is_ollama && names_thinking_model(plain_model_name(model)) && limit < THINKING_TOKENS {
        THINKING_TOKENS
    } else {
        limit
    }
}

/// One entry or none.
pub open spec fn entry_if(
    present: bool,
    key: Seq<char>,
    value: JsonTree,
) -> Seq<(Seq<char>, JsonTree)> {
    if present {
        seq![(key, value)]
    } else {
        Seq::empty()
    }
}

/// The body of a chat request. `keep_alive` is sent to Ollama alone,
/// `response_format` in JSON mode alone, and a cap only where there is one.
pub open spec fn chat_body(
    model: Seq<char>,
    messages: Seq<MessageView>,
    opts: ChatOpts,
    is_ollama: bool,
) -> JsonTree {
    JsonTree::Object(
        seq![
            ("model"@, JsonTree::Str(model)),
            ("messages"@, JsonTree::Array(messages.map_values(|m: MessageView| message_json(m)))),
            ("temperature"@, decimal_number(opts.temperature)),
        ] + entry_if(is_ollama, "keep_alive"@, JsonTree::Str("10m"@)) + entry_if(
            opts.json_mode,
            "response_format"@,
            JsonTree::Object(seq![("type"@, JsonTree::Str("json_object"@))]),
        ) + (match opts.max_tokens {
            Some(limit) => seq![
                ("max_tokens"@, integer(adjusted_limit(limit, is_ollama, model) as u64)),
            ],
            None => Seq::empty(),
        }),
    )
}

fn message_to_json(m: &Message) -> (r: Json)
    ensures
        r@ == message_json(m@),
{
    let mut b = ObjectBuilder::new();
    b.entry("role", Json::text(m.role.as_str()));
    b.entry("content", Json::text(m.content.as_str()));
    let r = b.finish();
    assert(r@->Object_0 =~= message_json(m@)->Object_0);
    r
}

/// The body of a chat request.
pub fn chat_request(model: &str, messages: &Vec<Message>, opts: ChatOpts, is_ollama: bool) -> (r:
    Json)
    ensures
        r@ == chat_body(model@, message_views(messages@), opts, is_ollama),
{
    let mut list: Vec<Json> = Vec::new();
    let mut i: usize = 0;
    while i < messages.len()
        invariant
            i <= messages@.len(),
            list@.len() == i,
            forall|k: int| 0 <= k < i ==> (#[trigger] list@[k])@ == message_json(messages@[k]@),
        decreases messages@.len() - i,
    {
        list.push(message_to_json(&messages[i]));
        i = i + 1;
    }
    proof {
        crate::json::lemma_array_tree(list);
        assert(trees(list@) =~= message_views(messages@).map_values(
            |m: MessageView| message_json(m),
        ));
    }
    let mut body = ObjectBuilder::new();
    body.entry("model", Json::text(model));
    body.entry("messages", Json::Array(list));
    body.entry("temperature", json_double(opts.temperature));
    if is_ollama {
        body.entry("keep_alive", Json::text("10m"));
    }
    if opts.json_mode {
        let mut format = ObjectBuilder::new();
        format.entry("type", Json::text("json_object"));
        let format = format.finish();
        assert(format@->Object_0 =~= seq![("type"@, JsonTree::Str("json_object"@))]);
        body.entry("response_format", format);
    }
    match opts.max_tokens {
        Some(limit) => {
            let adjusted: u32 = if !is_ollama && model_is_thinking(model) && limit
                < THINKING_TOKENS {
                THINKING_TOKENS
            } else {
                limit
            };
            body.entry("max_tokens", json_integer(adjusted as u64));
        },
        None => {},
    }
    let r = body.finish();
    assert(r@->Object_0 =~= chat_body(
        model@,
        message_views(messages@),
        opts,
        is_ollama,
    )->Object_0);
    r
}

/// The first choice of a completion.
pub open spec fn first_choice(resp: JsonTree) -> JsonTree {
    resp.at("choices"@).nth(0)
}

/// The role of a completion's message.
pub open spec fn reply_role(resp: JsonTree) -> Seq<char> {
    match first_choice(resp).at("message"@).str_at("role"@) {
        Some(s) => s,
        None => "assistant"@,
    }
}

/// Reads the reply to a chat request.
pub fn chat_response(resp: &Json) -> (r: ChatResponse)
    ensures
        r.message@ == (MessageView {
            role: reply_role(resp@),
            content: choice_text(first_choice(resp@)),
        }),
{
    let null = Json::Null;
    let choice = match resp.get("choices") {
        Some(v) => match v.as_array() {
            Some(items) => if items.len() > 0 {
                &items[0]
            } else {
                &null
            },
            None => &null,
        },
        None => &null,
    };
    assert(choice@ == first_choice(resp@));
    let role = match choice.get("message") {
        Some(m) => match m.str_at("role") {
            Some(s) => s.to_owned(),
            None => "assistant".to_owned(),
        },
        None => "assistant".to_owned(),
    };
    let content = coerce_message_from_openai_choice(choice);
    ChatResponse { message: Message { role, content } }
}

// Embeddings -------------------------------------------------------------

/// The components of a vector; what is no number counts as zero.
pub open spec fn components(items: Seq<JsonTree>) -> Seq<Double> {
    items.map_values(
        |t: JsonTree|
            match t.as_double() {
                Some(d) => d,
                None => Double { bits: ZERO_BITS },
            },
    )
}

fn read_components(items: &Vec<Json>) -> (r: Vec<Double>)
    ensures
        r@ == components(trees(items@)),
{
    let mut out: Vec<Double> = Vec::new();
    let mut i: usize = 0;
    while i < items.len()
        invariant
            i <= items@.len(),
            out@ == components(trees(items@)).take(i as int),
        decreases items@.len() - i,
    {
        let x = match items[i].as_double() {
            Some(d) => d,
            None => Double { bits: ZERO_BITS },
        };
        assert(trees(items@)[i as int] == items@[i as int]@);
        out.push(x);
        assert(out@ =~= components(trees(items@)).take(i + 1));
        i = i + 1;
    }
    assert(out@ =~= components(trees(items@)));
    out
}

/// The body of an embedding request for one text.
pub fn embed_request(model: &str, input: &str) -> (r: Json)
    ensures
        r@ == JsonTree::Object(
            seq![("model"@, JsonTree::Str(model@)), ("input"@, JsonTree::Str(input@))],
        ),
{
    let mut body = ObjectBuilder::new();
    body.entry("model", Json::text(model));
    body.entry("input", Json::text(input));
    let r = body.finish();
    assert(r@->Object_0 =~= seq![
        ("model"@, JsonTree::Str(model@)),
        ("input"@, JsonTree::Str(input@)),
    ]);
    r
}

/// Reads the vector from the reply to an embedding request for one text.
pub fn embed(resp: &Json) -> (r: Result<Vec<Double>, String>)
    ensures
        match (r, resp@.at("data"@).nth(0).at("embedding"@).as_array()) {
            (Ok(v), Some(items)) => v@ == components(items),
            (Err(m), None) => m@ == "Invalid embedding response format"@,
            _ => false,
        },
{
    match resp.get("data") {
        Some(data) => match data.as_array() {
            Some(items) => {
                if items.len() > 0 {
                    match items[0].get("embedding") {
                        Some(e) => match e.as_array() {
                            Some(v) => {
                                return Ok(read_components(v));
                            },
                            None => {},
                        },
                        None => {},
                    }
                }
            },
            None => {},
        },
        None => {},
    }
    Err("Invalid embedding response format".to_owned())
}

/// The body of an embedding request for several texts. For no texts there is no
/// request.
pub fn embed_many_request(model: &str, inputs: &Vec<String>) -> (r: Option<Json>)
    ensures
        match r {
            None => inputs@.len() == 0,
            Some(body) => inputs@.len() > 0 && body@ == JsonTree::Object(
                seq![
                    ("model"@, JsonTree::Str(model@)),
                    ("input"@, crate::json::text_array(texts(inputs@))),
                ],
            ),
        },
{
    if inputs.len() == 0 {
        return None;
    }
    let mut body = ObjectBuilder::new();
    body.entry("model", Json::text(model));
    body.entry("input", crate::json::json_texts(inputs));
    let r = body.finish();
    assert(r@->Object_0 =~= seq![
        ("model"@, JsonTree::Str(model@)),
        ("input"@, crate::json::text_array(texts(inputs@))),
    ]);
    Some(r)
}

/// What the reply to an embedding request for several texts amounts to.
pub open spec fn batch_outcome(resp: JsonTree) -> Result<Seq<Seq<Double>>, Seq<char>> {
    match resp.at("data"@).as_array() {
        Some(data) => if forall|i: int|
            0 <= i < data.len() ==> (#[trigger] data[i]).at("embedding"@) is Array {
            Ok(data.map_values(|t: JsonTree| components(t.at("embedding"@)->Array_0)))
        } else {
            Err("Missing embedding in batch response"@)
        },
        None => Err("Invalid batch embedding response"@),
    }
}

/// The contents of a list of vectors.
pub open spec fn vectors(v: Seq<Vec<Double>>) -> Seq<Seq<Double>> {
    v.map_values(|x: Vec<Double>| x@)
}

/// Reads the vectors from the reply to an embedding request for several texts,
/// in the order of the texts.
pub fn embed_many(resp: &Json) -> (r: Result<Vec<Vec<Double>>, String>)
    ensures
        match r {
            Ok(v) => batch_outcome(resp@) == Ok::<Seq<Seq<Double>>, Seq<char>>(vectors(v@)),
            Err(m) => batch_outcome(resp@) == Err::<Seq<Seq<Double>>, Seq<char>>(m@),
        },
{
    let data = match resp.get("data") {
        Some(d) => match d.as_array() {
            Some(items) => items,
            None => {
                return Err("Invalid batch embedding response".to_owned());
            },
        },
        None => {
            return Err("Invalid batch embedding response".to_owned());
        },
    };
    let ghost all = trees(data@);
    let mut out: Vec<Vec<Double>> = Vec::new();
    let mut i: usize = 0;
    while i < data.len()
        invariant
            i <= data@.len(),
            all == trees(data@),
            resp@.at("data"@).as_array() == Some(all),
            out@.len() == i,
            forall|k: int|
                0 <= k < i ==> (#[trigger] all[k]).at("embedding"@) is Array && out@[k]@
                    == components(all[k].at("embedding"@)->Array_0),
        decreases data@.len() - i,
    {
        assert(all[i as int] == data@[i as int]@);
        let found = match data[i].get("embedding") {
            Some(e) => e.as_array(),
            None => None,
        };
        match found {
            Some(items) => {
                out.push(read_components(items));
            },
            None => {
                assert(!(all[i as int].at("embedding"@) is Array));
                return Err("Missing embedding in batch response".to_owned());
            },
        }
        i = i + 1;
    }
    assert(vectors(out@) =~= all.map_values(
        |t: JsonTree| components(t.at("embedding"@)->Array_0),
    ));
    Ok(out)
}

// The list of models -----------------------------------------------------

/// The names in a list of models; an entry without a name is passed over.
pub open spec fn model_ids(data: Seq<JsonTree>) -> Seq<Seq<char>>
    decreases data.len(),
{
    if data.len() == 0 {
        Seq::empty()
    } else {
        let before = model_ids(data.drop_last());
        match data.last().str_at("id"@) {
            Some(s) => before.push(s),
            None => before,
        }
    }
}

/// What the reply to a request for the list of models amounts to, given what was
/// read of its body.
pub open spec fn models_read(
    url: Seq<char>,
    body: Seq<char>,
    read: Result<JsonTree, Seq<char>>,
) -> Result<Seq<Seq<char>>, Seq<char>> {
    match read {
        Err(m) => Err(
            "non-JSON response from "@ + url + ": "@ + m + " (body: "@ + snippet(body, 200) + ")"@,
        ),
        Ok(v) => match v.at("data"@).as_array() {
            None => Err(
                "unexpected models response shape (no `data` array): "@ + snippet(body, 200),
            ),
            Some(data) => Ok(model_ids(data)),
        },
    }
}

/// What the reply to a request for the list of models amounts to.
pub open spec fn models_outcome(
    url: Seq<char>,
    success: bool,
    status: Seq<char>,
    body: Seq<char>,
) -> Result<Seq<Seq<char>>, Seq<char>> {
    if !success {
        Err("HTTP "@ + status + " from "@ + url + ": "@ + snippet(body, 300))
    } else {
        models_read(url, body, json_of_text(body))
    }
}

fn read_model_ids(data: &Vec<Json>) -> (r: Vec<String>)
    ensures
        texts(r@) == model_ids(trees(data@)),
{
    let ghost all = trees(data@);
    let mut out: Vec<String> = Vec::new();
    let mut i: usize = 0;
    assert(all.take(0) =~= Seq::empty());
    assert(texts(out@) =~= Seq::empty());
    while i < data.len()
        invariant
            i <= data@.len(),
            all == trees(data@),
            texts(out@) == model_ids(all.take(i as int)),
        decreases data@.len() - i,
    {
        let ghost next = all.take(i + 1);
        assert(next.drop_last() =~= all.take(i as int));
        assert(next.last() == data@[i as int]@);
        match data[i].str_at("id") {
            Some(s) => {
                let id = s.to_owned();
                proof {
                    crate::text::lemma_texts_push(out@, id);
                }
                out.push(id);
            },
            None => {},
        }
        i = i + 1;
    }
    assert(all.take(i as int) =~= all);
    out
}

/// The contents of a listing.
pub open spec fn listing(r: Result<Vec<String>, String>) -> Result<Seq<Seq<char>>, Seq<char>> {
    match r {
        Ok(v) => Ok(texts(v@)),
        Err(m) => Err(m@),
    }
}

/// Goes on with what was read of the body that the endpoint at `url` sent as the
/// list of its models.
pub fn after_reading_models(url: &str, body: &str, read: Result<Json, String>) -> (r: Result<
    Vec<String>,
    String,
>)
    ensures
        listing(r) == models_read(url@, body@, read_view(read)),
{
    let v = match read {
        Ok(v) => v,
        Err(e) => {
            let mut m = "non-JSON response from ".to_owned();
            m.append(url);
            m.append(": ");
            m.append(e.as_str());
            m.append(" (body: ");
            m.append(first_chars(body, 200).as_str());
            m.append(")");
            return Err(m);
        },
    };
    let found = match v.get("data") {
        Some(d) => d.as_array(),
        None => None,
    };
    match found {
        Some(data) => Ok(read_model_ids(data)),
        None => {
            let mut m = "unexpected models response shape (no `data` array): ".to_owned();
            m.append(first_chars(body, 200).as_str());
            Err(m)
        },
    }
}

/// Reads the reply of the endpoint at `url` to a request for its list of models.
pub fn list_models(url: &str, success: bool, status: &str, body: &str) -> (r: Result<
    Vec<String>,
    String,
>)
    ensures
        listing(r) == models_outcome(url@, success, status@, body@),
{
    if !success {
        let mut m = "HTTP ".to_owned();
        m.append(status);
        m.append(" from ");
        m.append(url);
        m.append(": ");
        m.append(first_chars(body, 300).as_str());
        return Err(m);
    }
    after_reading_models(url, body, parse(body))
}

/// The message for an endpoint that cannot be reached.
pub fn network_error(url: &str, cause: &str) -> (r: String)
    ensures
        r@ == "network error reaching "@ + url@ + ": "@ + cause@,
{
    let mut m = "network error reaching ".to_owned();
    m.append(url);
    m.append(": ");
    m.append(cause);
    m
}

// Laws -------------------------------------------------------------------

/// An endpoint looks like Ollama wherever its address names the own machine or the
/// port.
pub proof fn local_endpoints_look_like_ollama(a: Seq<char>, b: Seq<char>)
    ensures
        looks_like_ollama(a + "localhost"@ + b),
        looks_like_ollama(a + "127.0.0.1"@ + b),
        looks_like_ollama(a + ":11434"@ + b),
{
    lemma_occurs_between(a, "localhost"@, b);
    lemma_occurs_between(a, "127.0.0.1"@, b);
    lemma_occurs_between(a, ":11434"@, b);
}

proof fn lemma_occurs_between(a: Seq<char>, p: Seq<char>, b: Seq<char>)
    ensures
        occurs(a + p + b, p),
        occurs_at(p + b, p, 0),
{
    let s = a + p + b;
    assert(s.subrange(a.len() as int, (a.len() + p.len()) as int) =~= p);
    assert(occurs_at(s, p, a.len() as int));
    assert((p + b).subrange(0, p.len() as int) =~= p);
}

/// A model is said to think if its name tells so anywhere, or if it begins as those do
/// that are known to.
pub proof fn thinking_models_are_known(a: Seq<char>, b: Seq<char>)
    ensures
        names_thinking_model(a + "thinking"@ + b),
        names_thinking_model(a + "reasoning"@ + b),
        names_thinking_model("gemini-2.5-pro"@ + b),
        names_thinking_model("o1"@),
        names_thinking_model("o3"@),
        names_thinking_model("o4"@),
        names_thinking_model("o1-"@ + b),
        names_thinking_model("o3-"@ + b),
        names_thinking_model("o4-"@ + b),
{
    lemma_occurs_between(a, "thinking"@, b);
    lemma_occurs_between(a, "reasoning"@, b);
    lemma_occurs_between(a, "gemini-2.5-pro"@, b);
    lemma_occurs_between(a, "o1-"@, b);
    lemma_occurs_between(a, "o3-"@, b);
    lemma_occurs_between(a, "o4-"@, b);
}

/// A model that thinks may answer in 8000 tokens at least, unless the endpoint looks
/// like Ollama; every other limit stays as it is.
pub proof fn thinking_models_have_room(limit: u32, is_ollama: bool, model: Seq<char>)
    ensures
        adjusted_limit(limit, is_ollama, model) >= limit,
        adjusted_limit(limit, is_ollama, model) == limit || adjusted_limit(limit, is_ollama, model)
            == 8000,
        !is_ollama && names_thinking_model(plain_model_name(model)) ==> adjusted_limit(
            limit,
            is_ollama,
            model,
        ) >= 8000,
        is_ollama || !names_thinking_model(plain_model_name(model)) ==> adjusted_limit(
            limit,
            is_ollama,
            model,
        ) == limit,
{
}

/// The components of an embedding are the numbers that are listed, and nought for what
/// is none.
pub proof fn every_component_is_read(items: Seq<JsonTree>, i: int)
    requires
        0 <= i < items.len(),
    ensures
        components(items).len() == items.len(),
        items[i] matches JsonTree::Number(n) ==> components(items)[i] == n.double,
        !(items[i] is Number) ==> components(items)[i].bits == 0,
{
}

/// A chat request has the model, every message in order with its role and its content,
/// and the temperature; it keeps the model loaded exactly if the endpoint looks like
/// Ollama, asks for an object exactly in JSON mode, and has a limit if one is given.
pub proof fn chat_requests_say_what_is_asked(
    model: Seq<char>,
    messages: Seq<MessageView>,
    opts: ChatOpts,
    is_ollama: bool,
)
    ensures
        ({
            let body = chat_body(model, messages, opts, is_ollama);
            &&& body.at("model"@) == JsonTree::Str(model)
            &&& body.at("messages"@) matches JsonTree::Array(items) && items.len()
                == messages.len() && forall|i: int|
                0 <= i < items.len() ==> (#[trigger] items[i]).at("role"@) == JsonTree::Str(
                    messages[i].role,
                ) && items[i].at("content"@) == JsonTree::Str(messages[i].content)
            &&& body.at("temperature"@) == decimal_number(opts.temperature)
            &&& is_ollama ==> body.at("keep_alive"@) == JsonTree::Str("10m"@)
            &&& !is_ollama ==> body.get("keep_alive"@) is None
            &&& opts.json_mode ==> body.at("response_format"@).at("type"@) == JsonTree::Str(
                "json_object"@,
            )
            &&& !opts.json_mode ==> body.get("response_format"@) is None
            &&& opts.max_tokens matches Some(limit) ==> body.at("max_tokens"@) == integer(
                adjusted_limit(limit, is_ollama, model) as u64,
            )
            &&& opts.max_tokens is None ==> body.get("max_tokens"@) is None
        }),
{
    lemma_request_keys();
    let entries = chat_body(model, messages, opts, is_ollama)->Object_0;
    crate::json::the_first_entry_counts(entries, "model"@);
    crate::json::the_first_entry_counts(entries, "messages"@);
    crate::json::the_first_entry_counts(entries, "temperature"@);
    crate::json::the_first_entry_counts(entries, "keep_alive"@);
    crate::json::the_first_entry_counts(entries, "response_format"@);
    crate::json::the_first_entry_counts(entries, "max_tokens"@);
    assert(entries[0].0 == "model"@ && entries[1].0 == "messages"@ && entries[2].0
        == "temperature"@);
    if is_ollama {
        assert(entries[3].0 == "keep_alive"@);
    }
    let n: int = if is_ollama {
        4
    } else {
        3
    };
    if opts.json_mode {
        assert(entries[n].0 == "response_format"@);
    }
    let m: int = if opts.json_mode {
        n + 1
    } else {
        n
    };
    if opts.max_tokens is Some {
        assert(entries[m].0 == "max_tokens"@);
    }
    let items = messages.map_values(|m: MessageView| message_json(m));
    assert forall|i: int| 0 <= i < items.len() implies (#[trigger] items[i]).at("role"@)
        == JsonTree::Str(messages[i].role) && items[i].at("content"@) == JsonTree::Str(
        messages[i].content,
    ) by {
        let pair = message_json(messages[i])->Object_0;
        crate::json::the_first_entry_counts(pair, "role"@);
        crate::json::the_first_entry_counts(pair, "content"@);
        assert(pair[0].0 == "role"@ && pair[1].0 == "content"@);
    }
    let object = seq![("type"@, JsonTree::Str("json_object"@))];
    crate::json::the_first_entry_counts(object, "type"@);
    assert(object[0].0 == "type"@);
}

proof fn lemma_request_keys()
    ensures
        "model"@ != "messages"@ && "model"@ != "temperature"@ && "model"@ != "keep_alive"@
            && "model"@ != "response_format"@ && "model"@ != "max_tokens"@,
        "messages"@ != "temperature"@ && "messages"@ != "keep_alive"@ && "messages"@
            != "response_format"@ && "messages"@ != "max_tokens"@,
        "temperature"@ != "keep_alive"@ && "temperature"@ != "response_format"@ && "temperature"@
            != "max_tokens"@,
        "keep_alive"@ != "response_format"@ && "keep_alive"@ != "max_tokens"@,
        "response_format"@ != "max_tokens"@,
        "role"@ != "content"@,
{
    reveal_strlit("model");
    reveal_strlit("messages");
    reveal_strlit("temperature");
    reveal_strlit("keep_alive");
    reveal_strlit("response_format");
    reveal_strlit("max_tokens");
    reveal_strlit("role");
    reveal_strlit("content");
    assert("model"@[1] == 'o' && "messages"@[1] == 'e' && "max_tokens"@[1] == 'a');
    assert("model"@[0] == 'm' && "messages"@[0] == 'm' && "max_tokens"@[0] == 'm');
    assert("temperature"@[0] == 't' && "keep_alive"@[0] == 'k' && "response_format"@[0] == 'r');
    assert("role"@[0] == 'r' && "content"@[0] == 'c');
}

/// A reply is read from its first choice; where that does not tell who speaks, it is
/// the assistant.
pub proof fn replies_are_read_from_the_first_choice(resp: JsonTree, choices: Seq<JsonTree>)
    requires
        resp.at("choices"@) == JsonTree::Array(choices),
    ensures
        choices.len() > 0 ==> first_choice(resp) == choices[0],
        choices.len() == 0 ==> first_choice(resp) is Null,
        first_choice(resp).at("message"@).at("role"@) matches JsonTree::Str(s) ==> reply_role(resp)
            == s,
        !(first_choice(resp).at("message"@).at("role"@) is Str) ==> reply_role(resp)
            == "assistant"@,
{
}

/// A batch of embeddings is read whole: each in its place, or none where one is
/// missing.
pub proof fn batches_are_read_whole(resp: JsonTree, data: Seq<JsonTree>, i: int)
    requires
        resp.at("data"@) == JsonTree::Array(data),
        0 <= i < data.len(),
    ensures
        !(data[i].at("embedding"@) is Array) ==> batch_outcome(resp) is Err,
        batch_outcome(resp) matches Ok(v) ==> v.len() == data.len() && v[i] == components(
            data[i].at("embedding"@)->Array_0,
        ),
{
}

} // verus!
