//! What a model is asked when a conversation is extracted, and what is made of
//! its answers.

use super::repair::{candidates, first_json, no_json_message, parse_json_response};
use crate::double::Double;
use crate::json::{Json, JsonTree};
use crate::llm::openai::{first_chars, read_view, snippet};
use crate::llm::ChatOpts;
use crate::text::{
    byte_len, byte_prefix, bytes_of, chars, decimal, join, joined, occurs, occurs_at,
    prefix_bytes, print_decimal, replace, replaced, string_of, texts,
};
use vstd::prelude::*;

verus! {

// Summaries --------------------------------------------------------------

/// The temperature 0.1 of a chat, as a single-precision number.
pub const LOW_TEMPERATURE: u64 = 0x3FB9_9999_A000_0000;

/// The temperature 0.2 of a chat, as a single-precision number.
pub const MILD_TEMPERATURE: u64 = 0x3FC9_9999_A000_0000;

/// How a chunk is summarised.
pub fn map_opts() -> (r: ChatOpts)
    ensures
        r == (ChatOpts {
            temperature: Double { bits: 0x3FB9_9999_A000_0000 },
            json_mode: false,
            max_tokens: Some(300),
        }),
{
    ChatOpts {
        temperature: Double { bits: LOW_TEMPERATURE },
        json_mode: false,
        max_tokens: Some(300),
    }
}

/// How the graph is extracted.
pub fn reduce_opts() -> (r: ChatOpts)
    ensures
        r == (ChatOpts {
            temperature: Double { bits: 0x3FC9_9999_A000_0000 },
            json_mode: true,
            max_tokens: Some(6000),
        }),
{
    ChatOpts {
        temperature: Double { bits: MILD_TEMPERATURE },
        json_mode: true,
        max_tokens: Some(6000),
    }
}

/// The question that has a chunk summarised.
pub open spec fn chunk_question(chunk: Seq<char>) -> Seq<char> {
    "Summarize the core concepts, topics, and entities in this conversation snippet.\n\nRULES:\n- Output EXACTLY 3-5 bullet points. No prose.\n- Keep the [msg_id] tags next to each concept so citations survive.\n\nSNIPPET:\n"@
        + chunk
}

/// The question that has a chunk summarised.
pub fn map_prompt(chunk: &str) -> (r: String)
    ensures
        r@ == chunk_question(chunk@),
{
    let mut out =
        "Summarize the core concepts, topics, and entities in this conversation snippet.\n\nRULES:\n- Output EXACTLY 3-5 bullet points. No prose.\n- Keep the [msg_id] tags next to each concept so citations survive.\n\nSNIPPET:\n".to_owned();
    out.append(chunk);
    out
}

/// The summaries of the chunks as the model is shown them.
pub fn map_reduce_summary(summaries: &Vec<String>) -> (r: String)
    ensures
        r@ == joined(texts(summaries@), "\n\n---\n\n"@),
{
    join(summaries, "\n\n---\n\n")
}

/// The longest summary that the model is shown, in bytes.
pub const MAX_SUMMARY: usize = 15000;

/// The part of a summary that the model is shown.
pub open spec fn limited(summary: Seq<char>) -> Seq<char> {
    if bytes_of(summary) > MAX_SUMMARY {
        byte_prefix(summary, MAX_SUMMARY as nat)
            + "\n... [Snippet Truncated to 15000 Chars Limit]"@
    } else {
        summary
    }
}

/// The part of a summary that the model is shown.
pub fn limit_summary(summary: String) -> (r: String)
    ensures
        r@ == limited(summary@),
{
    if byte_len(summary.as_str()) > MAX_SUMMARY {
        let mut out = prefix_bytes(summary.as_str(), MAX_SUMMARY);
        out.append("\n... [Snippet Truncated to 15000 Chars Limit]");
        out
    } else {
        summary
    }
}

// The question -----------------------------------------------------------

/// The question that is asked where the workspace has none of its own.
pub open spec fn standard_prompt(
    title: Seq<char>,
    created: Seq<char>,
    messages: Seq<char>,
) -> Seq<char> {
    "Extract a knowledge graph from this conversation as JSON.\n\nFields:\n- topics: 1-3 high-level subjects. lowercase-kebab names.\n- entities: named things (person|tool|org|book|tech|place).\n- concepts: atomic ideas worth remembering. max 15.\n- prompt_patterns: reusable question framings. max 3.\n\nOnly include items DISCUSSED substantively. Confidence 0.9+=defined, 0.6-0.85=mentioned, <0.6=uncertain. Cite 1-3 message_ids each.\n\nTitle: "@
        + title + "\nDate: "@ + created + "\nMessages:\n"@ + messages
        + "\n\nJSON only, no prose:\n{\"topics\":[{\"name\":\"\",\"confidence\":0.0,\"message_ids\":[]}],\"entities\":[{\"name\":\"\",\"type\":\"\",\"description\":\"\",\"confidence\":0.0,\"message_ids\":[]}],\"concepts\":[{\"name\":\"\",\"description\":\"\",\"confidence\":0.0,\"message_ids\":[]}],\"prompt_patterns\":[{\"name\":\"\",\"description\":\"\",\"confidence\":0.0,\"message_ids\":[]}]}"@
}

/// The question that is asked where the workspace has none of its own.
pub fn default_extraction_prompt(title: &str, created: &str, messages: &str) -> (r: String)
    ensures
        r@ == standard_prompt(title@, created@, messages@),
{
    let mut out =
        "Extract a knowledge graph from this conversation as JSON.\n\nFields:\n- topics: 1-3 high-level subjects. lowercase-kebab names.\n- entities: named things (person|tool|org|book|tech|place).\n- concepts: atomic ideas worth remembering. max 15.\n- prompt_patterns: reusable question framings. max 3.\n\nOnly include items DISCUSSED substantively. Confidence 0.9+=defined, 0.6-0.85=mentioned, <0.6=uncertain. Cite 1-3 message_ids each.\n\nTitle: ".to_owned();
    out.append(title);
    out.append("\nDate: ");
    out.append(created);
    out.append("\nMessages:\n");
    out.append(messages);
    out.append(
        "\n\nJSON only, no prose:\n{\"topics\":[{\"name\":\"\",\"confidence\":0.0,\"message_ids\":[]}],\"entities\":[{\"name\":\"\",\"type\":\"\",\"description\":\"\",\"confidence\":0.0,\"message_ids\":[]}],\"concepts\":[{\"name\":\"\",\"description\":\"\",\"confidence\":0.0,\"message_ids\":[]}],\"prompt_patterns\":[{\"name\":\"\",\"description\":\"\",\"confidence\":0.0,\"message_ids\":[]}]}",
    );
    out
}

/// The question that is asked: the template of the workspace with its marks
/// filled in, one after the other, or else the standard one.
pub open spec fn extraction_prompt(
    body: Option<Seq<char>>,
    title: Seq<char>,
    created: Seq<char>,
    messages: Seq<char>,
) -> Seq<char> {
    match body {
        Some(b) => replaced(
            replaced(replaced(b, "{{title}}"@, title), "{{created}}"@, created),
            "{{messages_with_ids}}"@,
            messages,
        ),
        None => standard_prompt(title, created, messages),
    }
}

/// The question that is asked.
pub fn fill_prompt(body: Option<&str>, title: &str, created: &str, messages: &str) -> (r: String)
    ensures
        r@ == extraction_prompt(
            match body {
                Some(b) => Some(b@),
                None => None,
            },
            title@,
            created@,
            messages@,
        ),
{
    match body {
        Some(b) => {
            proof {
                reveal_strlit("{{title}}");
                reveal_strlit("{{created}}");
                reveal_strlit("{{messages_with_ids}}");
            }
            let with_title = replace(b, "{{title}}", title);
            let with_date = replace(with_title.as_str(), "{{created}}", created);
            replace(with_date.as_str(), "{{messages_with_ids}}", messages)
        },
        None => default_extraction_prompt(title, created, messages),
    }
}

// The answers ------------------------------------------------------------

/// How often the model is asked for JSON.
pub const REDUCE_ATTEMPTS: usize = 3;

/// The question in an attempt, counted from zero: from the second on it insists
/// on JSON.
pub open spec fn attempt_prompt(prompt: Seq<char>, attempt: usize) -> Seq<char> {
    if attempt == 0 {
        prompt
    } else {
        prompt + "\n\nReturn ONLY valid JSON, no prose, no markdown."@
    }
}

/// The question in an attempt.
pub fn reduce_prompt(prompt: &str, attempt: usize) -> (r: String)
    ensures
        r@ == attempt_prompt(prompt@, attempt),
{
    let mut out = prompt.to_owned();
    if attempt > 0 {
        out.append("\n\nReturn ONLY valid JSON, no prose, no markdown.");
    }
    out
}

/// The last `n` characters.
pub open spec fn tail(s: Seq<char>, n: int) -> Seq<char> {
    if s.len() <= n {
        s
    } else {
        s.skip(s.len() - n)
    }
}

fn last_chars(s: &str, n: usize) -> (r: String)
    ensures
        r@ == tail(s@, n as int),
{
    let v = chars(s);
    let from: usize = if v.len() <= n {
        0
    } else {
        v.len() - n
    };
    let out = string_of(&v, from, v.len());
    assert(out@ =~= tail(s@, n as int));
    out
}

/// The text in quotes with its special characters escaped, as `Debug` prints it.
pub uninterp spec fn debug_quoted(s: Seq<char>) -> Seq<char>;

/// The `Debug` form of a `str`, as `format!` prints it. The result depends on
/// the text alone; which characters are escaped, and how, is left unsaid.
#[verifier::external_body]
fn quote(s: &str) -> (r: String)
    ensures
        r@ == debug_quoted(s@),
{
    format!("{:?}", s)
}

/// The message for a model that gave no JSON in any attempt: the last answer's
/// length, start and end are told.
pub open spec fn no_json_after_attempts(error: Seq<char>, answer: Seq<char>) -> Seq<char> {
    "LLM did not return valid JSON after 3 attempts: "@ + error + " (response_len="@ + decimal(
        bytes_of(answer),
    ) + ", prefix="@ + debug_quoted(snippet(answer, 200)) + ", suffix="@ + debug_quoted(
        tail(answer, 200),
    ) + ")"@
}

/// What follows an answer.
#[derive(Debug)]
pub enum ReduceStep {
    /// The answer held JSON.
    Parsed(Json),
    /// It did not: ask again.
    Again,
    /// It did not, and it was the last.
    Failed(String),
}

/// What follows, stated over contents.
pub ghost enum ReduceView {
    Parsed(JsonTree),
    Again,
    Failed(Seq<char>),
}

impl View for ReduceStep {
    type V = ReduceView;

    open spec fn view(&self) -> ReduceView {
        match self {
            ReduceStep::Parsed(v) => ReduceView::Parsed(v@),
            ReduceStep::Again => ReduceView::Again,
            ReduceStep::Failed(m) => ReduceView::Failed(m@),
        }
    }
}

/// What follows the answer in an attempt, given what was read from it.
pub open spec fn reduce_outcome(
    attempt: usize,
    answer: Seq<char>,
    read: Result<JsonTree, Seq<char>>,
) -> ReduceView {
    match read {
        Ok(v) => ReduceView::Parsed(v),
        Err(m) => if attempt + 1 < REDUCE_ATTEMPTS {
            ReduceView::Again
        } else {
            ReduceView::Failed(no_json_after_attempts(m, answer))
        },
    }
}

/// What follows the answer in an attempt, given what was read from it.
pub fn after_answer(attempt: usize, answer: &str, read: Result<Json, String>) -> (r: ReduceStep)
    ensures
        r@ == reduce_outcome(attempt, answer@, read_view(read)),
{
    match read {
        Ok(v) => ReduceStep::Parsed(v),
        Err(e) => {
            if attempt < REDUCE_ATTEMPTS - 1 {
                return ReduceStep::Again;
            }
            let mut m = "LLM did not return valid JSON after 3 attempts: ".to_owned();
            m.append(e.as_str());
            m.append(" (response_len=");
            m.append(print_decimal(byte_len(answer) as u64).as_str());
            m.append(", prefix=");
            m.append(quote(first_chars(answer, 200).as_str()).as_str());
            m.append(", suffix=");
            m.append(quote(last_chars(answer, 200).as_str()).as_str());
            m.append(")");
            ReduceStep::Failed(m)
        },
    }
}

/// The JSON that a text holds, or the message that it holds none.
pub open spec fn json_held(text: Seq<char>) -> Result<JsonTree, Seq<char>> {
    match first_json(candidates(text)) {
        Some(v) => Ok(v),
        None => Err(no_json_message()),
    }
}

/// What follows the answer in an attempt.
pub fn reduce_answer(attempt: usize, answer: &str) -> (r: ReduceStep)
    ensures
        r@ == reduce_outcome(attempt, answer@, json_held(answer@)),
{
    after_answer(attempt, answer, parse_json_response(answer))
}

/// The model is asked again exactly while fewer than three answers have come
/// without JSON; an answer with JSON is always taken.
pub proof fn answers_are_asked_for_three_times(
    attempt: usize,
    answer: Seq<char>,
    read: Result<JsonTree, Seq<char>>,
)
    ensures
        read is Ok <==> reduce_outcome(attempt, answer, read) is Parsed,
        read is Err ==> (reduce_outcome(attempt, answer, read) is Again <==> attempt + 1 < 3),
        read matches Ok(v) ==> reduce_outcome(attempt, answer, read) == ReduceView::Parsed(v),
{
}

/// A summary of no more than 15000 bytes is shown whole; of a longer one the
/// beginning is, no more than 15000 bytes of it, and then that it was cut.
pub proof fn long_summaries_are_cut(summary: Seq<char>)
    ensures
        bytes_of(summary) <= 15000 ==> limited(summary) == summary,
        bytes_of(summary) > 15000 ==> limited(summary) == byte_prefix(summary, 15000)
            + "\n... [Snippet Truncated to 15000 Chars Limit]"@,
{
}

/// The first time the question is asked as it is, and every other time with the
/// same reminder behind it.
pub proof fn questions_are_repeated_with_a_reminder(prompt: Seq<char>, attempt: usize, later: usize)
    ensures
        attempt_prompt(prompt, 0) == prompt,
        attempt > 0 ==> attempt_prompt(prompt, attempt) == prompt
            + "\n\nReturn ONLY valid JSON, no prose, no markdown."@,
        attempt > 0 && later > 0 ==> attempt_prompt(prompt, attempt) == attempt_prompt(
            prompt,
            later,
        ),
{
}

/// The standard question tells the title, the day and the messages; a question of the
/// workspace's own has them where it asks for them.
pub proof fn questions_tell_of_the_conversation(
    body: Seq<char>,
    title: Seq<char>,
    created: Seq<char>,
    messages: Seq<char>,
)
    ensures
        occurs(extraction_prompt(None, title, created, messages), title),
        occurs(extraction_prompt(None, title, created, messages), created),
        occurs(extraction_prompt(None, title, created, messages), messages),
        extraction_prompt(Some(body), title, created, messages) == replaced(
            replaced(replaced(body, "{{title}}"@, title), "{{created}}"@, created),
            "{{messages_with_ids}}"@,
            messages,
        ),
{
    assert forall|s: Seq<char>, r: Seq<char>, p: Seq<char>|
        occurs(s, p) || r == p implies #[trigger] occurs(s + r, p) by {
        if occurs(s, p) {
            let i = choose|i: int| occurs_at(s, p, i);
            assert((s + r).subrange(i, i + p.len()) =~= s.subrange(i, i + p.len()));
            assert(occurs_at(s + r, p, i));
        } else {
            assert((s + r).subrange(s.len() as int, (s.len() + p.len()) as int) =~= p);
            assert(occurs_at(s + r, p, s.len() as int));
        }
    }
}

} // verus!
