//! Answering questions from the archive.

use crate::archive::{text_in, unpack_text};
use crate::double::Double;
use crate::graph::{at_most, GraphData, ShownGraph, ShownLink, ShownNode};
use crate::ingest::prompt::MILD_TEMPERATURE;
use crate::llm::ChatOpts;
use crate::search::joined_by;
use crate::store::{is_conversation, views, NodeRow, NodeView, Store};
use crate::text::{
    byte_len, byte_prefix, bytes_of, contains_text, decimal, join, joined, occurs, occurs_at,
    prefix_bytes, print_decimal, same, text_opt, texts,
};
use vstd::prelude::*;

verus! {

// The session ------------------------------------------------------------

/// What was said in a turn.
#[derive(Debug)]
pub struct TurnRecord {
    pub role: String,
    pub text: String,
}

/// What a session holds of its past.
#[derive(Debug)]
pub struct SessionState {
    /// The nodes that the user looks at.
    pub active_frame: Vec<String>,
    /// The last turns.
    pub recent_turns: Vec<TurnRecord>,
    /// The turns before, in short.
    pub summary: Option<String>,
}

/// An answer, with the graph that goes with it.
#[derive(Debug)]
pub struct ChatAnswer {
    pub text: String,
    pub graph: GraphData,
}

// Which conversations are read -------------------------------------------

/// How many conversations are read at most.
pub const MAX_CONVERSATIONS: usize = 3;

/// How many messages of each are read at most.
pub const MAX_MESSAGES: usize = 15;

/// The conversations among the shown nodes.
pub open spec fn shown_conversations(nodes: Seq<ShownNode>) -> Seq<Seq<char>>
    decreases nodes.len(),
{
    if nodes.len() == 0 {
        Seq::empty()
    } else {
        let before = shown_conversations(nodes.drop_last());
        if nodes.last().group == "conversation"@ {
            before.push(nodes.last().id)
        } else {
            before
        }
    }
}

/// The conversations from which shown links come, each once.
pub open spec fn linking_conversations(
    links: Seq<ShownLink>,
    nodes: Seq<NodeView>,
) -> Seq<Seq<char>>
    decreases links.len(),
{
    if links.len() == 0 {
        Seq::empty()
    } else {
        let before = linking_conversations(links.drop_last(), nodes);
        let source = links.last().source;
        if is_conversation(nodes, source) {
            joined_by(before, source)
        } else {
            before
        }
    }
}

/// The conversations that are read: those that are shown, or else those from
/// which shown links come.
pub open spec fn read_conversations(g: ShownGraph, nodes: Seq<NodeView>) -> Seq<Seq<char>> {
    let direct = shown_conversations(g.nodes);
    at_most(
        if direct.len() == 0 {
            linking_conversations(g.links, nodes)
        } else {
            direct
        },
        MAX_CONVERSATIONS as int,
    )
}

/// The conversations that are read.
pub fn conversations_to_read(graph: &GraphData, store: &Store) -> (r: Vec<String>)
    ensures
        texts(r@) == read_conversations(graph@, store@.nodes),
        r@.len() <= MAX_CONVERSATIONS,
{
    let ghost nodes = graph@.nodes;
    let ghost links = graph@.links;
    let mut ids: Vec<String> = Vec::new();
    let mut i: usize = 0;
    assert(nodes.take(0) =~= Seq::<ShownNode>::empty());
    assert(texts(ids@) =~= Seq::<Seq<char>>::empty());
    while i < graph.nodes.len()
        invariant
            i <= graph.nodes@.len(),
            nodes == graph@.nodes,
            texts(ids@) == shown_conversations(nodes.take(i as int)),
        decreases graph.nodes@.len() - i,
    {
        assert(nodes.take(i + 1).drop_last() =~= nodes.take(i as int));
        assert(nodes.take(i + 1).last() == graph.nodes@[i as int]@);
        if same(graph.nodes[i].group.as_str(), "conversation") {
            let id = graph.nodes[i].id.clone();
            proof {
                crate::text::lemma_texts_push(ids@, id);
            }
            ids.push(id);
        }
        i = i + 1;
    }
    assert(nodes.take(i as int) =~= nodes);
    assert(texts(ids@).len() == ids@.len());
    if ids.len() == 0 {
        assert(texts(ids@) =~= Seq::<Seq<char>>::empty());
        assert(links.take(0) =~= Seq::<ShownLink>::empty());
        let mut k: usize = 0;
        while k < graph.links.len()
            invariant
                k <= graph.links@.len(),
                links == graph@.links,
                texts(ids@) == linking_conversations(links.take(k as int), store@.nodes),
            decreases graph.links@.len() - k,
        {
            assert(links.take(k + 1).drop_last() =~= links.take(k as int));
            assert(links.take(k + 1).last() == graph.links@[k as int]@);
            if store.contains_conversation(graph.links[k].source.as_str()) && !contains_text(
                &ids,
                graph.links[k].source.as_str(),
            ) {
                let id = graph.links[k].source.clone();
                proof {
                    crate::text::lemma_texts_push(ids@, id);
                }
                ids.push(id);
            }
            k = k + 1;
        }
        assert(links.take(k as int) =~= links);
    }
    let ghost all = texts(ids@);
    assert(all.len() == ids@.len());
    if ids.len() > MAX_CONVERSATIONS {
        ids.truncate(MAX_CONVERSATIONS);
    }
    assert(texts(ids@) =~= at_most(all, MAX_CONVERSATIONS as int));
    ids
}

/// What is done with the graph that a search gave.
#[derive(Debug)]
pub enum AskStep {
    /// There is nothing to read: this is the answer.
    Answer(String),
    /// These conversations are read.
    Read(Vec<String>),
}

/// What is done with the graph that a search gave.
pub fn after_search(graph: &GraphData, store: &Store) -> (r: AskStep)
    ensures
        if graph@.nodes.len() == 0 {
            r matches AskStep::Answer(m) && m@ == "No matches in the archive."@
        } else if read_conversations(graph@, store@.nodes).len() == 0 {
            r matches AskStep::Answer(m) && m@ == "The archive does not show this."@
        } else {
            r matches AskStep::Read(ids) && texts(ids@) == read_conversations(
                graph@,
                store@.nodes,
            ) && ids@.len() <= MAX_CONVERSATIONS
        },
{
    assert(graph@.nodes.len() == graph.nodes@.len());
    if graph.nodes.len() == 0 {
        return AskStep::Answer("No matches in the archive.".to_owned());
    }
    let ids = conversations_to_read(graph, store);
    assert(texts(ids@).len() == ids@.len());
    if ids.len() == 0 {
        AskStep::Answer("The archive does not show this.".to_owned())
    } else {
        AskStep::Read(ids)
    }
}

// The context ------------------------------------------------------------

/// A message as it is stored.
#[derive(Debug)]
pub struct MessageBlob {
    pub message_id: String,
    pub blob: Vec<u8>,
}

/// A message that can be read.
#[derive(Debug)]
pub struct MessageText {
    pub message_id: String,
    pub text: String,
}

/// The messages that can be read, as names and texts.
pub open spec fn readable(v: Seq<MessageBlob>) -> Seq<(Seq<char>, Seq<char>)>
    decreases v.len(),
{
    if v.len() == 0 {
        Seq::empty()
    } else {
        let before = readable(v.drop_last());
        match text_in(v.last().blob@) {
            Some(t) => before.push((v.last().message_id@, t)),
            None => before,
        }
    }
}

/// The contents of readable messages.
pub open spec fn message_pairs(v: Seq<MessageText>) -> Seq<(Seq<char>, Seq<char>)> {
    v.map_values(|m: MessageText| (m.message_id@, m.text@))
}

/// Reads the messages that can be read.
pub fn read_messages(v: &Vec<MessageBlob>) -> (r: Vec<MessageText>)
    ensures
        message_pairs(r@) == readable(v@),
        r@.len() <= v@.len(),
{
    let mut out: Vec<MessageText> = Vec::new();
    let mut i: usize = 0;
    assert(v@.take(0) =~= Seq::<MessageBlob>::empty());
    assert(message_pairs(out@) =~= Seq::<(Seq<char>, Seq<char>)>::empty());
    while i < v.len()
        invariant
            i <= v@.len(),
            out@.len() <= i,
            message_pairs(out@) == readable(v@.take(i as int)),
        decreases v@.len() - i,
    {
        assert(v@.take(i + 1).drop_last() =~= v@.take(i as int));
        assert(v@.take(i + 1).last() == v@[i as int]);
        match unpack_text(v[i].blob.as_slice()) {
            Some(text) => {
                let m = MessageText { message_id: v[i].message_id.clone(), text };
                assert(message_pairs(out@.push(m)) =~= message_pairs(out@).push(
                    (m.message_id@, m.text@),
                ));
                out.push(m);
            },
            None => {},
        }
        i = i + 1;
    }
    assert(v@.take(i as int) =~= v@);
    out
}

/// What is read of a conversation.
#[derive(Debug)]
pub struct Excerpt {
    pub conversation_id: String,
    pub messages: Vec<MessageText>,
}

/// The longest part of a message that is quoted, in bytes.
pub const MAX_QUOTE: usize = 800;

/// The part of a message that is quoted.
pub open spec fn quoted(text: Seq<char>) -> Seq<char> {
    if bytes_of(text) > MAX_QUOTE {
        byte_prefix(text, MAX_QUOTE as nat) + "..."@
    } else {
        text
    }
}

/// What a model is told, and where each numbered piece of it comes from.
pub ghost struct ContextView {
    pub text: Seq<char>,
    pub citations: Seq<Seq<char>>,
}

/// One more message: it is quoted under the next number.
pub open spec fn with_message(
    c: ContextView,
    conversation: Seq<char>,
    m: (Seq<char>, Seq<char>),
) -> ContextView {
    ContextView {
        text: c.text + "["@ + decimal((c.citations.len() + 1) as nat) + "] "@ + quoted(m.1)
            + "\n"@,
        citations: c.citations.push(conversation + ":"@ + m.0),
    }
}

/// The messages of a conversation, one after the other.
pub open spec fn with_messages(
    c: ContextView,
    conversation: Seq<char>,
    ms: Seq<(Seq<char>, Seq<char>)>,
) -> ContextView
    decreases ms.len(),
{
    if ms.len() == 0 {
        c
    } else {
        with_message(with_messages(c, conversation, ms.drop_last()), conversation, ms.last())
    }
}

/// One more conversation.
pub open spec fn with_excerpt(c: ContextView, e: Excerpt) -> ContextView {
    let inner = with_messages(
        ContextView { text: c.text + "Conversation "@ + e.conversation_id@ + ":\n"@, ..c },
        e.conversation_id@,
        message_pairs(e.messages@),
    );
    ContextView { text: inner.text + "\n"@, ..inner }
}

/// What a model is told of the conversations.
pub open spec fn context_of(v: Seq<Excerpt>) -> ContextView
    decreases v.len(),
{
    if v.len() == 0 {
        ContextView { text: Seq::empty(), citations: Seq::empty() }
    } else {
        with_excerpt(context_of(v.drop_last()), v.last())
    }
}

/// What a model is told.
#[derive(Debug)]
pub struct Context {
    pub text: String,
    /// The conversation and the message of each numbered piece.
    pub citations: Vec<String>,
}

impl View for Context {
    type V = ContextView;

    open spec fn view(&self) -> ContextView {
        ContextView { text: self.text@, citations: texts(self.citations@) }
    }
}

/// How many messages the excerpts have in all.
pub open spec fn message_count(v: Seq<Excerpt>) -> nat
    decreases v.len(),
{
    if v.len() == 0 {
        0
    } else {
        message_count(v.drop_last()) + v.last().messages@.len()
    }
}

/// Whether the messages of the excerpts can be numbered.
pub open spec fn quotable(v: Seq<Excerpt>) -> bool {
    message_count(v) < u64::MAX
}

proof fn lemma_citations(c: ContextView, conversation: Seq<char>, ms: Seq<(Seq<char>, Seq<char>)>)
    ensures
        with_messages(c, conversation, ms).citations.len() == c.citations.len() + ms.len(),
    decreases ms.len(),
{
    if ms.len() > 0 {
        lemma_citations(c, conversation, ms.drop_last());
    }
}

proof fn lemma_count_grows(v: Seq<Excerpt>, i: int)
    requires
        0 <= i <= v.len(),
    ensures
        message_count(v.take(i)) <= message_count(v),
    decreases v.len() - i,
{
    if i < v.len() {
        lemma_count_grows(v, i + 1);
        assert(v.take(i + 1).drop_last() =~= v.take(i));
    } else {
        assert(v.take(i) =~= v);
    }
}

fn add_message(c: &mut Context, conversation: &str, m: &MessageText)
    requires
        old(c).citations@.len() < u64::MAX,
    ensures
        final(c)@ == with_message(old(c)@, conversation@, (m.message_id@, m.text@)),
{
    let ghost before = c@;
    assert(texts(c.citations@).len() == c.citations@.len());
    let n: u64 = c.citations.len() as u64 + 1;
    c.text.append("[");
    c.text.append(print_decimal(n).as_str());
    c.text.append("] ");
    if byte_len(m.text.as_str()) > MAX_QUOTE {
        c.text.append(prefix_bytes(m.text.as_str(), MAX_QUOTE).as_str());
        c.text.append("...");
    } else {
        c.text.append(m.text.as_str());
    }
    c.text.append("\n");
    let mut from = conversation.to_owned();
    from.append(":");
    from.append(m.message_id.as_str());
    proof {
        crate::text::lemma_texts_push(c.citations@, from);
    }
    c.citations.push(from);
    assert(c@.text =~= with_message(before, conversation@, (m.message_id@, m.text@)).text);
}

/// What a model is told of the conversations.
pub fn build_context(v: &Vec<Excerpt>) -> (r: Context)
    requires
        quotable(v@),
    ensures
        r@ == context_of(v@),
{
    let mut c = Context { text: String::new(), citations: Vec::new() };
    let mut i: usize = 0;
    assert(v@.take(0) =~= Seq::<Excerpt>::empty());
    assert(c@.text =~= Seq::<char>::empty());
    assert(c@.citations =~= Seq::<Seq<char>>::empty());
    while i < v.len()
        invariant
            i <= v@.len(),
            quotable(v@),
            c@ == context_of(v@.take(i as int)),
        decreases v@.len() - i,
    {
        let ghost before = c@;
        let ghost e = v@[i as int];
        let ghost ms = message_pairs(e.messages@);
        proof {
            assert(v@.take(i + 1).drop_last() =~= v@.take(i as int));
            assert(v@.take(i + 1).last() == e);
            every_piece_is_cited(v@.take(i as int));
            lemma_count_grows(v@, i + 1);
        }
        c.text.append("Conversation ");
        c.text.append(v[i].conversation_id.as_str());
        c.text.append(":\n");
        let ghost start = c@;
        assert(start.text =~= before.text + "Conversation "@ + e.conversation_id@ + ":\n"@);
        let mut k: usize = 0;
        assert(ms.take(0) =~= Seq::<(Seq<char>, Seq<char>)>::empty());
        while k < v[i].messages.len()
            invariant
                i < v@.len(),
                e == v@[i as int],
                k <= e.messages@.len(),
                ms == message_pairs(e.messages@),
                quotable(v@),
                start.citations.len() + e.messages@.len() < u64::MAX,
                c@ == with_messages(start, e.conversation_id@, ms.take(k as int)),
            decreases e.messages@.len() - k,
        {
            proof {
                assert(ms.take(k + 1).drop_last() =~= ms.take(k as int));
                assert(ms.take(k + 1).last() == (
                    e.messages@[k as int].message_id@,
                    e.messages@[k as int].text@,
                ));
                lemma_citations(start, e.conversation_id@, ms.take(k as int));
                assert(texts(c.citations@).len() == c.citations@.len());
            }
            add_message(&mut c, v[i].conversation_id.as_str(), &v[i].messages[k]);
            k = k + 1;
        }
        assert(ms.take(k as int) =~= ms);
        c.text.append("\n");
        i = i + 1;
    }
    assert(v@.take(i as int) =~= v@);
    c
}

// The question -----------------------------------------------------------

/// The names of the nodes that the user looks at, as far as they are there.
pub open spec fn frame_names(nodes: Seq<NodeView>, frame: Seq<Seq<char>>) -> Seq<Seq<char>>
    decreases frame.len(),
{
    if frame.len() == 0 {
        Seq::empty()
    } else {
        let before = frame_names(nodes, frame.drop_last());
        match name_of(nodes, frame.last()) {
            Some(n) => before.push(n),
            None => before,
        }
    }
}

/// The name that the first node with the id has.
pub open spec fn name_of(nodes: Seq<NodeView>, id: Seq<char>) -> Option<Seq<char>>
    decreases nodes.len(),
{
    if nodes.len() == 0 {
        None
    } else if nodes[0].id == id {
        Some(nodes[0].name)
    } else {
        name_of(nodes.drop_first(), id)
    }
}

fn find_name(nodes: &Vec<NodeRow>, id: &str) -> (r: Option<String>)
    ensures
        text_opt(r) == name_of(views(nodes@), id@),
{
    let ghost all = views(nodes@);
    let mut i: usize = 0;
    assert(all.skip(0) =~= all);
    while i < nodes.len()
        invariant
            i <= nodes@.len(),
            all == views(nodes@),
            name_of(all, id@) == name_of(all.skip(i as int), id@),
        decreases nodes@.len() - i,
    {
        assert(all.skip(i as int)[0] == nodes@[i as int]@);
        if same(nodes[i].id.as_str(), id) {
            return Some(nodes[i].name.clone());
        }
        assert(all.skip(i as int).drop_first() =~= all.skip(i + 1));
        i = i + 1;
    }
    None
}

fn names_in_frame(nodes: &Vec<NodeRow>, frame: &Vec<String>) -> (r: Vec<String>)
    ensures
        texts(r@) == frame_names(views(nodes@), texts(frame@)),
{
    let ghost all = texts(frame@);
    let mut out: Vec<String> = Vec::new();
    let mut i: usize = 0;
    assert(all.take(0) =~= Seq::<Seq<char>>::empty());
    assert(texts(out@) =~= Seq::<Seq<char>>::empty());
    while i < frame.len()
        invariant
            i <= frame@.len(),
            all == texts(frame@),
            texts(out@) == frame_names(views(nodes@), all.take(i as int)),
        decreases frame@.len() - i,
    {
        assert(all.take(i + 1).drop_last() =~= all.take(i as int));
        assert(all.take(i + 1).last() == frame@[i as int]@);
        match find_name(nodes, frame[i].as_str()) {
            Some(n) => {
                proof {
                    crate::text::lemma_texts_push(out@, n);
                }
                out.push(n);
            },
            None => {},
        }
        i = i + 1;
    }
    assert(all.take(i as int) =~= all);
    out
}

/// The turns as they are told, each as who said what.
pub open spec fn turn_lines(turns: Seq<TurnRecord>) -> Seq<Seq<char>> {
    turns.map_values(|t: TurnRecord| t.role@ + ": "@ + t.text@)
}

fn lines_of(turns: &Vec<TurnRecord>) -> (r: Vec<String>)
    ensures
        texts(r@) == turn_lines(turns@),
{
    let mut out: Vec<String> = Vec::new();
    let mut i: usize = 0;
    while i < turns.len()
        invariant
            i <= turns@.len(),
            out@.len() == i,
            forall|k: int| 0 <= k < i ==> (#[trigger] out@[k])@ == turn_lines(turns@)[k],
        decreases turns@.len() - i,
    {
        let mut line = turns[i].role.clone();
        line.append(": ");
        line.append(turns[i].text.as_str());
        out.push(line);
        i = i + 1;
    }
    assert(texts(out@) =~= turn_lines(turns@));
    out
}

/// What the model is told of what the user looks at.
pub open spec fn frame_block(nodes: Seq<NodeView>, session: Option<SessionState>) -> Seq<char> {
    match session {
        Some(s) => if frame_names(nodes, texts(s.active_frame@)).len() == 0 {
            "(none)"@
        } else {
            joined(frame_names(nodes, texts(s.active_frame@)), ", "@)
        },
        None => "(none)"@,
    }
}

/// What the model is told of the last turns.
pub open spec fn turns_block(session: Option<SessionState>) -> Seq<char> {
    match session {
        Some(s) => if s.recent_turns@.len() == 0 {
            "(none)"@
        } else {
            joined(turn_lines(s.recent_turns@), "\n"@)
        },
        None => "(none)"@,
    }
}

/// What the model is told of the turns before.
pub open spec fn summary_block(session: Option<SessionState>) -> Seq<char> {
    match session {
        Some(s) => match s.summary {
            Some(t) => t@,
            None => "(none)"@,
        },
        None => "(none)"@,
    }
}

/// The question as the model is asked.
pub open spec fn question(
    nodes: Seq<NodeView>,
    session: Option<SessionState>,
    context: Seq<char>,
    query: Seq<char>,
) -> Seq<char> {
    "ROLE\nYou answer questions about the user's own past ChatGPT conversations using ONLY\nthe CONTEXT provided. You do not use outside knowledge.\n\nACTIVE FRAME (what the user is currently looking at):\n"@
        + frame_block(nodes, session) + "\n\nSESSION SUMMARY (older turns compressed):\n"@
        + summary_block(session) + "\n\nLAST 5 TURNS (verbatim):\n"@ + turns_block(session)
        + "\n\nCONTEXT (ranked, fetched for this question):\n"@ + context + "\n\nQUESTION: "@
        + query
        + "\n\nRULES\n- Use ACTIVE FRAME to resolve pronouns (\"it\", \"that one\").\n- Every claim gets a [^n] marker matching CONTEXT source IDs.\n- If CONTEXT does not support a claim, say \"the archive does not show this\".\n- Executive tone. Answer first. Under 200 words unless synthesis.\n\nANSWER:"@
}

/// The question as the model is asked.
pub fn ask_prompt(
    nodes: &Vec<NodeRow>,
    session: &Option<SessionState>,
    context: &str,
    query: &str,
) -> (r: String)
    ensures
        r@ == question(views(nodes@), *session, context@, query@),
{
    let frame = match session {
        Some(s) => {
            let names = names_in_frame(nodes, &s.active_frame);
            assert(texts(names@).len() == names@.len());
            if names.len() == 0 {
                "(none)".to_owned()
            } else {
                join(&names, ", ")
            }
        },
        None => "(none)".to_owned(),
    };
    let turns = match session {
        Some(s) => if s.recent_turns.len() == 0 {
            "(none)".to_owned()
        } else {
            join(&lines_of(&s.recent_turns), "\n")
        },
        None => "(none)".to_owned(),
    };
    let summary = match session {
        Some(s) => match &s.summary {
            Some(t) => t.clone(),
            None => "(none)".to_owned(),
        },
        None => "(none)".to_owned(),
    };
    let mut out =
        "ROLE\nYou answer questions about the user's own past ChatGPT conversations using ONLY\nthe CONTEXT provided. You do not use outside knowledge.\n\nACTIVE FRAME (what the user is currently looking at):\n".to_owned();
    out.append(frame.as_str());
    out.append("\n\nSESSION SUMMARY (older turns compressed):\n");
    out.append(summary.as_str());
    out.append("\n\nLAST 5 TURNS (verbatim):\n");
    out.append(turns.as_str());
    out.append("\n\nCONTEXT (ranked, fetched for this question):\n");
    out.append(context);
    out.append("\n\nQUESTION: ");
    out.append(query);
    out.append(
        "\n\nRULES\n- Use ACTIVE FRAME to resolve pronouns (\"it\", \"that one\").\n- Every claim gets a [^n] marker matching CONTEXT source IDs.\n- If CONTEXT does not support a claim, say \"the archive does not show this\".\n- Executive tone. Answer first. Under 200 words unless synthesis.\n\nANSWER:",
    );
    out
}

/// How the model is asked.
pub fn ask_opts() -> (r: ChatOpts)
    ensures
        r == (ChatOpts {
            temperature: Double { bits: 0x3FC9_9999_A000_0000 },
            json_mode: false,
            max_tokens: Some(700),
        }),
{
    ChatOpts {
        temperature: Double { bits: MILD_TEMPERATURE },
        json_mode: false,
        max_tokens: Some(700),
    }
}

/// What is done with the context.
#[derive(Debug)]
pub enum ContextStep {
    /// Nothing in it can be cited: this is the answer.
    Answer(String),
    /// The model is asked this.
    Ask(String),
}

/// What is done with the context.
pub fn after_reading(
    nodes: &Vec<NodeRow>,
    session: &Option<SessionState>,
    context: &Context,
    query: &str,
) -> (r: ContextStep)
    ensures
        if context@.citations.len() == 0 {
            r matches ContextStep::Answer(m) && m@ == "The archive does not show this."@
        } else {
            r matches ContextStep::Ask(p) && p@ == question(
                views(nodes@),
                *session,
                context@.text,
                query@,
            )
        },
{
    assert(texts(context.citations@).len() == context.citations@.len());
    if context.citations.len() == 0 {
        ContextStep::Answer("The archive does not show this.".to_owned())
    } else {
        ContextStep::Ask(ask_prompt(nodes, session, context.text.as_str(), query))
    }
}

// Laws -------------------------------------------------------------------

/// As many pieces are numbered as there are messages, so that every number in
/// the context has its citation.
pub proof fn every_piece_is_cited(v: Seq<Excerpt>)
    ensures
        context_of(v).citations.len() == message_count(v),
    decreases v.len(),
{
    if v.len() > 0 {
        every_piece_is_cited(v.drop_last());
        let c = context_of(v.drop_last());
        let e = v.last();
        lemma_citations(
            ContextView { text: c.text + "Conversation "@ + e.conversation_id@ + ":\n"@, ..c },
            e.conversation_id@,
            message_pairs(e.messages@),
        );
    }
}

/// No more conversations are read than the limit, whatever a search gave.
pub proof fn few_conversations_are_read(g: ShownGraph, nodes: Seq<NodeView>)
    ensures
        read_conversations(g, nodes).len() <= MAX_CONVERSATIONS,
{
}

/// The conversations that are read are the first three that are shown; where none is,
/// the first three from which a shown link starts, each once.
pub proof fn shown_conversations_are_read(g: ShownGraph, nodes: Seq<NodeView>)
    ensures
        ({
            let shown = g.nodes.filter(|n: ShownNode| n.group == "conversation"@).map_values(
                |n: ShownNode| n.id,
            );
            let linking = linking_conversations(g.links, nodes);
            let read = read_conversations(g, nodes);
            &&& 0 < shown.len() <= 3 ==> read == shown
            &&& shown.len() > 3 ==> read == shown.take(3)
            &&& shown.len() == 0 && linking.len() <= 3 ==> read == linking
            &&& shown.len() == 0 && linking.len() > 3 ==> read == linking.take(3)
        }),
{
    lemma_shown_conversations(g.nodes);
}

proof fn lemma_shown_conversations(nodes: Seq<ShownNode>)
    ensures
        shown_conversations(nodes) == nodes.filter(
            |n: ShownNode| n.group == "conversation"@,
        ).map_values(|n: ShownNode| n.id),
    decreases nodes.len(),
{
    reveal(Seq::filter);
    let p = |n: ShownNode| n.group == "conversation"@;
    let f = |n: ShownNode| n.id;
    if nodes.len() > 0 {
        lemma_shown_conversations(nodes.drop_last());
        let before = nodes.drop_last().filter(p);
        assert(before.push(nodes.last()).map_values(f) =~= before.map_values(f).push(
            nodes.last().id,
        ));
    }
    assert(shown_conversations(nodes) =~= nodes.filter(p).map_values(f));
}

/// Conversations count as linking exactly if they are among the nodes and a shown
/// link starts at them, and each counts once.
pub proof fn linking_conversations_start_links(links: Seq<ShownLink>, nodes: Seq<NodeView>)
    ensures
        linking_conversations(links, nodes).no_duplicates(),
        forall|c: Seq<char>| #[trigger]
            linking_conversations(links, nodes).contains(c) <==> (exists|i: int|
                0 <= i < links.len() && (#[trigger] links[i]).source == c) && exists|k: int|
                0 <= k < nodes.len() && (#[trigger] nodes[k]).id == c && nodes[k].kind
                    == "conversation"@,
    decreases links.len(),
{
    let all = linking_conversations(links, nodes);
    if links.len() > 0 {
        let rest = links.drop_last();
        let before = linking_conversations(rest, nodes);
        let source = links.last().source;
        linking_conversations_start_links(rest, nodes);
        assert forall|c: Seq<char>| #[trigger] all.contains(c) <==> (exists|i: int|
            0 <= i < links.len() && (#[trigger] links[i]).source == c) && exists|k: int|
            0 <= k < nodes.len() && (#[trigger] nodes[k]).id == c && nodes[k].kind
                == "conversation"@ by {
            if all.contains(c) {
                let m = choose|m: int| 0 <= m < all.len() && all[m] == c;
                if m < before.len() {
                    assert(before[m] == c);
                    assert(before.contains(c));
                    let i = choose|i: int| 0 <= i < rest.len() && (#[trigger] rest[i]).source == c;
                    assert(links[i].source == c);
                } else {
                    assert(links[links.len() - 1].source == c);
                }
            }
            if (exists|i: int| 0 <= i < links.len() && (#[trigger] links[i]).source == c) && exists|
                k: int,
            |
                0 <= k < nodes.len() && (#[trigger] nodes[k]).id == c && nodes[k].kind
                    == "conversation"@ {
                let i = choose|i: int| 0 <= i < links.len() && (#[trigger] links[i]).source == c;
                if i < rest.len() {
                    assert(rest[i].source == c);
                    assert(before.contains(c));
                    let m = choose|m: int| 0 <= m < before.len() && before[m] == c;
                    assert(all[m] == c);
                } else if before.contains(c) {
                    let m = choose|m: int| 0 <= m < before.len() && before[m] == c;
                    assert(all[m] == c);
                } else {
                    assert(is_conversation(nodes, c));
                    assert(all[all.len() - 1] == c);
                }
            }
        }
        assert forall|i: int, j: int| 0 <= i < all.len() && 0 <= j < all.len() && i != j implies
            all[i] != all[j] by {
            if i < before.len() {
                assert(before.contains(before[i]));
            }
            if j < before.len() {
                assert(before.contains(before[j]));
            }
        }
    } else {
        assert forall|c: Seq<char>| #[trigger] all.contains(c) <==> (exists|i: int|
            0 <= i < links.len() && (#[trigger] links[i]).source == c) && exists|k: int|
            0 <= k < nodes.len() && (#[trigger] nodes[k]).id == c && nodes[k].kind
                == "conversation"@ by {}
    }
}

/// Every message whose text can be unpacked is read, in order, and no other.
pub proof fn every_readable_message_is_read(v: Seq<MessageBlob>)
    ensures
        readable(v) == v.filter(|m: MessageBlob| text_in(m.blob@) is Some).map_values(
            |m: MessageBlob| (m.message_id@, text_in(m.blob@)->0),
        ),
    decreases v.len(),
{
    reveal(Seq::filter);
    let p = |m: MessageBlob| text_in(m.blob@) is Some;
    let f = |m: MessageBlob| (m.message_id@, text_in(m.blob@)->0);
    if v.len() > 0 {
        every_readable_message_is_read(v.drop_last());
        let before = v.drop_last().filter(p);
        assert(before.push(v.last()).map_values(f) =~= before.map_values(f).push(f(v.last())));
    }
    assert(readable(v) =~= v.filter(p).map_values(f));
}

/// The name of every node of the frame is told, in order, and nothing for what is no
/// node.
pub proof fn the_frame_is_told_by_name(nodes: Seq<NodeView>, frame: Seq<Seq<char>>)
    ensures
        frame_names(nodes, frame) == frame.filter(
            |id: Seq<char>| name_of(nodes, id) is Some,
        ).map_values(|id: Seq<char>| name_of(nodes, id)->0),
        forall|id: Seq<char>|
            (#[trigger] name_of(nodes, id)) is Some <==> exists|k: int|
                0 <= k < nodes.len() && (#[trigger] nodes[k]).id == id,
        forall|id: Seq<char>|
            (#[trigger] name_of(nodes, id)) is Some ==> exists|k: int|
                0 <= k < nodes.len() && (#[trigger] nodes[k]).id == id && nodes[k].name == name_of(
                    nodes,
                    id,
                )->0,
    decreases frame.len(),
{
    reveal(Seq::filter);
    let p = |id: Seq<char>| name_of(nodes, id) is Some;
    let f = |id: Seq<char>| name_of(nodes, id)->0;
    if frame.len() > 0 {
        the_frame_is_told_by_name(nodes, frame.drop_last());
        let before = frame.drop_last().filter(p);
        assert(before.push(frame.last()).map_values(f) =~= before.map_values(f).push(
            f(frame.last()),
        ));
    }
    assert(frame_names(nodes, frame) =~= frame.filter(p).map_values(f));
    assert forall|id: Seq<char>| (#[trigger] name_of(nodes, id)) is Some <==> exists|k: int|
        0 <= k < nodes.len() && (#[trigger] nodes[k]).id == id by {
        lemma_name_of(nodes, id);
    }
    assert forall|id: Seq<char>| (#[trigger] name_of(nodes, id)) is Some implies exists|k: int|
        0 <= k < nodes.len() && (#[trigger] nodes[k]).id == id && nodes[k].name == name_of(
            nodes,
            id,
        )->0 by {
        lemma_name_of(nodes, id);
    }
}

proof fn lemma_name_of(nodes: Seq<NodeView>, id: Seq<char>)
    ensures
        name_of(nodes, id) is Some <==> exists|k: int|
            0 <= k < nodes.len() && (#[trigger] nodes[k]).id == id,
        name_of(nodes, id) matches Some(name) ==> exists|k: int|
            0 <= k < nodes.len() && (#[trigger] nodes[k]).id == id && nodes[k].name == name,
    decreases nodes.len(),
{
    if nodes.len() > 0 {
        let rest = nodes.drop_first();
        if nodes[0].id != id {
            lemma_name_of(rest, id);
            if name_of(rest, id) is Some {
                let name = name_of(rest, id)->0;
                let k = choose|k: int|
                    0 <= k < rest.len() && (#[trigger] rest[k]).id == id && rest[k].name == name;
                assert(nodes[k + 1] == rest[k]);
            } else {
                assert forall|k: int| 0 <= k < nodes.len() implies (#[trigger] nodes[k]).id
                    != id by {
                    if k > 0 {
                        assert(rest[k - 1] == nodes[k]);
                    }
                }
            }
        }
    }
}

proof fn lemma_with_messages(c: ContextView, conversation: Seq<char>, ms: Seq<(Seq<char>, Seq<char>)>)
    ensures
        with_messages(c, conversation, ms).citations == c.citations + ms.map_values(
            |m: (Seq<char>, Seq<char>)| conversation + ":"@ + m.0,
        ),
    decreases ms.len(),
{
    let f = |m: (Seq<char>, Seq<char>)| conversation + ":"@ + m.0;
    if ms.len() > 0 {
        lemma_with_messages(c, conversation, ms.drop_last());
        assert(ms.drop_last().map_values(f).push(f(ms.last())) =~= ms.map_values(f));
    }
    assert(with_messages(c, conversation, ms).citations =~= c.citations + ms.map_values(f));
}

/// The citations are, conversation by conversation and message by message, the name
/// of the conversation, a colon and the name of the message.
pub proof fn citations_name_their_messages(v: Seq<Excerpt>)
    ensures
        context_of(v).citations == v.map_values(
            |e: Excerpt|
                e.messages@.map_values(
                    |m: MessageText| e.conversation_id@ + ":"@ + m.message_id@,
                ),
        ).flatten(),
    decreases v.len(),
{
    let f = |e: Excerpt|
        e.messages@.map_values(|m: MessageText| e.conversation_id@ + ":"@ + m.message_id@);
    if v.len() > 0 {
        let rest = v.drop_last();
        let e = v.last();
        citations_name_their_messages(rest);
        let c = context_of(rest);
        let begun = ContextView {
            text: c.text + "Conversation "@ + e.conversation_id@ + ":\n"@,
            ..c
        };
        lemma_with_messages(begun, e.conversation_id@, message_pairs(e.messages@));
        assert(message_pairs(e.messages@).map_values(
            |m: (Seq<char>, Seq<char>)| e.conversation_id@ + ":"@ + m.0,
        ) =~= f(e));
        assert(v.map_values(f) =~= rest.map_values(f).push(f(e)));
        rest.map_values(f).lemma_flatten_push(f(e));
    } else {
        assert(v.map_values(f) =~= Seq::<Seq<Seq<char>>>::empty());
    }
}

/// A text of no more than 800 bytes is quoted whole; of a longer one the quote has the
/// beginning, no more than 800 bytes of it, and then three dots.
pub proof fn quotes_begin_as_their_texts(text: Seq<char>)
    ensures
        bytes_of(text) <= 800 ==> quoted(text) == text,
        bytes_of(text) > 800 ==> quoted(text) == byte_prefix(text, 800) + "..."@,
{
}

/// Every message stands in the context after those before it, numbered from one, on a
/// line of its own.
pub proof fn messages_are_numbered(
    c: ContextView,
    conversation: Seq<char>,
    ms: Seq<(Seq<char>, Seq<char>)>,
    m: (Seq<char>, Seq<char>),
)
    ensures
        with_messages(c, conversation, ms.push(m)).text == with_messages(c, conversation, ms).text
            + "["@ + decimal((c.citations.len() + ms.len() + 1) as nat) + "] "@ + quoted(m.1)
            + "\n"@,
{
    lemma_with_messages(c, conversation, ms);
    assert(ms.push(m).drop_last() =~= ms);
}

proof fn lemma_occurs_in_longer(s: Seq<char>, r: Seq<char>, p: Seq<char>)
    ensures
        occurs(s, p) ==> occurs(s + r, p),
        occurs(s + p, p),
{
    if occurs(s, p) {
        let i = choose|i: int| occurs_at(s, p, i);
        assert((s + r).subrange(i, i + p.len()) =~= s.subrange(i, i + p.len()));
        assert(occurs_at(s + r, p, i));
    }
    assert((s + p).subrange(s.len() as int, (s.len() + p.len()) as int) =~= p);
    assert(occurs_at(s + p, p, s.len() as int));
}

/// The question that the model is asked holds the context and what the user asks; and
/// of the session, where it has them, its summary, the names of what the user looks at,
/// and every turn with who spoke.
pub proof fn questions_hold_what_is_known(
    nodes: Seq<NodeView>,
    session: Option<SessionState>,
    context: Seq<char>,
    query: Seq<char>,
)
    ensures
        ({
            let q = question(nodes, session, context, query);
            &&& occurs(q, context)
            &&& occurs(q, query)
            &&& session matches Some(s) ==> {
                let names = frame_names(nodes, texts(s.active_frame@));
                let turns = s.recent_turns@.map_values(|t: TurnRecord| t.role@ + ": "@ + t.text@);
                &&& s.summary matches Some(t) ==> occurs(q, t@)
                &&& names.len() > 0 ==> occurs(q, joined(names, ", "@))
                &&& turns.len() > 0 ==> occurs(q, joined(turns, "\n"@))
            }
        }),
{
    assert forall|s: Seq<char>, r: Seq<char>, p: Seq<char>|
        occurs(s, p) || r == p implies #[trigger] occurs(s + r, p) by {
        lemma_occurs_in_longer(s, r, p);
    }
}

} // verus!
