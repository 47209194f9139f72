//! The messages of a user, and how they are cut into what a model is shown.

use crate::double::Double;
use crate::seqs::{arrange, arranged, kept, lemma_kept_step, Ranked};
use crate::text::{
    byte_len, byte_prefix, bytes_of, is_blank, join, joined, lex_lt, prefix_bytes, text_lt,
    texts, trimmed,
};
use vstd::prelude::*;

verus! {

// Messages ---------------------------------------------------------------

/// A message that the user wrote.
#[derive(Debug)]
pub struct StoredUserMessage {
    pub message_id: String,
    pub create_time: Double,
    pub on_visible_path: bool,
    pub text: String,
}

/// What a message holds.
pub ghost struct UserMessageView {
    pub message_id: Seq<char>,
    pub create_time: Double,
    pub on_visible_path: bool,
    pub text: Seq<char>,
}

impl View for StoredUserMessage {
    type V = UserMessageView;

    open spec fn view(&self) -> UserMessageView {
        UserMessageView {
            message_id: self.message_id@,
            create_time: self.create_time,
            on_visible_path: self.on_visible_path,
            text: self.text@,
        }
    }
}

/// Messages are ordered by the time of their creation, then by their name.
impl Ranked for StoredUserMessage {
    open spec fn ranks_before(self, other: StoredUserMessage) -> bool {
        self.create_time.position() < other.create_time.position() || (
        self.create_time.position() == other.create_time.position() && lex_lt(
            self.message_id@,
            other.message_id@,
        ))
    }

    proof fn ranking(a: StoredUserMessage, b: StoredUserMessage, c: StoredUserMessage) {
        crate::text::lemma_lex_irreflexive(a.message_id@);
        if lex_lt(a.message_id@, b.message_id@) && lex_lt(b.message_id@, c.message_id@) {
            crate::text::lemma_lex_transitive(a.message_id@, b.message_id@, c.message_id@);
        }
        crate::text::lemma_lex_total(a.message_id@, b.message_id@);
        crate::text::lemma_lex_total(b.message_id@, c.message_id@);
        crate::text::lemma_lex_total(a.message_id@, c.message_id@);
        if lex_lt(c.message_id@, b.message_id@) && lex_lt(b.message_id@, a.message_id@) {
            crate::text::lemma_lex_transitive(c.message_id@, b.message_id@, a.message_id@);
        }
        if lex_lt(a.message_id@, c.message_id@) && lex_lt(c.message_id@, a.message_id@) {
            crate::text::lemma_lex_transitive(a.message_id@, c.message_id@, a.message_id@);
        }
    }

    fn precedes(&self, other: &StoredUserMessage) -> (r: bool) {
        if self.create_time.precedes(other.create_time) {
            true
        } else if other.create_time.precedes(self.create_time) {
            false
        } else {
            text_lt(self.message_id.as_str(), other.message_id.as_str())
        }
    }
}

/// The messages in the order in which they were written.
pub fn sort_messages(messages: Vec<StoredUserMessage>) -> (r: Vec<StoredUserMessage>)
    ensures
        r@ == arranged(messages@),
{
    arrange(messages)
}

// Chunks -----------------------------------------------------------------

/// The longest part of a message that is shown, in bytes.
pub const MAX_MSG_SNIPPET: usize = 2000;

/// The length in bytes beyond which a chunk takes no further message.
pub const CHUNK_SIZE_CHARS: usize = 12000;

/// The part of a message's text that is shown.
pub open spec fn message_snippet(text: Seq<char>) -> Seq<char> {
    if bytes_of(text) > MAX_MSG_SNIPPET {
        byte_prefix(text, MAX_MSG_SNIPPET as nat) + "\u{2026}"@
    } else {
        text
    }
}

/// A message as it stands in a chunk.
pub open spec fn message_entry(m: UserMessageView) -> Seq<char> {
    "["@ + m.message_id + "] user:\n"@ + message_snippet(m.text) + "\n\n"@
}

/// Chunks under way: those that are full, and the one that is being filled.
pub ghost struct Filling {
    pub full: Seq<Seq<char>>,
    pub current: Seq<char>,
}

/// One more entry: a chunk that would grow too long is closed first.
pub open spec fn filled(f: Filling, entry: Seq<char>) -> Filling {
    if bytes_of(f.current) + bytes_of(entry) > CHUNK_SIZE_CHARS && f.current.len() > 0 {
        Filling { full: f.full.push(f.current), current: entry }
    } else {
        Filling { full: f.full, current: f.current + entry }
    }
}

/// The chunks once all entries are in.
pub open spec fn filling(entries: Seq<Seq<char>>) -> Filling
    decreases entries.len(),
{
    if entries.len() == 0 {
        Filling { full: Seq::empty(), current: Seq::empty() }
    } else {
        filled(filling(entries.drop_last()), entries.last())
    }
}

/// The chunks that the entries make.
pub open spec fn chunks_of(entries: Seq<Seq<char>>) -> Seq<Seq<char>> {
    let f = filling(entries);
    if f.current.len() > 0 {
        f.full.push(f.current)
    } else {
        f.full
    }
}

/// The entries of the messages on the visible path.
pub open spec fn visible_entries(messages: Seq<StoredUserMessage>) -> Seq<Seq<char>> {
    kept(messages, |m: StoredUserMessage| m.on_visible_path).map_values(
        |m: StoredUserMessage| message_entry(m@),
    )
}

fn entry_of(m: &StoredUserMessage) -> (r: String)
    ensures
        r@ == message_entry(m@),
{
    let mut out = "[".to_owned();
    out.append(m.message_id.as_str());
    out.append("] user:\n");
    if byte_len(m.text.as_str()) > MAX_MSG_SNIPPET {
        out.append(prefix_bytes(m.text.as_str(), MAX_MSG_SNIPPET).as_str());
        out.append("\u{2026}");
    } else {
        out.append(m.text.as_str());
    }
    out.append("\n\n");
    assert(out@ =~= message_entry(m@));
    out
}

/// Cuts the messages on the visible path into chunks.
pub fn chunk_messages(messages: &Vec<StoredUserMessage>) -> (r: Vec<String>)
    ensures
        texts(r@) == chunks_of(visible_entries(messages@)),
{
    let ghost on = |m: StoredUserMessage| m.on_visible_path;
    let ghost entry = |m: StoredUserMessage| message_entry(m@);
    let mut full: Vec<String> = Vec::new();
    let mut current = String::new();
    let mut i: usize = 0;
    assert(messages@.take(0) =~= Seq::<StoredUserMessage>::empty());
    assert(visible_entries(messages@.take(0)) =~= Seq::<Seq<char>>::empty());
    assert(texts(full@) =~= Seq::<Seq<char>>::empty());
    while i < messages.len()
        invariant
            i <= messages@.len(),
            on == (|m: StoredUserMessage| m.on_visible_path),
            entry == (|m: StoredUserMessage| message_entry(m@)),
            filling(visible_entries(messages@.take(i as int))) == (Filling {
                full: texts(full@),
                current: current@,
            }),
        decreases messages@.len() - i,
    {
        proof {
            lemma_kept_step(messages@, on, i as int);
        }
        let ghost before = visible_entries(messages@.take(i as int));
        let ghost after = visible_entries(messages@.take(i + 1));
        if messages[i].on_visible_path {
            let e = entry_of(&messages[i]);
            proof {
                assert(after =~= before.push(e@));
                assert(after.drop_last() =~= before);
            }
            let have: usize = byte_len(current.as_str());
            let more: usize = byte_len(e.as_str());
            if (have > CHUNK_SIZE_CHARS || more > CHUNK_SIZE_CHARS - have)
                && !current.as_str().is_empty() {
                proof {
                    crate::text::lemma_texts_push(full@, current);
                }
                full.push(current);
                current = String::new();
                assert(current@ + e@ =~= e@);
            }
            current.append(e.as_str());
        } else {
            assert(after =~= before);
        }
        i = i + 1;
    }
    assert(messages@.take(i as int) =~= messages@);
    if !current.as_str().is_empty() {
        proof {
            crate::text::lemma_texts_push(full@, current);
        }
        full.push(current);
    }
    full
}

// What is done with the chunks -------------------------------------------

/// A single chunk that is shorter than this, in bytes, is not worth a model's
/// time.
pub const TRIVIAL_LEN: usize = 280;

/// Chunks that are shorter than this in all, in bytes, are shown as they are.
pub const SINGLE_PASS_THRESHOLD: usize = 45000;

/// How a conversation is extracted.
#[derive(Clone, Copy, Debug, PartialEq, Eq, Structural)]
pub enum Plan {
    /// There is nothing to extract from.
    NoMessages,
    /// It is too short to ask a model about.
    Trivial,
    /// The model is shown all of it.
    SinglePass,
    /// Each chunk is summarised, and the model is shown the summaries.
    MapReduce,
}

/// The length of the chunks in all, in bytes.
pub open spec fn total_bytes(chunks: Seq<Seq<char>>) -> nat
    decreases chunks.len(),
{
    if chunks.len() == 0 {
        0
    } else {
        total_bytes(chunks.drop_last()) + bytes_of(chunks.last())
    }
}

/// How the chunks are extracted.
pub open spec fn plan_for(chunks: Seq<Seq<char>>) -> Plan {
    if chunks.len() == 0 || (chunks.len() == 1 && trimmed(chunks[0]).len() == 0) {
        Plan::NoMessages
    } else if chunks.len() == 1 && bytes_of(chunks[0]) < TRIVIAL_LEN {
        Plan::Trivial
    } else if total_bytes(chunks) < SINGLE_PASS_THRESHOLD {
        Plan::SinglePass
    } else {
        Plan::MapReduce
    }
}

proof fn lemma_total_grows(chunks: Seq<Seq<char>>, i: int)
    requires
        0 <= i <= chunks.len(),
    ensures
        total_bytes(chunks.take(i)) <= total_bytes(chunks),
    decreases chunks.len() - i,
{
    if i < chunks.len() {
        lemma_total_grows(chunks, i + 1);
        assert(chunks.take(i + 1).drop_last() =~= chunks.take(i));
    } else {
        assert(chunks.take(i) =~= chunks);
    }
}

fn fits_single_pass(chunks: &Vec<String>) -> (r: bool)
    ensures
        r == (total_bytes(texts(chunks@)) < SINGLE_PASS_THRESHOLD),
{
    let ghost all = texts(chunks@);
    let mut left: usize = SINGLE_PASS_THRESHOLD;
    let mut i: usize = 0;
    assert(all.take(0) =~= Seq::<Seq<char>>::empty());
    while i < chunks.len()
        invariant
            i <= chunks@.len(),
            all == texts(chunks@),
            0 < left <= SINGLE_PASS_THRESHOLD,
            total_bytes(all.take(i as int)) == SINGLE_PASS_THRESHOLD - left,
        decreases chunks@.len() - i,
    {
        assert(all.take(i + 1).drop_last() =~= all.take(i as int));
        assert(all.take(i + 1).last() == chunks@[i as int]@);
        let n: usize = byte_len(chunks[i].as_str());
        if n >= left {
            proof {
                lemma_total_grows(all, i + 1);
            }
            return false;
        }
        left = left - n;
        i = i + 1;
    }
    assert(all.take(i as int) =~= all);
    true
}

/// How the chunks are extracted.
pub fn plan_extraction(chunks: &Vec<String>) -> (r: Plan)
    ensures
        r == plan_for(texts(chunks@)),
{
    if chunks.len() == 0 {
        return Plan::NoMessages;
    }
    assert(texts(chunks@)[0] == chunks@[0]@);
    if chunks.len() == 1 {
        if is_blank(chunks[0].as_str()) {
            return Plan::NoMessages;
        }
        if byte_len(chunks[0].as_str()) < TRIVIAL_LEN {
            return Plan::Trivial;
        }
    }
    if fits_single_pass(chunks) {
        Plan::SinglePass
    } else {
        Plan::MapReduce
    }
}

/// The message for a conversation with nothing to extract from.
pub fn no_messages() -> (r: String)
    ensures
        r@ == "No messages to extract from"@,
{
    "No messages to extract from".to_owned()
}

/// What a model is shown in a single pass.
pub fn single_pass_summary(chunks: &Vec<String>) -> (r: String)
    ensures
        r@ == joined(texts(chunks@), ""@),
{
    join(chunks, "")
}

// Laws -------------------------------------------------------------------

/// The texts one behind the other.
pub open spec fn run_together(v: Seq<Seq<char>>) -> Seq<char>
    decreases v.len(),
{
    if v.len() == 0 {
        Seq::empty()
    } else {
        run_together(v.drop_last()) + v.last()
    }
}

proof fn lemma_run_together_push(v: Seq<Seq<char>>, s: Seq<char>)
    ensures
        run_together(v.push(s)) == run_together(v) + s,
{
    assert(v.push(s).drop_last() =~= v);
}

/// Chunking loses nothing and changes no order: the chunks one behind the other
/// are the entries one behind the other.
pub proof fn chunks_hold_every_entry(entries: Seq<Seq<char>>)
    ensures
        run_together(chunks_of(entries)) == run_together(entries),
    decreases entries.len(),
{
    lemma_filling_holds(entries);
    let f = filling(entries);
    if f.current.len() > 0 {
        lemma_run_together_push(f.full, f.current);
    } else {
        assert(run_together(f.full) + f.current =~= run_together(f.full));
    }
}

proof fn lemma_filling_holds(entries: Seq<Seq<char>>)
    ensures
        run_together(filling(entries).full) + filling(entries).current == run_together(entries),
    decreases entries.len(),
{
    if entries.len() == 0 {
        assert(run_together(filling(entries).full) + filling(entries).current =~= run_together(
            entries,
        ));
    } else {
        let rest = entries.drop_last();
        let e = entries.last();
        lemma_filling_holds(rest);
        let f = filling(rest);
        if bytes_of(f.current) + bytes_of(e) > CHUNK_SIZE_CHARS && f.current.len() > 0 {
            lemma_run_together_push(f.full, f.current);
        } else {
            assert(run_together(f.full) + (f.current + e) =~= (run_together(f.full) + f.current)
                + e);
        }
    }
}

/// Whether a chunk is within the limit, or holds a single entry that is not.
pub open spec fn within_limit(chunk: Seq<char>, entries: Seq<Seq<char>>) -> bool {
    bytes_of(chunk) <= CHUNK_SIZE_CHARS || entries.contains(chunk)
}

proof fn lemma_filling_limited(entries: Seq<Seq<char>>)
    ensures
        forall|i: int|
            0 <= i < filling(entries).full.len() ==> within_limit(
                #[trigger] filling(entries).full[i],
                entries,
            ),
        filling(entries).current.len() > 0 ==> within_limit(filling(entries).current, entries),
        forall|i: int|
            0 <= i < filling(entries).full.len() ==> (#[trigger] filling(entries).full[i]).len() > 0,
    decreases entries.len(),
{
    if entries.len() > 0 {
        let rest = entries.drop_last();
        let e = entries.last();
        lemma_filling_limited(rest);
        let f = filling(rest);
        let g = filling(entries);
        assert(entries[entries.len() - 1] == e);
        assert forall|c: Seq<char>| #[trigger] rest.contains(c) implies entries.contains(c) by {
            let k = choose|k: int| 0 <= k < rest.len() && rest[k] == c;
            assert(entries[k] == c);
        }
        if f.current.len() == 0 {
            assert(f.current + e =~= e);
        } else {
            crate::text::lemma_bytes_concat(f.current, e);
        }
        assert forall|i: int| 0 <= i < g.full.len() implies within_limit(
            #[trigger] g.full[i],
            entries,
        ) && g.full[i].len() > 0 by {
            if i < f.full.len() {
                assert(g.full[i] == f.full[i]);
            }
        }
    }
}

/// No chunk is empty, and none is longer than the limit unless it holds a single
/// message that is longer by itself.
pub proof fn chunks_are_limited(entries: Seq<Seq<char>>)
    ensures
        forall|i: int|
            0 <= i < chunks_of(entries).len() ==> within_limit(
                #[trigger] chunks_of(entries)[i],
                entries,
            ) && chunks_of(entries)[i].len() > 0,
{
    lemma_filling_limited(entries);
    let f = filling(entries);
    assert forall|i: int| 0 <= i < chunks_of(entries).len() implies within_limit(
        #[trigger] chunks_of(entries)[i],
        entries,
    ) && chunks_of(entries)[i].len() > 0 by {
        if i < f.full.len() {
            assert(chunks_of(entries)[i] == f.full[i]);
        }
    }
}

/// The messages come in the order of their creation, whatever order they were
/// stored in, and none is lost.
pub proof fn messages_come_in_order(messages: Seq<StoredUserMessage>)
    ensures
        forall|i: int, j: int|
            0 <= i < j < arranged(messages).len() ==> #[trigger] arranged(
                messages,
            )[i].create_time.position() <= #[trigger] arranged(messages)[j].create_time.position(),
        arranged(messages).to_multiset() == messages.to_multiset(),
{
    crate::seqs::arranging_orders(messages);
}

/// Messages of one time go by their names.
pub proof fn messages_of_one_time_go_by_name(messages: Seq<StoredUserMessage>, i: int, j: int)
    requires
        0 <= i < j < messages.len(),
        arranged(messages)[i].create_time == arranged(messages)[j].create_time,
    ensures
        !lex_lt(arranged(messages)[j].message_id@, arranged(messages)[i].message_id@),
{
    crate::seqs::arranging_orders(messages);
    assert(arranged(messages).len() == messages.len()) by {
        arranged(messages).to_multiset_ensures();
        messages.to_multiset_ensures();
    }
    assert(!arranged(messages)[j].ranks_before(arranged(messages)[i]));
}

/// Every message on the visible path is entered, in order, and no other: with its
/// name, and with its whole text if that has no more than 2000 bytes, else with the
/// beginning.
pub proof fn visible_messages_are_entered(messages: Seq<StoredUserMessage>)
    ensures
        ({
            let visible = messages.filter(|m: StoredUserMessage| m.on_visible_path);
            let entries = visible_entries(messages);
            &&& entries.len() == visible.len()
            &&& forall|i: int|
                0 <= i < entries.len() ==> #[trigger] entries[i] == "["@ + visible[i].message_id@
                    + "] user:\n"@ + (if bytes_of(visible[i].text@) <= 2000 {
                    visible[i].text@
                } else {
                    byte_prefix(visible[i].text@, 2000) + "\u{2026}"@
                }) + "\n\n"@
        }),
{
    crate::seqs::keeping_is_filtering(messages, |m: StoredUserMessage| m.on_visible_path);
}

/// An entry that comes last is put to the last chunk if the two have no more than
/// 12000 bytes together, else it begins a chunk of its own; no chunk before changes.
pub proof fn chunks_are_filled_in_turn(entries: Seq<Seq<char>>, entry: Seq<char>)
    requires
        entry.len() > 0,
        filling(entries).current.len() > 0,
    ensures
        ({
            let before = chunks_of(entries);
            let after = chunks_of(entries.push(entry));
            if bytes_of(before.last()) + bytes_of(entry) <= 12000 {
                after == before.drop_last().push(before.last() + entry)
            } else {
                after == before.push(entry)
            }
        }),
{
    assert(entries.push(entry).drop_last() =~= entries);
    assert(chunks_of(entries).drop_last() =~= filling(entries).full);
}

proof fn lemma_total(chunks: Seq<Seq<char>>)
    ensures
        total_bytes(chunks) == bytes_of(chunks.flatten()),
    decreases chunks.len(),
{
    if chunks.len() > 0 {
        let rest = chunks.drop_last();
        lemma_total(rest);
        assert(chunks =~= rest.push(chunks.last()));
        rest.lemma_flatten_push(chunks.last());
        crate::text::lemma_bytes_concat(rest.flatten(), chunks.last());
    } else {
        assert(chunks.flatten() =~= Seq::<char>::empty());
    }
}

/// What is done with the chunks goes by their length: nothing if there is nothing
/// but blanks in one, nothing if there is one of fewer than 280 bytes, one question if
/// they have fewer than 45000 bytes together, and else one for each.
pub proof fn plans_go_by_length(chunks: Seq<Seq<char>>)
    ensures
        plan_for(chunks) is NoMessages <==> chunks.len() == 0 || (chunks.len() == 1 && trimmed(
            chunks[0],
        ).len() == 0),
        plan_for(chunks) is Trivial <==> chunks.len() == 1 && trimmed(chunks[0]).len() > 0
            && bytes_of(chunks[0]) < 280,
        plan_for(chunks) is MapReduce <==> chunks.len() > 0 && bytes_of(chunks.flatten()) >= 45000
            && !(chunks.len() == 1 && trimmed(chunks[0]).len() == 0),
{
    lemma_total(chunks);
    if chunks.len() == 1 {
        assert(chunks.drop_last().len() == 0);
        assert(total_bytes(chunks.drop_last()) == 0);
    }
}

} // verus!
