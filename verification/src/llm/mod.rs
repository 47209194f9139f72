//! Talking to language models over an OpenAI-compatible endpoint: the requests
//! that are sent, what is read from the replies, and what follows from failures.

pub mod content;
pub mod health;
pub mod openai;

use crate::double::{Double, ZERO_BITS};
use crate::text::text_opt;
use vstd::prelude::*;

verus! {

/// One message of a chat.
#[derive(Debug)]
pub struct Message {
    pub role: String,
    pub content: String,
}

/// What a message holds.
pub ghost struct MessageView {
    pub role: Seq<char>,
    pub content: Seq<char>,
}

impl View for Message {
    type V = MessageView;

    open spec fn view(&self) -> MessageView {
        MessageView { role: self.role@, content: self.content@ }
    }
}

/// A message of the user.
pub fn user_message(content: String) -> (r: Message)
    ensures
        r@ == (MessageView { role: "user"@, content: content@ }),
{
    Message { role: "user".to_owned(), content }
}

/// How a chat is to be run.
#[derive(Clone, Copy, Debug)]
pub struct ChatOpts {
    pub temperature: Double,
    pub json_mode: bool,
    /// Hard cap on generated tokens.
    pub max_tokens: Option<u32>,
}

impl Default for ChatOpts {
    fn default() -> (r: ChatOpts)
        ensures
            r == (ChatOpts {
                temperature: Double { bits: ZERO_BITS },
                json_mode: false,
                max_tokens: None,
            }),
    {
        ChatOpts { temperature: Double { bits: ZERO_BITS }, json_mode: false, max_tokens: None }
    }
}

/// The reply of a chat.
#[derive(Debug)]
pub struct ChatResponse {
    pub message: Message,
}

/// What an endpoint can do.
#[derive(Debug)]
pub struct HealthStatus {
    pub chat: bool,
    pub embeddings: bool,
    pub models: bool,
    pub json_mode: bool,
    /// Why the list of models was not had. Present when `models` is false.
    pub models_error: Option<String>,
    /// Why no chat was completed. Present when `chat` is false.
    pub chat_error: Option<String>,
    /// Why no embedding was had. Present when `embeddings` is false.
    pub embeddings_error: Option<String>,
}

/// What a health status holds.
pub ghost struct HealthView {
    pub chat: bool,
    pub embeddings: bool,
    pub models: bool,
    pub json_mode: bool,
    pub models_error: Option<Seq<char>>,
    pub chat_error: Option<Seq<char>>,
    pub embeddings_error: Option<Seq<char>>,
}

impl View for HealthStatus {
    type V = HealthView;

    open spec fn view(&self) -> HealthView {
        HealthView {
            chat: self.chat,
            embeddings: self.embeddings,
            models: self.models,
            json_mode: self.json_mode,
            models_error: text_opt(self.models_error),
            chat_error: text_opt(self.chat_error),
            embeddings_error: text_opt(self.embeddings_error),
        }
    }
}

/// The status of which nothing is known yet.
pub open spec fn unknown_health() -> HealthView {
    HealthView {
        chat: false,
        embeddings: false,
        models: false,
        json_mode: false,
        models_error: None,
        chat_error: None,
        embeddings_error: None,
    }
}

impl Default for HealthStatus {
    fn default() -> (r: HealthStatus)
        ensures
            r@ == unknown_health(),
    {
        HealthStatus {
            chat: false,
            embeddings: false,
            models: false,
            json_mode: false,
            models_error: None,
            chat_error: None,
            embeddings_error: None,
        }
    }
}

} // verus!
