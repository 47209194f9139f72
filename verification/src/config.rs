//! How a workspace is set up.

use crate::double::Double;
use crate::text::{is_blank, text_opt, trimmed};
use vstd::prelude::*;

verus! {

// The settings -----------------------------------------------------------

/// All settings of a workspace.
#[derive(Debug)]
pub struct WorkspaceConfig {
    pub endpoints: WorkspaceEndpoints,
    pub jobs: WorkspaceJobs,
    pub ui: WorkspaceUI,
}

/// The endpoints that serve models.
#[derive(Debug)]
pub struct WorkspaceEndpoints {
    pub default: EndpointConfig,
    pub cloud: EndpointConfig,
}

/// An endpoint that serves models.
#[derive(Debug)]
pub struct EndpointConfig {
    pub base_url: String,
    pub api_key: String,
    pub label: String,
    pub provider: String,
}

/// The jobs for which models are used.
#[derive(Debug)]
pub struct WorkspaceJobs {
    pub extraction: JobConfig,
    pub embedding: JobConfig,
    pub triage_preview: JobConfig,
    pub evaluation: JobConfig,
    pub chat: JobConfig,
}

/// Which model a job uses.
#[derive(Debug)]
pub struct JobConfig {
    pub endpoint: String,
    pub model: String,
    /// The endpoint that is tried where the first fails; empty for none.
    pub backup_endpoint: String,
    pub backup_model: String,
}

/// How the workspace is shown.
#[derive(Debug)]
pub struct WorkspaceUI {
    pub split_ratio: Double,
    pub graph_node_cap: i64,
    pub focus_stack_size: i64,
}

/// Whether the endpoint is the one described.
pub open spec fn is_endpoint(
    e: EndpointConfig,
    base_url: Seq<char>,
    api_key: Seq<char>,
    label: Seq<char>,
    provider: Seq<char>,
) -> bool {
    e.base_url@ == base_url && e.api_key@ == api_key && e.label@ == label && e.provider@
        == provider
}

/// Whether the job uses the model at the endpoint and nothing else.
pub open spec fn is_job(j: JobConfig, endpoint: Seq<char>, model: Seq<char>) -> bool {
    j.endpoint@ == endpoint && j.model@ == model && j.backup_endpoint@ == ""@ && j.backup_model@
        == ""@
}

/// Whether the endpoints are those of a new workspace.
pub open spec fn default_endpoints(e: WorkspaceEndpoints) -> bool {
    &&& is_endpoint(
        e.default,
        "http://localhost:11434/v1"@,
        ""@,
        "Local Ollama"@,
        "local"@,
    )
    &&& is_endpoint(
        e.cloud,
        "https://generativelanguage.googleapis.com/v1beta/openai"@,
        ""@,
        "Google Gemini"@,
        "gemini"@,
    )
}

/// Whether the jobs are those of a new workspace.
pub open spec fn default_jobs(j: WorkspaceJobs) -> bool {
    &&& is_job(j.extraction, "default"@, "qwen2.5:7b"@)
    &&& is_job(j.embedding, "default"@, "nomic-embed-text"@)
    &&& is_job(j.triage_preview, "default"@, "qwen2.5:3b"@)
    &&& is_job(j.evaluation, "default"@, "qwen2.5:7b"@)
    &&& is_job(j.chat, "default"@, "qwen2.5:7b"@)
}

/// 0.6: the part of the window that the chat takes in a new workspace.
pub const SPLIT_RATIO: u64 = 0x3FE3_3333_3333_3333;

/// Whether the workspace is shown as a new one is.
pub open spec fn default_ui(u: WorkspaceUI) -> bool {
    u.split_ratio == (Double { bits: SPLIT_RATIO }) && u.graph_node_cap == 25
        && u.focus_stack_size == 4
}

fn job(endpoint: &str, model: &str) -> (r: JobConfig)
    ensures
        is_job(r, endpoint@, model@),
{
    JobConfig {
        endpoint: endpoint.to_owned(),
        model: model.to_owned(),
        backup_endpoint: "".to_owned(),
        backup_model: "".to_owned(),
    }
}

impl Default for EndpointConfig {
    fn default() -> (r: EndpointConfig)
        ensures
            is_endpoint(r, ""@, ""@, ""@, ""@),
    {
        EndpointConfig {
            base_url: "".to_owned(),
            api_key: "".to_owned(),
            label: "".to_owned(),
            provider: "".to_owned(),
        }
    }
}

impl Default for JobConfig {
    fn default() -> (r: JobConfig)
        ensures
            is_job(r, ""@, ""@),
    {
        job("", "")
    }
}

impl Default for WorkspaceEndpoints {
    fn default() -> (r: WorkspaceEndpoints)
        ensures
            default_endpoints(r),
    {
        WorkspaceEndpoints {
            default: EndpointConfig {
                base_url: "http://localhost:11434/v1".to_owned(),
                api_key: "".to_owned(),
                label: "Local Ollama".to_owned(),
                provider: "local".to_owned(),
            },
            cloud: EndpointConfig {
                base_url: "https://generativelanguage.googleapis.com/v1beta/openai".to_owned(),
                api_key: "".to_owned(),
                label: "Google Gemini".to_owned(),
                provider: "gemini".to_owned(),
            },
        }
    }
}

impl Default for WorkspaceJobs {
    fn default() -> (r: WorkspaceJobs)
        ensures
            default_jobs(r),
    {
        WorkspaceJobs {
            extraction: job("default", "qwen2.5:7b"),
            embedding: job("default", "nomic-embed-text"),
            triage_preview: job("default", "qwen2.5:3b"),
            evaluation: job("default", "qwen2.5:7b"),
            chat: job("default", "qwen2.5:7b"),
        }
    }
}

impl Default for WorkspaceUI {
    fn default() -> (r: WorkspaceUI)
        ensures
            default_ui(r),
    {
        WorkspaceUI {
            split_ratio: Double { bits: SPLIT_RATIO },
            graph_node_cap: 25,
            focus_stack_size: 4,
        }
    }
}

impl Default for WorkspaceConfig {
    fn default() -> (r: WorkspaceConfig)
        ensures
            default_endpoints(r.endpoints),
            default_jobs(r.jobs),
            default_ui(r.ui),
    {
        WorkspaceConfig {
            endpoints: WorkspaceEndpoints::default(),
            jobs: WorkspaceJobs::default(),
            ui: WorkspaceUI::default(),
        }
    }
}

// Which models are used --------------------------------------------------

/// The model that embeds where the settings name none.
pub fn embedding_model(config: &WorkspaceConfig) -> (r: String)
    ensures
        r@ == if trimmed(config.jobs.embedding.model@).len() == 0 {
            "nomic-embed-text"@
        } else {
            config.jobs.embedding.model@
        },
{
    if is_blank(config.jobs.embedding.model.as_str()) {
        "nomic-embed-text".to_owned()
    } else {
        config.jobs.embedding.model.clone()
    }
}

/// The text, if it is not blank.
pub open spec fn chosen(s: Option<Seq<char>>) -> Option<Seq<char>> {
    match s {
        Some(t) => if trimmed(t).len() == 0 {
            None
        } else {
            Some(t)
        },
        None => None,
    }
}

fn choose_text(s: Option<String>) -> (r: Option<String>)
    ensures
        text_opt(r) == chosen(text_opt(s)),
{
    match s {
        Some(t) => if is_blank(t.as_str()) {
            None
        } else {
            Some(t)
        },
        None => None,
    }
}

/// Which models an extraction uses beside the one that extracts.
#[derive(Debug)]
pub struct Routing {
    pub embed_model: String,
    pub embed_base_url: String,
    pub triage: String,
}

/// Settles which models an extraction uses. A missing choice is an error, but for
/// the model that summarises: there the one that extracts is used.
pub fn route_extraction(
    model: &str,
    embed_model: Option<String>,
    triage_model: Option<String>,
    embed_base_url: Option<String>,
) -> (r: Result<Routing, String>)
    ensures
        if trimmed(model@).len() == 0 {
            r matches Err(m) && m@
                == "No extraction model selected. Configure it in Settings \u{2192} LLM Routing."@
        } else if chosen(text_opt(embed_model)) is None {
            r matches Err(m) && m@
                == "No embedding model selected. Configure it in Settings \u{2192} LLM Routing (Embedding)."@
        } else if chosen(text_opt(embed_base_url)) is None {
            r matches Err(m) && m@
                == "No embedding endpoint configured. Configure Local LLM in Settings."@
        } else {
            r matches Ok(x) && Some(x.embed_model@) == text_opt(embed_model) && Some(
                x.embed_base_url@,
            ) == text_opt(embed_base_url) && x.triage@ == match chosen(text_opt(triage_model)) {
                Some(t) => t,
                None => model@,
            }
        },
{
    if is_blank(model) {
        return Err(
            "No extraction model selected. Configure it in Settings \u{2192} LLM Routing.".to_owned(),
        );
    }
    let embed_model = match choose_text(embed_model) {
        Some(m) => m,
        None => {
            return Err(
                "No embedding model selected. Configure it in Settings \u{2192} LLM Routing (Embedding).".to_owned(),
            );
        },
    };
    let embed_base_url = match choose_text(embed_base_url) {
        Some(u) => u,
        None => {
            return Err(
                "No embedding endpoint configured. Configure Local LLM in Settings.".to_owned(),
            );
        },
    };
    let triage = match choose_text(triage_model) {
        Some(t) => t,
        None => model.to_owned(),
    };
    Ok(Routing { embed_model, embed_base_url, triage })
}

/// What the user is told once a conversation is extracted.
pub fn extracted_message(conversation_id: &str) -> (r: String)
    ensures
        r@ == "Extracted conversation "@ + conversation_id@,
{
    let mut m = "Extracted conversation ".to_owned();
    m.append(conversation_id);
    m
}

/// The endpoint at which questions are embedded where none is given.
pub fn question_endpoint(given: Option<String>) -> (r: String)
    ensures
        r@ == match text_opt(given) {
            Some(u) => u,
            None => "http://localhost:11434/v1"@,
        },
{
    match given {
        Some(u) => u,
        None => "http://localhost:11434/v1".to_owned(),
    }
}

/// What is blank counts as not given; anything else is taken as it is given.
pub proof fn blank_choices_count_as_none(s: Seq<char>)
    ensures
        chosen(None) is None,
        chosen(Some(s)) is None <==> trimmed(s).len() == 0,
        trimmed(s).len() > 0 ==> chosen(Some(s)) == Some(s),
{
}

} // verus!
