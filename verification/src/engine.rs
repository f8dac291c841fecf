//! Configuration and errors of the llama.cpp-backed inference engine.
use vstd::prelude::*;
use crate::text::{chars_of, extend_chars, string_of};

verus! {

/// Configuration of an inference engine. CPU-only by default: no layer is offloaded.
#[derive(Clone, Copy, Debug)]
pub struct EngineConfig {
    /// Threads used for both single-token and batch decode.
    pub n_threads: i32,
    /// Context window size (tokens).
    pub n_ctx: u32,
    /// Max tokens processed per `decode()` call.
    pub n_batch: u32,
    /// Model layers offloaded to a GPU (0: none).
    pub n_gpu_layers: i32,
}

impl Default for EngineConfig {
    /// 28 threads (headroom on a 32-core box), a 4096-token context, batches of 512 and no
    /// GPU offload.
    fn default() -> (r: Self)
        ensures
            r.n_threads == 28,
            r.n_ctx == 4096,
            r.n_batch == 512,
            r.n_gpu_layers == 0,
    {
        EngineConfig { n_threads: 28, n_ctx: 4096, n_batch: 512, n_gpu_layers: 0 }
    }
}

/// Errors of the inference engine, each with the underlying message.
#[derive(Debug)]
pub enum EngineError {
    BackendInit(String),
    ModelLoad(String),
    ContextInit(String),
    Tokenize(String),
    ChatTemplate(String),
    Decode(String),
    BatchAdd(String),
}

/// The text an engine error reads as.
pub open spec fn engine_error_message(e: EngineError) -> Seq<char> {
    match e {
        EngineError::BackendInit(m) => "llama backend init failed: "@ + m@,
        EngineError::ModelLoad(m) => "model load failed: "@ + m@,
        EngineError::ContextInit(m) => "context init failed: "@ + m@,
        EngineError::Tokenize(m) => "tokenize failed: "@ + m@,
        EngineError::ChatTemplate(m) => "chat template failed: "@ + m@,
        EngineError::Decode(m) => "decode failed: "@ + m@,
        EngineError::BatchAdd(m) => "batch add failed: "@ + m@,
    }
}

/// `prefix` followed by `m`.
pub fn prefixed(prefix: &str, m: &String) -> (r: String)
    ensures
        r@ == prefix@ + m@,
{
    let mut v = chars_of(prefix);
    extend_chars(&mut v, &chars_of(m.as_str()));
    string_of(&v)
}

impl EngineError {
    /// The text the error reads as, e.g. `decode failed: <message>`.
    pub fn message(&self) -> (r: String)
        ensures
            r@ == engine_error_message(*self),
    {
        match self {
            EngineError::BackendInit(m) => prefixed("llama backend init failed: ", m),
            EngineError::ModelLoad(m) => prefixed("model load failed: ", m),
            EngineError::ContextInit(m) => prefixed("context init failed: ", m),
            EngineError::Tokenize(m) => prefixed("tokenize failed: ", m),
            EngineError::ChatTemplate(m) => prefixed("chat template failed: ", m),
            EngineError::Decode(m) => prefixed("decode failed: ", m),
            EngineError::BatchAdd(m) => prefixed("batch add failed: ", m),
        }
    }
}

/// The ChatML rendering of a single user turn, used when a model file carries no chat
/// template: `<|im_start|>user\n<content><|im_end|>\n<|im_start|>assistant\n`.
pub fn chatml_prompt(user_content: &str) -> (r: String)
    ensures
        r@ == "<|im_start|>user\n"@ + user_content@ + "<|im_end|>\n<|im_start|>assistant\n"@,
{
    let mut v = chars_of("<|im_start|>user\n");
    extend_chars(&mut v, &chars_of(user_content));
    extend_chars(&mut v, &chars_of("<|im_end|>\n<|im_start|>assistant\n"));
    string_of(&v)
}

} // verus!
