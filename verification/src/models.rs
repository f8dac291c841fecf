//! The model registry and the errors of model lookup, download and the `laya serve` client.
use vstd::prelude::*;
use crate::engine::prefixed;
use crate::text::{chars_of, extend_chars, string_of, vec_chars_eq};

verus! {

/// A single entry of the static model registry.
#[derive(Clone, Copy, Debug)]
pub struct ModelEntry {
    /// Short id used on the command line (`--model <id>`).
    pub id: &'static str,
    /// `owner/name` Hugging Face repo id.
    pub hf_repo_id: &'static str,
    /// Git revision pinned to a commit SHA.
    pub revision: &'static str,
    /// GGUF filename within the repo.
    pub filename: &'static str,
    /// License, from the Hub API's `cardData.license`.
    pub license: &'static str,
    /// Whether generation force-closes the model's `<think>` block by seeding an empty one.
    pub suppress_think: bool,
    /// Token budget for natural reasoning before `</think>` is forced; `None`: unbounded.
    pub think_budget: Option<usize>,
}

/// The think budget calibrated for Qwen3-0.6B.
pub const THINK_BUDGET_QWEN3_0_6B: usize = 150;

/// The registry's ids, in order.
pub open spec fn registry_ids() -> Seq<Seq<char>> {
    seq!["qwen3-0.6b"@, "qwen3-4b"@, "minicpm5-2b"@, "laya"@]
}

/// The registry entry at index `i`, in registry order.
pub open spec fn registry_entry(i: int) -> ModelEntry {
    if i == 0 {
        ModelEntry {
            id: "qwen3-0.6b",
            hf_repo_id: "Qwen/Qwen3-0.6B-GGUF",
            revision: "23749fefcc72300e3a2ad315e1317431b06b590a",
            filename: "Qwen3-0.6B-Q8_0.gguf",
            license: "apache-2.0",
            suppress_think: false,
            think_budget: Some(THINK_BUDGET_QWEN3_0_6B),
        }
    } else if i == 1 {
        ModelEntry {
            id: "qwen3-4b",
            hf_repo_id: "Qwen/Qwen3-4B-GGUF",
            revision: "bc640142c66e1fdd12af0bd68f40445458f3869b",
            filename: "Qwen3-4B-Q5_K_M.gguf",
            license: "apache-2.0",
            suppress_think: true,
            think_budget: None,
        }
    } else if i == 2 {
        ModelEntry {
            id: "minicpm5-2b",
            hf_repo_id: "openbmb/MiniCPM5-2B-GGUF",
            revision: "2079a22f3beaa4e306449978533478fe0522f4b3",
            filename: "MiniCPM5-2B-Q4_K_M.gguf",
            license: "apache-2.0",
            suppress_think: true,
            think_budget: None,
        }
    } else {
        ModelEntry {
            id: "laya",
            hf_repo_id: "mys/laya-GGUF",
            revision: "713ae6f6e39fb54835e010485656e4484e5ec411",
            filename: "laya_english_q8_0.gguf",
            license: "apache-2.0",
            suppress_think: false,
            think_budget: None,
        }
    }
}

/// The number of registry entries.
pub open spec fn registry_len() -> int {
    4
}

/// The static registry of known models, in order.
pub fn registry() -> (r: Vec<ModelEntry>)
    ensures
        r@.len() == registry_len(),
        forall|i: int| 0 <= i < registry_len() ==> #[trigger] r@[i] == registry_entry(i),
{
    let mut r: Vec<ModelEntry> = Vec::new();
    r.push(
        ModelEntry {
            id: "qwen3-0.6b",
            hf_repo_id: "Qwen/Qwen3-0.6B-GGUF",
            revision: "23749fefcc72300e3a2ad315e1317431b06b590a",
            filename: "Qwen3-0.6B-Q8_0.gguf",
            license: "apache-2.0",
            suppress_think: false,
            think_budget: Some(THINK_BUDGET_QWEN3_0_6B),
        },
    );
    r.push(
        ModelEntry {
            id: "qwen3-4b",
            hf_repo_id: "Qwen/Qwen3-4B-GGUF",
            revision: "bc640142c66e1fdd12af0bd68f40445458f3869b",
            filename: "Qwen3-4B-Q5_K_M.gguf",
            license: "apache-2.0",
            suppress_think: true,
            think_budget: None,
        },
    );
    r.push(
        ModelEntry {
            id: "minicpm5-2b",
            hf_repo_id: "openbmb/MiniCPM5-2B-GGUF",
            revision: "2079a22f3beaa4e306449978533478fe0522f4b3",
            filename: "MiniCPM5-2B-Q4_K_M.gguf",
            license: "apache-2.0",
            suppress_think: true,
            think_budget: None,
        },
    );
    r.push(
        ModelEntry {
            id: "laya",
            hf_repo_id: "mys/laya-GGUF",
            revision: "713ae6f6e39fb54835e010485656e4484e5ec411",
            filename: "laya_english_q8_0.gguf",
            license: "apache-2.0",
            suppress_think: false,
            think_budget: None,
        },
    );
    r
}

/// Errors of the registry and download logic.
#[derive(Debug)]
pub enum ModelsError {
    /// The Hub client could not be built.
    ClientInit(String),
    /// A download failed.
    Download(String),
    /// Registry lookup for an unknown model id.
    UnknownModel(String),
}

/// The text a models error reads as.
pub open spec fn models_error_message(e: ModelsError) -> Seq<char> {
    match e {
        ModelsError::ClientInit(m) => "hf-hub client init failed: "@ + m@,
        ModelsError::Download(m) => "model download failed: "@ + m@,
        ModelsError::UnknownModel(m) => "unknown model id: "@ + m@,
    }
}

impl ModelsError {
    /// The text the error reads as, e.g. `unknown model id: <id>`.
    pub fn message(&self) -> (r: String)
        ensures
            r@ == models_error_message(*self),
    {
        match self {
            ModelsError::ClientInit(m) => prefixed("hf-hub client init failed: ", m),
            ModelsError::Download(m) => prefixed("model download failed: ", m),
            ModelsError::UnknownModel(m) => prefixed("unknown model id: ", m),
        }
    }
}

/// The index of the first registry entry with id `id`, or `-1`.
pub open spec fn registry_index(id: Seq<char>) -> int {
    if registry_entry(0).id@ == id {
        0
    } else if registry_entry(1).id@ == id {
        1
    } else if registry_entry(2).id@ == id {
        2
    } else if registry_entry(3).id@ == id {
        3
    } else {
        -1
    }
}

/// Looks a registry entry up by its short id; an unknown id is `UnknownModel(id)`.
pub fn find(id: &str) -> (r: Result<ModelEntry, ModelsError>)
    ensures
        registry_index(id@) >= 0 ==> r == Ok::<ModelEntry, ModelsError>(
            registry_entry(registry_index(id@)),
        ),
        registry_index(id@) < 0 ==> (r matches Err(ModelsError::UnknownModel(m)) && m@ == id@),
{
    let reg = registry();
    let want = chars_of(id);
    let mut i: usize = 0;
    while i < reg.len()
        invariant
            i <= reg@.len(),
            reg@.len() == registry_len(),
            forall|j: int| 0 <= j < registry_len() ==> #[trigger] reg@[j] == registry_entry(j),
            want@ == id@,
            forall|j: int| 0 <= j < i ==> registry_entry(j).id@ != id@,
        decreases reg@.len() - i,
    {
        let e = reg[i];
        if vec_chars_eq(&chars_of(e.id), &want) {
            assert(registry_entry(i as int).id@ == id@);
            return Ok(e);
        }
        i = i + 1;
    }
    Err(ModelsError::UnknownModel(String::from_str(id)))
}

/// Errors of the `laya serve` HTTP call: an expected, degradable condition, not a
/// registry or download failure.
#[derive(Debug)]
pub enum LayaError {
    /// `laya serve` could not be reached.
    Unreachable(String),
    /// `laya serve` answered, but not in the expected shape.
    BadResponse(String),
}

/// The text a Laya error reads as.
pub open spec fn laya_error_message(e: LayaError) -> Seq<char> {
    match e {
        LayaError::Unreachable(m) => "laya serve unreachable: "@ + m@,
        LayaError::BadResponse(m) => "laya serve returned an unexpected response: "@ + m@,
    }
}

impl LayaError {
    /// The text the error reads as.
    pub fn message(&self) -> (r: String)
        ensures
            r@ == laya_error_message(*self),
    {
        match self {
            LayaError::Unreachable(m) => prefixed("laya serve unreachable: ", m),
            LayaError::BadResponse(m) => prefixed(
                "laya serve returned an unexpected response: ",
                m,
            ),
        }
    }
}


/// How `laya serve`'s reply is accepted: a non-success status is a bad response naming
/// the status; a reply without the `answer` entry, or whose entry has no choice, is a bad
/// response saying what is missing; otherwise the choice is the best option.
pub open spec fn laya_choice_spec(
    status_ok: bool,
    status_text: Seq<char>,
    has_answer: bool,
    choice: Option<Seq<char>>,
) -> Result<Seq<char>, Seq<char>> {
    if !status_ok {
        Err("HTTP "@ + status_text)
    } else if !has_answer {
        Err("missing 'answers.answer' in laya response"@)
    } else {
        match choice {
            Some(c) => Ok(c),
            None => Err("missing 'answers.answer.choice'"@),
        }
    }
}

/// Accepts or refuses `laya serve`'s reply (see `laya_choice_spec`), given whether its
/// HTTP status is a success and its text, whether the reply holds the `answer` entry, and
/// that entry's choice.
pub fn laya_choice(status_ok: bool, status_text: &str, has_answer: bool, choice: Option<String>) -> (r:
    Result<String, LayaError>)
    ensures
        match laya_choice_spec(status_ok, status_text@, has_answer, (match choice {
            Some(c) => Some(c@),
            None => None::<Seq<char>>,
        })) {
            Ok(c) => r matches Ok(b) && b@ == c,
            Err(m) => r matches Err(LayaError::BadResponse(e)) && e@ == m,
        },
{
    if !status_ok {
        let mut v = chars_of("HTTP ");
        extend_chars(&mut v, &chars_of(status_text));
        return Err(LayaError::BadResponse(string_of(&v)));
    }
    if !has_answer {
        return Err(
            LayaError::BadResponse(String::from_str("missing 'answers.answer' in laya response")),
        );
    }
    match choice {
        Some(c) => Ok(c),
        None => Err(LayaError::BadResponse(String::from_str("missing 'answers.answer.choice'"))),
    }
}

} // verus!
