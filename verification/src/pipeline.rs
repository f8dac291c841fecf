//! Errors of the readout / generate / Laya orchestration.
use vstd::prelude::*;
use crate::engine::prefixed;
use crate::text::{chars_of, extend_chars, string_of};

verus! {

/// Errors of the comparison pipelines. A Laya failure is its own variant because callers
/// degrade it to a missing Laya result instead of failing the whole request.
#[derive(Debug)]
pub enum PipelineError {
    Engine(String),
    InvalidOptions(String),
    Laya(String),
}

/// The text a pipeline error reads as.
pub open spec fn pipeline_error_message(e: PipelineError) -> Seq<char> {
    match e {
        PipelineError::Engine(m) => "engine error: "@ + m@,
        PipelineError::InvalidOptions(m) => "invalid options: "@ + m@,
        PipelineError::Laya(m) => "laya error: "@ + m@,
    }
}

impl PipelineError {
    /// The text the error reads as.
    pub fn message(&self) -> (r: String)
        ensures
            r@ == pipeline_error_message(*self),
    {
        match self {
            PipelineError::Engine(m) => prefixed("engine error: ", m),
            PipelineError::InvalidOptions(m) => prefixed("invalid options: ", m),
            PipelineError::Laya(m) => prefixed("laya error: ", m),
        }
    }
}


/// The message for a readout without options.
pub open spec fn no_options_given() -> Seq<char> {
    "no options given"@
}

/// The message for an option whose label tokenizes to nothing.
pub open spec fn empty_label_message(option: Seq<char>) -> Seq<char> {
    "option '"@ + option + "' tokenized to nothing"@
}

/// The index of the first option whose label tokenized to nothing, or `-1`.
pub open spec fn first_empty_label(tokenized: Seq<Vec<i32>>) -> int
    decreases tokenized.len(),
{
    if tokenized.len() == 0 {
        -1
    } else if first_empty_label(tokenized.drop_last()) >= 0 {
        first_empty_label(tokenized.drop_last())
    } else if tokenized.last()@.len() == 0 {
        tokenized.len() - 1
    } else {
        -1
    }
}

proof fn lemma_first_empty_label(tokenized: Seq<Vec<i32>>)
    ensures
        -1 <= first_empty_label(tokenized) < tokenized.len(),
        first_empty_label(tokenized) >= 0 ==> tokenized[first_empty_label(tokenized)]@.len()
            == 0,
        forall|j: int|
            0 <= j < tokenized.len() && (first_empty_label(tokenized) < 0 || j
                < first_empty_label(tokenized)) ==> #[trigger] tokenized[j]@.len() > 0,
    decreases tokenized.len(),
{
    if tokenized.len() > 0 {
        let init = tokenized.drop_last();
        lemma_first_empty_label(init);
        let f = first_empty_label(tokenized);
        assert forall|j: int|
            0 <= j < tokenized.len() && (f < 0 || j < f) implies #[trigger] tokenized[j]@.len()
            > 0 by {
            if j < init.len() {
                assert(init[j] == tokenized[j]);
            }
        }
    }
}

/// The label token of each option for the constrained readout: the first token of the
/// option's label. Fails when there is no option, or, naming the first such option, when a
/// label tokenizes to nothing.
pub fn option_label_ids(options: &[String], tokenized: &[Vec<i32>]) -> (r: Result<
    Vec<usize>,
    PipelineError,
>)
    requires
        tokenized@.len() == options@.len(),
    ensures
        options@.len() == 0 ==> (r matches Err(PipelineError::InvalidOptions(m)) && m@
            == no_options_given()),
        options@.len() > 0 && first_empty_label(tokenized@) >= 0 ==> (r matches Err(
            PipelineError::InvalidOptions(m),
        ) && m@ == empty_label_message(options@[first_empty_label(tokenized@)]@)),
        options@.len() > 0 && first_empty_label(tokenized@) < 0 ==> (r matches Ok(ids) && ids@.len()
            == options@.len() && forall|i: int|
            0 <= i < ids@.len() ==> #[trigger] ids@[i] == tokenized@[i]@[0] as usize),
{
    if options.len() == 0 {
        return Err(PipelineError::InvalidOptions(String::from_str("no options given")));
    }
    proof {
        lemma_first_empty_label(tokenized@);
    }
    let mut ids: Vec<usize> = Vec::new();
    let mut i: usize = 0;
    while i < options.len()
        invariant
            tokenized@.len() == options@.len(),
            i <= options@.len(),
            ids@.len() == i,
            forall|j: int| 0 <= j < i ==> #[trigger] tokenized@[j]@.len() > 0,
            forall|j: int| 0 <= j < i ==> #[trigger] ids@[j] == tokenized@[j]@[0] as usize,
            -1 <= first_empty_label(tokenized@) < tokenized@.len(),
            first_empty_label(tokenized@) >= 0 ==> tokenized@[first_empty_label(
                tokenized@,
            )]@.len() == 0,
            forall|j: int|
                0 <= j < tokenized@.len() && (first_empty_label(tokenized@) < 0 || j
                    < first_empty_label(tokenized@)) ==> #[trigger] tokenized@[j]@.len() > 0,
        decreases options@.len() - i,
    {
        if tokenized[i].len() == 0 {
            let mut v = chars_of("option '");
            extend_chars(&mut v, &chars_of(options[i].as_str()));
            extend_chars(&mut v, &chars_of("' tokenized to nothing"));
            assert(first_empty_label(tokenized@) == i);
            return Err(PipelineError::InvalidOptions(string_of(&v)));
        }
        let t: i32 = tokenized[i][0];
        ids.push(t as usize);
        i = i + 1;
    }
    Ok(ids)
}


/// The result a report carries for the Laya method: Laya is a degradable comparison, so a
/// failed call leaves the result missing instead of failing the request.
pub fn laya_outcome<T>(r: Result<T, PipelineError>) -> (o: Option<T>)
    ensures
        match r {
            Ok(v) => o == Some(v),
            Err(_) => o is None,
        },
{
    match r {
        Ok(v) => Some(v),
        Err(_) => None,
    }
}

} // verus!
