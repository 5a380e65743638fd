//! Failures of a run.

use vstd::prelude::*;

use crate::stage::Stage;
use crate::text::{contains, lower, occurs, occurs_at, to_lower};

verus! {

/// In which part of a run something failed.
#[derive(Clone, Copy, Debug, PartialEq, Eq, Structural)]
pub enum ErrorKind {
    InvalidInput,
    ModelLoad,
    Processing,
    InvalidOutput,
    Commit,
}

/// A failure, with what is told of it: from the outermost words to the cause.
#[derive(Debug)]
pub struct PipelineError {
    pub kind: ErrorKind,
    pub stage: Option<Stage>,
    pub messages: Vec<String>,
}

impl PipelineError {
    pub fn new(kind: ErrorKind, stage: Option<Stage>, messages: Vec<String>) -> (result:
        PipelineError)
        ensures
            result == (PipelineError { kind, stage, messages }),
    {
        PipelineError { kind, stage, messages }
    }
}

/// Words that tell of too little memory.
pub open spec fn tells_of_memory(message: Seq<char>) -> bool {
    let small = lower(message);
    ||| occurs(small, "out of memory"@)
    ||| occurs(small, "cuda_error_out_of_memory"@)
    ||| occurs(small, "not enough memory"@)
}

/// Some of the words of a failure tell of too little memory.
pub open spec fn out_of_memory(messages: Seq<String>) -> bool {
    exists|i: int| 0 <= i < messages.len() && tells_of_memory((#[trigger] messages[i])@)
}

/// Tests whether a failure tells of too little memory.
pub fn is_out_of_memory(messages: &Vec<String>) -> (result: bool)
    ensures
        result == out_of_memory(messages@),
{
    let mut index: usize = 0;
    while index < messages.len()
        invariant
            index <= messages.len(),
            forall|i: int| 0 <= i < index ==> !tells_of_memory((#[trigger] messages@[i])@),
        decreases messages.len() - index,
    {
        let small = to_lower(messages[index].as_str());
        if contains(small.as_str(), "out of memory") || contains(
            small.as_str(),
            "cuda_error_out_of_memory",
        ) || contains(small.as_str(), "not enough memory") {
            assert(tells_of_memory(messages@[index as int]@));
            return true;
        }
        index += 1;
    }
    false
}

/// Tests whether a stage is tried again after a failure: where its model is managed here, nothing
/// was stopped, and memory was short.
pub fn should_retry_after_memory_pressure(
    locally_managed: bool,
    stopped: bool,
    messages: &Vec<String>,
) -> (result: bool)
    ensures
        result == (locally_managed && !stopped && out_of_memory(messages@)),
{
    locally_managed && !stopped && is_out_of_memory(messages)
}

/// Memory was short if a message says so in any of three ways, in capitals or not, wherever in the
/// message it stands. A failure without messages does not tell of it.
pub proof fn law_words_of_short_memory(before: Seq<char>, words: Seq<char>, after: Seq<char>)
    requires
        lower(words) == "out of memory"@ || lower(words) == "cuda_error_out_of_memory"@ || lower(
            words,
        ) == "not enough memory"@,
    ensures
        tells_of_memory(before + words + after),
        !out_of_memory(Seq::empty()),
{
    let message = before + words + after;
    let small = lower(message);
    let at = before.len() as int;
    assert(small.subrange(at, at + words.len()) =~= lower(words));
    assert(occurs_at(small, lower(words), at));
}

} // verus!
