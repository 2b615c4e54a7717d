//! What is sent to the completion service, and how its answer is put
//! together from the pieces in which it arrives.

use crate::text::string_views;
use vstd::prelude::*;
use vstd::string::StringExecFns;

verus! {

/// The address of the completion service.
pub const COMPLETION_ENDPOINT: &'static str = "http://localhost:11434/api/generate";

/// The name of the model that is asked.
pub open spec fn model_name() -> Seq<char> {
    "llama3.1"@
}

/// A request to the completion service.
#[derive(Debug, PartialEq, Eq)]
pub struct CompletionRequest {
    pub model: String,
    pub prompt: String,
}

/// The request that puts `prompt` to the model.
pub fn completion_request(prompt: &str) -> (request: CompletionRequest)
    ensures
        request.model@ == model_name(),
        request.prompt@ == prompt@,
{
    CompletionRequest { model: String::from_str("llama3.1"), prompt: String::from_str(prompt) }
}

/// The parts one after the other, with nothing between them.
pub open spec fn concat(parts: Seq<Seq<char>>) -> Seq<char>
    decreases parts.len(),
{
    if parts.len() == 0 {
        Seq::empty()
    } else {
        concat(parts.drop_last()) + parts.last()
    }
}

/// The answer of the completion service: the texts of the pieces in which
/// it arrived, in their order, put together.
pub fn assemble_response(pieces: &Vec<String>) -> (response: String)
    ensures
        response@ == concat(string_views(pieces@)),
{
    let ghost parts = string_views(pieces@);
    let mut response = String::new();
    let mut i: usize = 0;
    while i < pieces.len()
        invariant
            parts == string_views(pieces@),
            i <= pieces.len(),
            response@ == concat(parts.take(i as int)),
        decreases pieces.len() - i,
    {
        proof {
            assert(parts.take(i + 1).drop_last() == parts.take(i as int));
        }
        response.append(pieces[i].as_str());
        i = i + 1;
    }
    proof {
        assert(parts.take(pieces.len() as int) == parts);
    }
    response
}

} // verus!
