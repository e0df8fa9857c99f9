//! Asking a model for structured output: a reply that cannot be read is asked
//! for once more, and then given up.

use vstd::prelude::*;
use vstd::string::*;
use crate::domain::DomainError;
use crate::memory::MemoryItem;
use crate::memory_extraction::PREFETCH_LIMIT;
use crate::rrf::at_most;
use crate::text::{is_blank, trim};

verus! {

/// What the model is asked for.
#[derive(Debug, Clone, Copy, PartialEq, Eq, Structural)]
pub enum Request {
    ClaimIngestion,
    ClaimDream,
    MemoryExtraction,
    MemoryDream,
}

/// What is said of output that could not be read twice, before the reason.
pub open spec fn twice_text(request: Request) -> Seq<char> {
    match request {
        Request::ClaimIngestion => "claim ingestion model returned unparseable output twice: "@,
        Request::ClaimDream => "dream output unparseable twice: "@,
        Request::MemoryExtraction => "extraction model returned unparseable output twice: "@,
        Request::MemoryDream => "dream model returned unparseable output twice: "@,
    }
}

/// What follows a reply.
#[derive(Debug)]
pub enum ReplyStep<T> {
    /// The reply was read.
    Accept(T),
    /// The model is asked again.
    Retry,
    /// The reply is given up.
    Fail(DomainError),
}

/// What follows a reply that was read as given, or could not be read for the
/// given reason. Only the first reply is asked for again.
pub fn after_attempt<T>(request: Request, first: bool, read: Result<T, String>) -> (r: ReplyStep<
    T,
>)
    ensures
        r is Accept <==> read is Ok,
        r is Retry <==> read is Err && first,
        r is Fail <==> read is Err && !first,
        read matches Ok(v) ==> r->Accept_0 == v,
        r matches ReplyStep::Fail(e) ==> e is ParseError && e->ParseError_0@ == twice_text(request)
            + read->Err_0@,
{
    match read {
        Ok(v) => ReplyStep::Accept(v),
        Err(reason) => {
            if first {
                return ReplyStep::Retry;
            }
            let mut m = match request {
                Request::ClaimIngestion => "claim ingestion model returned unparseable output twice: ".to_string(),
                Request::ClaimDream => "dream output unparseable twice: ".to_string(),
                Request::MemoryExtraction => "extraction model returned unparseable output twice: ".to_string(),
                Request::MemoryDream => "dream model returned unparseable output twice: ".to_string(),
            };
            m.append(reason.as_str());
            ReplyStep::Fail(DomainError::ParseError(m))
        },
    }
}

/// The second prompt: the first with the correction behind it.
pub fn second_prompt(user: &str, correction: &str) -> (r: String)
    ensures
        r@ == user@ + "\n\n"@ + correction@,
{
    let mut r = user.to_string();
    r.append("\n\n");
    r.append(correction);
    r
}

/// Where the context of a conversation is looked for.
#[derive(Debug, Clone, Copy, PartialEq, Eq, Structural)]
pub enum ContextSource {
    /// There is none.
    Nothing,
    /// What is near the conversation in meaning.
    Semantic,
    /// What was written last.
    Recent,
}

/// Where claims near a conversation are looked for: nowhere without embeddings
/// or without anything said.
pub fn claim_context(embeddings: bool, query: &str) -> (r: ContextSource)
    ensures
        r == if embeddings && trim(query@).len() > 0 {
            ContextSource::Semantic
        } else {
            ContextSource::Nothing
        },
{
    if embeddings && !is_blank(query) {
        ContextSource::Semantic
    } else {
        ContextSource::Nothing
    }
}

/// Where memories near a conversation are looked for: without embeddings among
/// the latest.
pub fn memory_context(embeddings: bool, query: &str) -> (r: ContextSource)
    ensures
        r == if !embeddings {
            ContextSource::Recent
        } else if query@.len() == 0 {
            ContextSource::Nothing
        } else {
            ContextSource::Semantic
        },
{
    if !embeddings {
        ContextSource::Recent
    } else if query.is_empty() {
        ContextSource::Nothing
    } else {
        ContextSource::Semantic
    }
}

/// The latest memories that go into the context.
pub fn recent_context(items: Vec<MemoryItem>) -> (r: Vec<MemoryItem>)
    ensures
        r@ == at_most(items@, PREFETCH_LIMIT as int),
{
    let mut r = items;
    if r.len() > PREFETCH_LIMIT {
        r.truncate(PREFETCH_LIMIT);
        assert(r@ =~= items@.take(PREFETCH_LIMIT as int));
    }
    r
}

} // verus!
