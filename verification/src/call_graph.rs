//! Queries to the call graph and what its store says of it.

use vstd::prelude::*;
use vstd::string::*;
use crate::domain::Language;
use crate::text::{copy_opt, decimal, decimal_text};

verus! {

/// Options for call graph lookups.
#[derive(Debug)]
pub struct CallGraphQuery {
    /// Only this repository.
    pub repository_id: Option<String>,
    /// Only this language.
    pub language: Option<String>,
    /// Only this kind of reference.
    pub reference_kind: Option<String>,
    /// At most so many results.
    pub limit: Option<u32>,
    /// Whether symbols are regular expressions.
    pub use_regex: bool,
}

impl CallGraphQuery {
    /// The query that asks for everything.
    pub fn new() -> (r: CallGraphQuery)
        ensures
            r == (CallGraphQuery {
                repository_id: None,
                language: None,
                reference_kind: None,
                limit: None,
                use_regex: false,
            }),
    {
        CallGraphQuery {
            repository_id: None,
            language: None,
            reference_kind: None,
            limit: None,
            use_regex: false,
        }
    }

    pub fn with_repository(self, repository_id: String) -> (r: CallGraphQuery)
        ensures
            r == (CallGraphQuery { repository_id: Some(repository_id), ..self }),
    {
        CallGraphQuery { repository_id: Some(repository_id), ..self }
    }

    pub fn with_language(self, language: String) -> (r: CallGraphQuery)
        ensures
            r == (CallGraphQuery { language: Some(language), ..self }),
    {
        CallGraphQuery { language: Some(language), ..self }
    }

    pub fn with_reference_kind(self, kind: String) -> (r: CallGraphQuery)
        ensures
            r == (CallGraphQuery { reference_kind: Some(kind), ..self }),
    {
        CallGraphQuery { reference_kind: Some(kind), ..self }
    }

    pub fn with_limit(self, limit: u32) -> (r: CallGraphQuery)
        ensures
            r == (CallGraphQuery { limit: Some(limit), ..self }),
    {
        CallGraphQuery { limit: Some(limit), ..self }
    }

    /// A copy.
    pub fn copied(&self) -> (r: CallGraphQuery)
        ensures
            r == *self,
    {
        CallGraphQuery {
            repository_id: copy_opt(&self.repository_id),
            language: copy_opt(&self.language),
            reference_kind: copy_opt(&self.reference_kind),
            limit: self.limit,
            use_regex: self.use_regex,
        }
    }

    /// The query with its symbols taken as regular expressions.
    pub fn with_regex(self) -> (r: CallGraphQuery)
        ensures
            r == (CallGraphQuery { use_regex: true, ..self }),
    {
        CallGraphQuery { use_regex: true, ..self }
    }
}

/// Statistics about the call graph of a repository.
#[derive(Debug)]
pub struct CallGraphStats {
    /// Number of references.
    pub total_references: u64,
    /// Number of different callers.
    pub unique_callers: u64,
    /// Number of different callees.
    pub unique_callees: u64,
    /// References by kind.
    pub by_reference_kind: Vec<(String, u64)>,
    /// References by language.
    pub by_language: Vec<(String, u64)>,
}

impl CallGraphStats {
    /// The statistics of an empty graph.
    pub fn empty() -> (r: CallGraphStats)
        ensures
            r.total_references == 0,
            r.unique_callers == 0,
            r.unique_callees == 0,
            r.by_reference_kind@.len() == 0,
            r.by_language@.len() == 0,
    {
        CallGraphStats {
            total_references: 0,
            unique_callers: 0,
            unique_callees: 0,
            by_reference_kind: Vec::new(),
            by_language: Vec::new(),
        }
    }
}

/// Whether the exports of a file in the language are read ahead.
pub fn scans_exports(language: Language) -> (r: bool)
    ensures
        r == (language == Language::JavaScript || language == Language::TypeScript),
{
    language == Language::JavaScript || language == Language::TypeScript
}

/// The entry of a file in the index of exports: none without exports, and none
/// for a language whose exports are not read ahead.
pub fn export_entry(path: String, language: Language, exports: Vec<String>) -> (r: Option<
    (String, Vec<String>),
>)
    ensures
        r is Some == (exports@.len() > 0 && (language == Language::JavaScript || language
            == Language::TypeScript)),
        r matches Some((p, e)) ==> p == path && e == exports,
{
    if scans_exports(language) && exports.len() > 0 {
        Some((path, exports))
    } else {
        None
    }
}

/// The message for references that could not be saved.
pub fn save_failure(count: u64) -> (r: String)
    ensures
        r@ == "failed to save "@ + decimal(count as nat) + " references for indexing"@,
{
    let mut r = "failed to save ".to_string();
    r.append(decimal_text(count).as_str());
    r.append(" references for indexing");
    r
}

} // verus!
