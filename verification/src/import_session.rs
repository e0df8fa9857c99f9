//! Import of a finished session into the memory store.

use vstd::prelude::*;
use vstd::string::*;
use crate::claims::{SessionMessage, SessionTranscript};
use crate::domain::DomainError;
use crate::memory_extraction::{ExtractionReport, count_writes};
use crate::text::{decimal, decimal_text, is_blank, trim};

verus! {

/// The number of messages that say something below which a session is not
/// worth importing.
pub const MIN_MESSAGES: usize = 2;

/// The mark that a session was imported.
#[derive(Debug)]
pub struct ImportedSession {
    pub id: String,
    pub source: String,
    pub imported_at: i64,
    pub message_count: usize,
    pub items_written: usize,
}

/// Outcome of an import request.
pub enum ImportOutcome {
    /// Extraction ran; the report describes what was written.
    Imported { session: ImportedSession, report: ExtractionReport },
    /// The session was imported before and a repeat was not asked for.
    AlreadyImported { session: ImportedSession },
}

/// The number of messages that say something.
pub open spec fn count_spoken(messages: Seq<SessionMessage>) -> nat
    decreases messages.len(),
{
    if messages.len() == 0 {
        0
    } else {
        count_spoken(messages.drop_last()) + if trim(messages.last().content@).len() > 0 {
            1nat
        } else {
            0
        }
    }
}

/// What is said of a session that is not worth importing.
pub open spec fn too_short(id: Seq<char>, n: nat) -> Seq<char> {
    "transcript '"@ + id + "' has only "@ + decimal(n) + " non-empty messages (minimum "@
        + decimal(MIN_MESSAGES as nat) + ")"@
}

/// Checks that a session is worth importing.
pub fn check_transcript(transcript: &SessionTranscript) -> (r: Result<(), DomainError>)
    ensures
        r is Ok == (count_spoken(transcript.messages@) >= MIN_MESSAGES),
        r matches Err(e) ==> e is InvalidInput && e->InvalidInput_0@ == too_short(
            transcript.id@,
            count_spoken(transcript.messages@),
        ),
{
    let messages = &transcript.messages;
    let mut n: usize = 0;
    let mut i: usize = 0;
    while i < messages.len()
        invariant
            i <= messages@.len(),
            n <= i,
            n == count_spoken(messages@.take(i as int)),
        decreases messages@.len() - i,
    {
        proof {
            assert(messages@.take(i + 1).drop_last() =~= messages@.take(i as int));
            assert(messages@.take(i + 1).last() == messages@[i as int]);
        }
        if !is_blank(messages[i].content.as_str()) {
            n += 1;
        }
        i += 1;
    }
    assert(messages@.take(i as int) =~= messages@);
    if n >= MIN_MESSAGES {
        return Ok(());
    }
    let mut message = "transcript '".to_string();
    message.append(transcript.id.as_str());
    message.append("' has only ");
    message.append(decimal_text(n as u64).as_str());
    message.append(" non-empty messages (minimum ");
    message.append(decimal_text(MIN_MESSAGES as u64).as_str());
    message.append(")");
    Err(DomainError::InvalidInput(message))
}

/// Whether the store is asked for an earlier import, and whether what it found
/// ends the matter: a forced import goes ahead in any case.
pub fn already_imported(force: bool, found: Option<ImportedSession>) -> (r: Option<ImportOutcome>)
    ensures
        r is Some == (!force && found is Some),
        r matches Some(o) ==> o == (ImportOutcome::AlreadyImported { session: found->0 }),
{
    if force {
        return None;
    }
    match found {
        Some(session) => Some(ImportOutcome::AlreadyImported { session }),
        None => None,
    }
}

/// The mark of a session whose extraction gave `report`.
pub fn imported_session(
    transcript: &SessionTranscript,
    report: &ExtractionReport,
    now: i64,
) -> (r: ImportedSession)
    ensures
        r.id == transcript.id,
        r.source == transcript.source,
        r.imported_at == now,
        r.message_count == transcript.messages@.len(),
        r.items_written == count_writes(report.applied@),
{
    ImportedSession {
        id: transcript.id.clone(),
        source: transcript.source.clone(),
        imported_at: now,
        message_count: transcript.messages.len(),
        items_written: report.items_written(),
    }
}

} // verus!
