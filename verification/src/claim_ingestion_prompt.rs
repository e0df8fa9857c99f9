//! Prompts for claim ingestion: one call per session, given the conversation
//! and a handful of prior claims.

use vstd::prelude::*;
use vstd::string::*;
use crate::claims::{Claim, SessionMessage, SessionTranscript};
use crate::text::{is_blank, join, join_texts, same_text, tail, texts, trim, truncate_tail};

verus! {

/// Characters of transcript text handed to the model.
pub const MAX_TRANSCRIPT_CHARS: usize = 8_000;

/// Characters of the query that prior claims are looked up with.
pub const MAX_QUERY_CHARS: usize = 800;

/// What the model is told about its task.
pub const SYSTEM_PROMPT: &'static str = "You extract durable memory as atomic claims from a coding-assistant \
     conversation.\n\n\
     A claim is a single subject–predicate–object fact worth remembering across \
     sessions: a user preference, a project fact, a decision, or a reusable \
     insight. Keep each claim atomic — one fact per claim. Write `statement` as a \
     short, self-contained sentence.\n\n\
     For each claim set:\n\
     - `subject`: the entity the claim is about (usually a person, project, or \
       tool). `subject_is_entity` is almost always true.\n\
     - `predicate`: a short snake_case relation (e.g. prefers, lives_in, uses, \
       decided).\n\
     - `object`: the value. Set `object_is_entity` true when it names a distinct \
       entity (a project, tool, person), false when it is a literal value.\n\
     - `source_kind`: `user_stated` if the user asserted it directly, else \
       `assistant_inferred`.\n\
     - `confidence`: 0..1.\n\n\
     You are also given PRIOR CLAIMS with ids. If a new claim updates, refines, \
     or conflicts with a prior one, set `relation` to relate the NEW claim to \
     that prior id:\n\
     - `supersedes`: the new claim replaces an out-of-date prior claim.\n\
     - `refines`: the new claim is a more specific version of the prior one \
       (both stay true).\n\
     - `contradicts`: they genuinely conflict with no clear winner.\n\
     - `corroborates`: the new claim independently confirms the prior one.\n\
     Only set `relation` when you are confident about the target id. Omit it \
     otherwise. Return only claims that are worth remembering; return an empty \
     list if there are none.";

/// What the model is told when its answer could not be read.
pub const RETRY_PROMPT: &'static str = "Your previous response was not valid JSON matching the required schema. \
     Reply with ONLY the JSON object, no prose or code fences.";

/// The task.
pub fn system_prompt() -> (r: String)
    ensures
        r@ == SYSTEM_PROMPT@,
{
    SYSTEM_PROMPT.to_string()
}

/// One line for each prior claim: its id and what it states.
pub open spec fn prior_lines(prior: Seq<Claim>) -> Seq<char>
    decreases prior.len(),
{
    if prior.len() == 0 {
        Seq::empty()
    } else {
        prior_lines(prior.drop_last()) + "- "@ + prior.last().id@ + " — "@
            + prior.last().statement@ + "\n"@
    }
}

/// The prior claims, as they are put to the model.
pub open spec fn prior_section(prior: Seq<Claim>) -> Seq<char> {
    if prior.len() == 0 {
        "PRIOR CLAIMS: (none)\n\n"@
    } else {
        "PRIOR CLAIMS (id — statement):\n"@ + prior_lines(prior) + "\n"@
    }
}

/// The messages that say something, each with its role.
pub open spec fn spoken(messages: Seq<SessionMessage>) -> Seq<Seq<char>>
    decreases messages.len(),
{
    if messages.len() == 0 {
        Seq::empty()
    } else {
        let d = spoken(messages.drop_last());
        let m = messages.last();
        if trim(m.content@).len() == 0 {
            d
        } else {
            d.push(m.role@ + ": "@ + m.content@)
        }
    }
}

/// The conversation, as it is put to the model: its end, where it is long.
pub open spec fn transcript_text(t: SessionTranscript) -> Seq<char> {
    tail(join(spoken(t.messages@), "\n"@), MAX_TRANSCRIPT_CHARS as int)
}

/// The conversation, as it is put to the model.
pub fn render_transcript(transcript: &SessionTranscript) -> (r: String)
    ensures
        r@ == transcript_text(*transcript),
{
    let messages = &transcript.messages;
    let mut lines: Vec<String> = Vec::new();
    let mut i: usize = 0;
    assert(texts(lines@) =~= spoken(messages@.take(0)));
    while i < messages.len()
        invariant
            i <= messages@.len(),
            texts(lines@) == spoken(messages@.take(i as int)),
        decreases messages@.len() - i,
    {
        let m = &messages[i];
        let ghost before = lines@;
        proof {
            assert(messages@.take(i + 1).drop_last() =~= messages@.take(i as int));
            assert(messages@.take(i + 1).last() == messages@[i as int]);
        }
        if !is_blank(m.content.as_str()) {
            let mut line = m.role.clone();
            line.append(": ");
            line.append(m.content.as_str());
            let ghost l = line@;
            lines.push(line);
            assert(texts(lines@) =~= texts(before).push(l));
        }
        i += 1;
    }
    assert(messages@.take(i as int) =~= messages@);
    truncate_tail(join_texts(&lines, "\n").as_str(), MAX_TRANSCRIPT_CHARS)
}

/// The prior claims and the conversation, as they are put to the model.
pub fn user_prompt(transcript: &SessionTranscript, prior: &[Claim]) -> (r: String)
    ensures
        r@ == prior_section(prior@) + "CONVERSATION:\n"@ + transcript_text(*transcript),
{
    let mut out = String::new();
    if prior.len() == 0 {
        out.append("PRIOR CLAIMS: (none)\n\n");
        assert(out@ =~= prior_section(prior@));
    } else {
        out.append("PRIOR CLAIMS (id — statement):\n");
        let ghost head = "PRIOR CLAIMS (id — statement):\n"@;
        let mut i: usize = 0;
        assert(out@ =~= head + prior_lines(prior@.take(0)));
        while i < prior.len()
            invariant
                i <= prior@.len(),
                out@ == head + prior_lines(prior@.take(i as int)),
            decreases prior@.len() - i,
        {
            let ghost lines = prior_lines(prior@.take(i as int));
            let claim = &prior[i];
            proof {
                assert(prior@.take(i + 1).drop_last() =~= prior@.take(i as int));
                assert(prior@.take(i + 1).last() == prior@[i as int]);
            }
            out.append("- ");
            out.append(claim.id.as_str());
            out.append(" — ");
            out.append(claim.statement.as_str());
            out.append("\n");
            assert(out@ =~= head + (lines + "- "@ + claim.id@ + " — "@ + claim.statement@
                + "\n"@));
            i += 1;
        }
        assert(prior@.take(i as int) =~= prior@);
        out.append("\n");
    }
    out.append("CONVERSATION:\n");
    out.append(render_transcript(transcript).as_str());
    out
}

/// The contents of the messages that are not the system's.
pub open spec fn said(messages: Seq<SessionMessage>) -> Seq<Seq<char>>
    decreases messages.len(),
{
    if messages.len() == 0 {
        Seq::empty()
    } else {
        let d = said(messages.drop_last());
        if messages.last().role@ == "system"@ {
            d
        } else {
            d.push(messages.last().content@)
        }
    }
}

/// The query that prior claims are looked up with: the end of what was said.
pub fn prefetch_query(transcript: &SessionTranscript) -> (r: String)
    ensures
        r@ == tail(join(said(transcript.messages@), " "@), MAX_QUERY_CHARS as int),
{
    let messages = &transcript.messages;
    let mut parts: Vec<String> = Vec::new();
    let mut i: usize = 0;
    assert(texts(parts@) =~= said(messages@.take(0)));
    while i < messages.len()
        invariant
            i <= messages@.len(),
            texts(parts@) == said(messages@.take(i as int)),
        decreases messages@.len() - i,
    {
        let m = &messages[i];
        let ghost before = parts@;
        proof {
            assert(messages@.take(i + 1).drop_last() =~= messages@.take(i as int));
            assert(messages@.take(i + 1).last() == messages@[i as int]);
        }
        if !same_text(m.role.as_str(), "system") {
            parts.push(m.content.clone());
            assert(texts(parts@) =~= texts(before).push(m.content@));
        }
        i += 1;
    }
    assert(messages@.take(i as int) =~= messages@);
    truncate_tail(join_texts(&parts, " ").as_str(), MAX_QUERY_CHARS)
}

/// The correction after an answer that could not be read.
pub fn format_retry_prompt() -> (r: String)
    ensures
        r@ == RETRY_PROMPT@,
{
    RETRY_PROMPT.to_string()
}

} // verus!
