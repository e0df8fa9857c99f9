//! Prompts for the consolidation of the claim graph: one call per cluster of
//! near-duplicate claims.

use vstd::prelude::*;
use vstd::string::*;
use crate::claims::Claim;

verus! {

/// What the model is told about its task.
pub const SYSTEM_PROMPT: &'static str = "You consolidate long-term memory by abstracting patterns across specific \
     claims.\n\n\
     You are given a cluster of closely-related claims. If they share a \
     generalizable pattern, return one or two higher-level claims that capture \
     it (e.g. several 'worked late before the March release' episodes → 'tends \
     to work late around releases'). Each derived claim is a short, \
     self-contained statement plus a confidence in 0..1.\n\n\
     Rules:\n\
     - Only generalize when the cluster genuinely supports it. If the claims are \
       just near-duplicates with nothing higher-level to say, return an empty \
       list.\n\
     - Do not restate a single claim verbatim; a derived claim must add \
       abstraction over the specifics.\n\
     - Keep derived confidence at or below the confidence of the specifics.";

/// What the model is told when its answer could not be read.
pub const RETRY_PROMPT: &'static str = "Your previous response was not valid JSON matching the required schema. \
     Reply with ONLY the JSON object, no prose or code fences.";

/// The task.
pub fn system_prompt() -> (r: String)
    ensures
        r@ == SYSTEM_PROMPT@,
{
    SYSTEM_PROMPT.to_string()
}

/// One line for each claim.
pub open spec fn claim_lines(cluster: Seq<Claim>) -> Seq<char>
    decreases cluster.len(),
{
    if cluster.len() == 0 {
        Seq::empty()
    } else {
        claim_lines(cluster.drop_last()) + "- "@ + cluster.last().statement@ + "\n"@
    }
}

/// The cluster, as it is put to the model.
pub fn user_prompt(cluster: &[Claim]) -> (r: String)
    ensures
        r@ == "CLUSTER OF RELATED CLAIMS:\n"@ + claim_lines(cluster@)
            + "\nReturn higher-level claims that generalize this cluster, or an empty list."@,
{
    let mut out = "CLUSTER OF RELATED CLAIMS:\n".to_string();
    let ghost head = out@;
    let mut i: usize = 0;
    assert(head + claim_lines(cluster@.take(0)) =~= head);
    while i < cluster.len()
        invariant
            i <= cluster@.len(),
            out@ == head + claim_lines(cluster@.take(i as int)),
        decreases cluster@.len() - i,
    {
        let ghost lines = claim_lines(cluster@.take(i as int));
        proof {
            assert(cluster@.take(i + 1).drop_last() =~= cluster@.take(i as int));
            assert(cluster@.take(i + 1).last() == cluster@[i as int]);
        }
        out.append("- ");
        out.append(cluster[i].statement.as_str());
        out.append("\n");
        assert(out@ =~= head + (lines + "- "@ + cluster@[i as int].statement@ + "\n"@));
        i += 1;
    }
    assert(cluster@.take(i as int) =~= cluster@);
    out.append("\nReturn higher-level claims that generalize this cluster, or an empty list.");
    out
}

/// The correction after an answer that could not be read.
pub fn format_retry_prompt() -> (r: String)
    ensures
        r@ == RETRY_PROMPT@,
{
    RETRY_PROMPT.to_string()
}

} // verus!
