//! Prompts for the consolidation of the memory store: one per cluster of
//! similar items, and one over the whole store.

use vstd::prelude::*;
use vstd::slice::slice_subrange;
use vstd::string::*;
use crate::memory::MemoryItem;
use crate::text::{
    chars_of, decimal, decimal_text, join, join_texts, signed_decimal, signed_text, string_of,
    words, words_of,
};

verus! {

/// Most characters of an item's content in a consolidation prompt.
pub const MAX_CLUSTER_ITEM_CHARS: usize = 2_000;

/// Most characters of an item's content in the reflection listing.
pub const MAX_REFLECTION_ITEM_CHARS: usize = 300;

/// Most characters of a reflection prompt.
pub const MAX_REFLECTION_PROMPT_CHARS: usize = 40_000;

/// What the model is told about consolidation.
pub const CONSOLIDATION_SYSTEM_PROMPT: &'static str = "You are consolidating an assistant's long-term memory during an offline \"dream\" pass.
You are given a CLUSTER of stored memory items that are semantically similar — likely duplicates, overlapping notes, or contradictory takes on the same topic, accumulated from different sessions.

Rewrite the cluster into its minimal, most useful form:

1. MERGE duplicates/overlap into ONE canonical item per real topic. Reuse the best existing name; fold every non-redundant detail in.
2. CONTRADICTIONS are the most valuable signal — do NOT simply keep the newer item. Extract the boundary insight: state both observations and the condition under which each holds (project, version, environment, situation). A resolved contradiction usually becomes a single richer item (often an `experience`).
3. DELETE items whose content is now fully covered by a merged item. You may only delete items that appear in this cluster.
4. If the items merely look similar but are genuinely about different topics, leave them alone: output empty arrays.
5. Never invent information that is not present in the items. Keep each item's markdown content self-contained.

Field notes:
- \"kind\": preference | experience | skill | fact (keep the most fitting kind for merged content).
- \"name\": short snake_case topic identifier.
- \"scope\": the project name the item is specific to, copied from the inputs, or null when it applies globally. When merging items with different scopes into a general insight, use null.

Output ONLY a JSON object:
{\"items\": [{\"kind\": \"...\", \"name\": \"...\", \"content\": \"...\", \"scope\": \"project-or-null\"}], \"delete\": [{\"kind\": \"...\", \"name\": \"...\"}]}";

/// What the model is told about reflection, up to the number of items.
pub const REFLECTION_HEAD: &'static str = "You are reflecting over an assistant's entire long-term memory store during an offline \"dream\" pass, looking for higher-level insights that individual per-session extractions could not see.

Propose AT MOST ";

/// What the model is told about reflection, behind the number of items.
pub const REFLECTION_TAIL: &'static str = " new or rewritten items, only where the evidence is strong:

1. A repeatable procedure appearing across several `experience` items → one `skill` distilling the steps, prerequisites, and failure modes.
2. The same fact or preference recorded separately under several project scopes → one global item (scope null).
3. Two items that contradict each other → one item capturing both sides and the condition under which each holds. Contradictions are the most valuable signal; never resolve one by silently ignoring a side.

Rules:
- Reuse an existing name when rewriting that topic; otherwise choose a short snake_case name.
- Do not restate single items, summarize the store, or pad the output. No evidence, no output — an empty \"items\" array is a good answer.
- Never invent information that is not present in the items.
- The \"delete\" array must be empty: reflection only writes.

Output ONLY a JSON object:
{\"items\": [{\"kind\": \"preference|experience|skill|fact\", \"name\": \"...\", \"content\": \"...\", \"scope\": \"project-or-null\"}], \"delete\": []}";

/// What the model is told when its answer could not be read.
pub const RETRY_PROMPT: &'static str = "Your previous output could not be parsed. Output ONLY a JSON object with exactly two \
     fields: \"items\" (array of {kind, name, content, scope}) and \"delete\" (array of \
     {kind, name}). No prose, no markdown fence.";

/// The task of consolidation.
pub fn consolidation_system_prompt() -> (r: String)
    ensures
        r@ == CONSOLIDATION_SYSTEM_PROMPT@,
{
    CONSOLIDATION_SYSTEM_PROMPT.to_string()
}

/// The task of reflection, with at most `max_items` proposals.
pub fn reflection_system_prompt(max_items: usize) -> (r: String)
    ensures
        r@ == REFLECTION_HEAD@ + decimal(max_items as nat) + REFLECTION_TAIL@,
{
    let mut r = REFLECTION_HEAD.to_string();
    r.append(decimal_text(max_items as u64).as_str());
    r.append(REFLECTION_TAIL);
    r
}

/// The correction after an answer that could not be read.
pub fn format_retry_prompt() -> (r: &'static str)
    ensures
        r@ == RETRY_PROMPT@,
{
    RETRY_PROMPT
}

/// The words of a text with single blanks between them.
pub fn one_line(text: &str) -> (r: String)
    ensures
        r@ == join(words(text@), " "@),
{
    let cs = chars_of(text);
    join_texts(&words_of(&cs), " ")
}

/// A text of at most `max` characters: a longer one is cut, and ends in dots.
pub open spec fn clamped_text(s: Seq<char>, max: int) -> Seq<char> {
    if s.len() <= max {
        s
    } else if max < 3 {
        "..."@
    } else {
        s.take(max - 3) + "..."@
    }
}

/// Cuts a text to at most `max_chars` characters.
pub fn clamp(text: &str, max_chars: usize) -> (r: String)
    ensures
        r@ == clamped_text(text@, max_chars as int),
{
    let cs = chars_of(text);
    if cs.len() <= max_chars {
        return text.to_string();
    }
    let keep: usize = if max_chars < 3 {
        0
    } else {
        max_chars - 3
    };
    assert(cs@.subrange(0, keep as int) =~= cs@.take(keep as int));
    let mut r = string_of(slice_subrange(&cs, 0, keep));
    let ghost kept = r@;
    r.append("...");
    assert(keep == 0 ==> kept + "..."@ =~= "..."@);
    r
}

/// A clamped text is no longer than the bound, where the bound leaves room
/// for the dots.
pub proof fn lemma_clamped_text(s: Seq<char>, max: int)
    requires
        3 <= max,
    ensures
        clamped_text(s, max).len() <= max,
        s.len() <= max ==> clamped_text(s, max) == s,
{
    reveal_strlit("...");
}

/// The scope of an item, as the model reads it.
pub open spec fn scope_text(item: MemoryItem) -> Seq<char> {
    match item.scope {
        Some(s) => s@,
        None => "global"@,
    }
}

fn scope_of(item: &MemoryItem) -> (r: &str)
    ensures
        r@ == scope_text(*item),
{
    match &item.scope {
        Some(s) => s.as_str(),
        None => "global",
    }
}

/// One item of a cluster, as it is put to the model.
pub open spec fn cluster_entry(item: MemoryItem) -> Seq<char> {
    "### ["@ + item.kind.text() + "] "@ + item.name@ + "\n- scope: "@ + scope_text(item)
        + "\n- last updated (unix): "@ + signed_decimal(item.updated_at as int) + ", updates: "@
        + decimal(item.update_count as nat) + "\n\n"@ + clamped_text(
        item.content@,
        MAX_CLUSTER_ITEM_CHARS as int,
    ) + "\n\n"@
}

/// The items of a cluster, one after the other.
pub open spec fn cluster_entries(items: Seq<MemoryItem>) -> Seq<char>
    decreases items.len(),
{
    if items.len() == 0 {
        Seq::empty()
    } else {
        cluster_entries(items.drop_last()) + cluster_entry(items.last())
    }
}

fn entry_of(item: &MemoryItem) -> (r: String)
    ensures
        r@ == cluster_entry(*item),
{
    let mut r = "### [".to_string();
    r.append(item.kind.as_str());
    r.append("] ");
    r.append(item.name.as_str());
    r.append("\n- scope: ");
    r.append(scope_of(item));
    r.append("\n- last updated (unix): ");
    r.append(signed_text(item.updated_at).as_str());
    r.append(", updates: ");
    r.append(decimal_text(item.update_count as u64).as_str());
    r.append("\n\n");
    r.append(clamp(item.content.as_str(), MAX_CLUSTER_ITEM_CHARS).as_str());
    r.append("\n\n");
    r
}

/// A cluster, as it is put to the model.
pub fn consolidation_user_prompt(cluster: &[MemoryItem]) -> (r: String)
    ensures
        r@ == "## Cluster of similar memory items\n\n"@ + cluster_entries(cluster@)
            + "Consolidate this cluster as the specified JSON object."@,
{
    let mut r = "## Cluster of similar memory items\n\n".to_string();
    let ghost head = r@;
    let mut i: usize = 0;
    assert(head + cluster_entries(cluster@.take(0)) =~= head);
    while i < cluster.len()
        invariant
            i <= cluster@.len(),
            r@ == head + cluster_entries(cluster@.take(i as int)),
        decreases cluster@.len() - i,
    {
        let ghost d = cluster_entries(cluster@.take(i as int));
        proof {
            assert(cluster@.take(i + 1).drop_last() =~= cluster@.take(i as int));
            assert(cluster@.take(i + 1).last() == cluster@[i as int]);
            assert((head + d) + cluster_entry(cluster@[i as int]) =~= head + (d + cluster_entry(
                cluster@[i as int],
            )));
        }
        r.append(entry_of(&cluster[i]).as_str());
        i += 1;
    }
    assert(cluster@.take(i as int) =~= cluster@);
    r.append("Consolidate this cluster as the specified JSON object.");
    r
}

/// One item of the listing of the store.
pub open spec fn listing_entry(item: MemoryItem) -> Seq<char> {
    "- ["@ + item.kind.text() + "] "@ + item.name@ + " (scope: "@ + scope_text(item) + "): "@
        + clamped_text(join(words(item.content@), " "@), MAX_REFLECTION_ITEM_CHARS as int)
        + "\n"@
}

/// The listing of items.
pub open spec fn listing_entries(items: Seq<MemoryItem>) -> Seq<char>
    decreases items.len(),
{
    if items.len() == 0 {
        Seq::empty()
    } else {
        listing_entries(items.drop_last()) + listing_entry(items.last())
    }
}

fn line_of(item: &MemoryItem) -> (r: String)
    ensures
        r@ == listing_entry(*item),
{
    let mut r = "- [".to_string();
    r.append(item.kind.as_str());
    r.append("] ");
    r.append(item.name.as_str());
    r.append(" (scope: ");
    r.append(scope_of(item));
    r.append("): ");
    let line = one_line(item.content.as_str());
    r.append(clamp(line.as_str(), MAX_REFLECTION_ITEM_CHARS).as_str());
    r.append("\n");
    r
}

/// The whole store, as it is put to the model.
pub fn reflection_user_prompt(items: &[MemoryItem]) -> (r: String)
    ensures
        r@ == clamped_text(
            "## All stored memory items\n\n"@ + listing_entries(items@)
                + "\nReflect over the store as the specified JSON object."@,
            MAX_REFLECTION_PROMPT_CHARS as int,
        ),
{
    let mut r = "## All stored memory items\n\n".to_string();
    let ghost head = r@;
    let mut i: usize = 0;
    assert(head + listing_entries(items@.take(0)) =~= head);
    while i < items.len()
        invariant
            i <= items@.len(),
            r@ == head + listing_entries(items@.take(i as int)),
        decreases items@.len() - i,
    {
        let ghost d = listing_entries(items@.take(i as int));
        proof {
            assert(items@.take(i + 1).drop_last() =~= items@.take(i as int));
            assert(items@.take(i + 1).last() == items@[i as int]);
            assert((head + d) + listing_entry(items@[i as int]) =~= head + (d + listing_entry(
                items@[i as int],
            )));
        }
        r.append(line_of(&items[i]).as_str());
        i += 1;
    }
    assert(items@.take(i as int) =~= items@);
    r.append("\nReflect over the store as the specified JSON object.");
    clamp(r.as_str(), MAX_REFLECTION_PROMPT_CHARS)
}

} // verus!
