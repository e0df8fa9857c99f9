//! What the memory keeps, and what its guardrails promise.

use vstd::prelude::*;
use crate::claim_dream::{
    ClaimDreamRun, Derivation, RawDerived, abstracts, accepted, all_covered, derived_confidence,
    is_covered, is_refinement, lemma_derived_confidence, primaries_of, weakest,
};
use crate::claim_ingestion::{
    IngestionRun, RawClaim, fate_of_target, honoured, is_claim, is_new_entity,
};
use crate::claim_recall::{RecallRun, Recalled, neighbor_ids};
use crate::claims::{
    Claim, ClaimEdge, EdgeType, Entity, SessionMessage, SessionTranscript, claim_ids, clamped,
};
use crate::import_session::{MIN_MESSAGES, count_spoken, too_short};
use crate::memory::{MemoryItem, MemoryKind, MemoryOperation, OperationView, is_written};
use crate::memory_browse::{MEMORY_ROOT_URI, MemoryEntry, MemoryNode, item_entries, node_entries};
use crate::memory_dream::{
    DiscoveredSession, DreamRun, HarvestRun, ItemKey, RawDreamItem, capped_reflection,
    deletes_allowed, dream_writes, is_finished, meant_scope,
};
use crate::memory_extraction::{
    ExtractionOutput, ExtractionReport, RawDelete, RawItem, count_writes, deletes_of, extracted,
    name_chars, normal_name, writes_of,
};
use crate::order::{Ranked, arranged, lemma_arranged};
use crate::picks::{count_where, gives, lemma_picks, picks};
use crate::text::{contains_text, decimal, is_space, opt_text, texts, trim, trim_end, trim_start};
use crate::unicode::{alphanumeric_char, ascii_lower};

verus! {

/// A write over an item keeps its id, its date of making and, unless another is
/// given, its source; it takes the new content and counts one more update. A
/// first write dates the item, counts none and has the source that is given.
pub proof fn lemma_write_keeps_identity(
    r: MemoryItem,
    existing: Option<MemoryItem>,
    kind: MemoryKind,
    name: Seq<char>,
    content: Seq<char>,
    scope: Option<Seq<char>>,
    source: Option<Seq<char>>,
    now: i64,
)
    requires
        is_written(r, existing, kind, name, content, scope, source, now),
    ensures
        r.kind == kind && r.name@ == name && r.content@ == content && opt_text(r.scope) == scope,
        r.updated_at == now,
        existing matches Some(prev) ==> r.id@ == prev.id@ && r.created_at == prev.created_at
            && r.update_count == prev.update_count + 1,
        existing matches Some(prev) ==> source is None ==> opt_text(r.source_session_id)
            == opt_text(prev.source_session_id),
        existing is None ==> r.created_at == now && r.update_count == 0,
        source is Some ==> opt_text(r.source_session_id) == source,
        existing is None && source is None ==> r.source_session_id is None,
{
}

/// Two writes of one item leave one item: made when the first was, updated when
/// the second was, once.
pub proof fn lemma_two_writes(
    a: MemoryItem,
    b: MemoryItem,
    kind: MemoryKind,
    name: Seq<char>,
    first: Seq<char>,
    second: Seq<char>,
    now: i64,
    later: i64,
)
    requires
        is_written(a, None, kind, name, first, None, None, now),
        is_written(b, Some(a), kind, name, second, None, None, later),
    ensures
        b.id@ == a.id@,
        b.created_at == now,
        b.updated_at == later,
        b.update_count == 1,
        b.content@ == second,
{
}

spec fn write_of(kind: MemoryKind) -> spec_fn(RawItem) -> Option<OperationView> {
    |i: RawItem|
        match normal_name(i.name@) {
            Some(name) if trim(i.content@).len() > 0 => Some(
                OperationView::Upsert { kind, name, content: trim(i.content@), scope: None },
            ),
            _ => None,
        }
}

proof fn lemma_writes_of(kind: MemoryKind, items: Seq<RawItem>)
    ensures
        writes_of(kind, items) == picks(items, write_of(kind)),
    decreases items.len(),
{
    if items.len() > 0 {
        lemma_writes_of(kind, items.drop_last());
    }
}

/// One of the items is meant: it has the name in its normal form, and the content
/// but for space around it, which is not empty.
pub open spec fn is_meant(items: Seq<RawItem>, name: Seq<char>, content: Seq<char>) -> bool {
    exists|i: int|
        0 <= i < items.len() && normal_name((#[trigger] items[i]).name@) == Some(name) && trim(
            items[i].content@,
        ) == content && content.len() > 0
}

/// Of what the model gave, exactly the items with a name and a content are
/// written, each under the kind that it was listed with.
pub proof fn lemma_extracted_writes(
    o: ExtractionOutput,
    kind: MemoryKind,
    name: Seq<char>,
    content: Seq<char>,
)
    ensures
        extracted(o).contains((OperationView::Upsert { kind, name, content, scope: None }))
            <==> is_meant(
            match kind {
                MemoryKind::Preference => o.preferences@,
                MemoryKind::Experience => o.experiences@,
                MemoryKind::Skill => o.skills@,
                MemoryKind::Fact => o.facts@,
            },
            name,
            content,
        ),
{
    let x = OperationView::Upsert { kind, name, content, scope: None };
    let a = writes_of(MemoryKind::Preference, o.preferences@);
    let b = writes_of(MemoryKind::Experience, o.experiences@);
    let c = writes_of(MemoryKind::Skill, o.skills@);
    let d = writes_of(MemoryKind::Fact, o.facts@);
    let e = deletes_of(o.delete@);
    lemma_meant(MemoryKind::Preference, o.preferences@, kind, name, content);
    lemma_meant(MemoryKind::Experience, o.experiences@, kind, name, content);
    lemma_meant(MemoryKind::Skill, o.skills@, kind, name, content);
    lemma_meant(MemoryKind::Fact, o.facts@, kind, name, content);
    lemma_deletes_only(o.delete@, x);
    lemma_contains_add(a, b, x);
    lemma_contains_add(a + b, c, x);
    lemma_contains_add(a + b + c, d, x);
    lemma_contains_add(a + b + c + d, e, x);
}

proof fn lemma_contains_add<A>(a: Seq<A>, b: Seq<A>, x: A)
    ensures
        (a + b).contains(x) <==> a.contains(x) || b.contains(x),
{
    if a.contains(x) {
        let k = choose|k: int| 0 <= k < a.len() && a[k] == x;
        assert((a + b)[k] == x);
    }
    if b.contains(x) {
        let k = choose|k: int| 0 <= k < b.len() && b[k] == x;
        assert((a + b)[a.len() + k] == x);
    }
    if (a + b).contains(x) {
        let k = choose|k: int| 0 <= k < (a + b).len() && (a + b)[k] == x;
        if k < a.len() {
            assert(a[k] == x);
        } else {
            assert(b[k - a.len()] == x);
        }
    }
}

proof fn lemma_meant(
    listed: MemoryKind,
    items: Seq<RawItem>,
    kind: MemoryKind,
    name: Seq<char>,
    content: Seq<char>,
)
    ensures
        writes_of(listed, items).contains(
            (OperationView::Upsert { kind, name, content, scope: None }),
        ) <==> kind == listed && is_meant(items, name, content),
{
    let f = write_of(listed);
    let x = OperationView::Upsert { kind, name, content, scope: None };
    lemma_writes_of(listed, items);
    lemma_picks(items, f);
    assert(picks(items, f).contains(x) <==> gives(items, f, x));
    if gives(items, f, x) {
        let i = choose|i: int| 0 <= i < items.len() && f(#[trigger] items[i]) == Some(x);
        assert(normal_name(items[i].name@) == Some(name));
    }
    if kind == listed && is_meant(items, name, content) {
        let i = choose|i: int|
            0 <= i < items.len() && normal_name((#[trigger] items[i]).name@) == Some(name) && trim(
                items[i].content@,
            ) == content && content.len() > 0;
        assert(f(items[i]) == Some(x));
    }
}

proof fn lemma_deletes_only(deletes: Seq<RawDelete>, x: OperationView)
    requires
        x is Upsert,
    ensures
        !deletes_of(deletes).contains(x),
    decreases deletes.len(),
{
    if deletes.len() > 0 {
        let d = deletes.drop_last();
        lemma_deletes_only(d, x);
        let all = deletes_of(deletes);
        let before = deletes_of(d);
        if all.contains(x) {
            let k = choose|k: int| 0 <= k < all.len() && all[k] == x;
            if k < before.len() {
                assert(before[k] == x);
            }
        }
    }
}

/// What is to be deleted is what the model listed, by a kind that exists and a
/// name in its normal form.
pub proof fn lemma_extracted_deletes(
    deletes: Seq<RawDelete>,
    kind: MemoryKind,
    name: Seq<char>,
)
    ensures
        deletes_of(deletes).contains((OperationView::Delete { kind, name })) <==> exists|i: int|
            0 <= i < deletes.len() && MemoryKind::named((#[trigger] deletes[i]).kind@) == Some(kind)
                && normal_name(deletes[i].name@) == Some(name),
    decreases deletes.len(),
{
    let x = OperationView::Delete { kind, name };
    if deletes.len() > 0 {
        let d = deletes.drop_last();
        lemma_extracted_deletes(d, kind, name);
        let before = deletes_of(d);
        let all = deletes_of(deletes);
        let last = deletes.last();
        if before.contains(x) {
            let k = choose|k: int| 0 <= k < before.len() && before[k] == x;
            assert(all[k] == x);
            let i = choose|i: int|
                0 <= i < d.len() && MemoryKind::named((#[trigger] d[i]).kind@) == Some(kind)
                    && normal_name(d[i].name@) == Some(name);
            assert(deletes[i] == d[i]);
        } else if all.contains(x) {
            let k = choose|k: int| 0 <= k < all.len() && all[k] == x;
            if k < before.len() {
                assert(before[k] == x);
            }
            assert(deletes[deletes.len() - 1] == last);
        }
        if exists|i: int|
            0 <= i < deletes.len() && MemoryKind::named((#[trigger] deletes[i]).kind@) == Some(kind)
                && normal_name(deletes[i].name@) == Some(name) {
            let i = choose|i: int|
                0 <= i < deletes.len() && MemoryKind::named((#[trigger] deletes[i]).kind@) == Some(
                    kind,
                ) && normal_name(deletes[i].name@) == Some(name);
            if i < d.len() {
                assert(d[i] == deletes[i]);
            } else {
                assert(all[before.len() as int] == x);
            }
        }
    }
}

/// The names of the kinds of memory.
pub proof fn lemma_kind_names()
    ensures
        MemoryKind::named("preference"@) == Some(MemoryKind::Preference),
        MemoryKind::named("experience"@) == Some(MemoryKind::Experience),
        MemoryKind::named("skill"@) == Some(MemoryKind::Skill),
        MemoryKind::named("fact"@) == Some(MemoryKind::Fact),
        MemoryKind::named(""@) is None,
{
    reveal_strlit("preference");
    reveal_strlit("experience");
    reveal_strlit("skill");
    reveal_strlit("fact");
    reveal_strlit("");
    assert("preference"@[0] != "experience"@[0]);
    assert("skill"@.len() == 5 && "fact"@.len() == 4 && ""@.len() == 0);
}

/// One extraction applies at most twenty-four operations: a write is written and
/// a deletion deleted before that, and everything is refused after.
pub proof fn lemma_extraction_limit(r: ExtractionReport, op: MemoryOperation)
    ensures
        r.applied@.len() >= 24 ==> r.step_for(op) is Refuse,
        r.applied@.len() < 24 && op is Upsert ==> r.step_for(op) is Write,
        r.applied@.len() < 24 && op is Delete ==> r.step_for(op) is Delete,
        count_writes(r.applied@) == count_where(r.applied@, |o: MemoryOperation| o is Upsert),
{
    lemma_count_writes(r.applied@, |o: MemoryOperation| o is Upsert);
}

proof fn lemma_count_writes(ops: Seq<MemoryOperation>, p: spec_fn(MemoryOperation) -> bool)
    requires
        forall|o: MemoryOperation| #[trigger] p(o) == (o is Upsert),
    ensures
        count_writes(ops) == count_where(ops, p),
    decreases ops.len(),
{
    if ops.len() > 0 {
        lemma_count_writes(ops.drop_last(), p);
        assert(p(ops.last()) == (ops.last() is Upsert));
    }
}

/// A name in its normal form has letters, digits and underscores only.
pub proof fn lemma_name_characters(lowered: Seq<char>)
    ensures
        forall|i: int|
            0 <= i < name_chars(lowered).len() ==> crate::unicode::alphanumeric_char(
                #[trigger] name_chars(lowered)[i],
            ) || name_chars(lowered)[i] == '_',
        forall|i: int|
            0 <= i < lowered.len() && crate::unicode::alphanumeric_char(#[trigger] lowered[i])
                && !is_space(lowered[i]) && lowered[i] != '-' ==> name_chars(lowered).contains(
                lowered[i],
            ),
    decreases lowered.len(),
{
    if lowered.len() > 0 {
        let d = lowered.drop_last();
        lemma_name_characters(d);
        let before = name_chars(d);
        let all = name_chars(lowered);
        assert forall|i: int| 0 <= i < all.len() implies crate::unicode::alphanumeric_char(
            #[trigger] all[i],
        ) || all[i] == '_' by {
            if i < before.len() {
                assert(before[i] == all[i]);
            }
        }
        assert forall|i: int|
            0 <= i < lowered.len() && crate::unicode::alphanumeric_char(#[trigger] lowered[i])
                && !is_space(lowered[i]) && lowered[i] != '-' implies all.contains(lowered[i]) by {
            if i < d.len() {
                assert(d[i] == lowered[i]);
                assert(before.contains(d[i]));
                let k = choose|k: int| 0 <= k < before.len() && before[k] == d[i];
                assert(all[k] == d[i]);
            } else {
                assert(all[before.len() as int] == lowered[i]);
            }
        }
    }
}

/// Reflection writes at most five items, the first that were proposed; what is
/// within the limit is kept as it is, and no deletion is lost here.
pub proof fn lemma_reflection_is_capped(ops: Seq<MemoryOperation>)
    ensures
        count_writes(capped_reflection(ops)) <= 5,
        count_writes(capped_reflection(ops)) == if count_writes(ops) < 5 {
            count_writes(ops)
        } else {
            5
        },
        count_writes(ops) <= 5 ==> capped_reflection(ops) == ops,
        forall|o: MemoryOperation| #[trigger]
            capped_reflection(ops).contains(o) ==> ops.contains(o),
        forall|o: MemoryOperation| #[trigger]
            ops.contains(o) && o is Delete ==> capped_reflection(ops).contains(o),
    decreases ops.len(),
{
    if ops.len() > 0 {
        let d = ops.drop_last();
        lemma_reflection_is_capped(d);
        let before = capped_reflection(d);
        let all = capped_reflection(ops);
        let last = ops.last();
        if all.len() > before.len() {
            assert(all.drop_last() =~= before);
        }
        assert(d.push(last) =~= ops);
        assert(ops[ops.len() - 1] == last);
        assert forall|o: MemoryOperation| #[trigger] all.contains(o) implies ops.contains(o) by {
            let k = choose|k: int| 0 <= k < all.len() && all[k] == o;
            if k < before.len() {
                assert(before[k] == o);
                assert(before.contains(o));
                let m = choose|m: int| 0 <= m < d.len() && d[m] == o;
                assert(ops[m] == o);
            }
        }
        assert forall|o: MemoryOperation| #[trigger]
            ops.contains(o) && o is Delete implies all.contains(o) by {
            let m = choose|m: int| 0 <= m < ops.len() && ops[m] == o;
            if m < d.len() {
                assert(d[m] == o);
                assert(d.contains(o));
                let k = choose|k: int| 0 <= k < before.len() && before[k] == o;
                assert(all[k] == o);
            } else {
                assert(all[before.len() as int] == o);
            }
        }
    }
}

/// What a cycle may delete: only items that were shown to it, none that it wrote
/// itself, no more than its budget, and nothing once it has applied thirty-two
/// operations. Within these bounds every deletion is granted.
pub proof fn lemma_dream_deletes(
    run: DreamRun,
    kind: MemoryKind,
    name: String,
    deletable: Seq<ItemKey>,
)
    ensures
        run.step_for(MemoryOperation::Delete { kind, name }, deletable) is Delete <==> {
            &&& run.report.applied@.len() < 32
            &&& run.deletes_used < run.delete_budget
            &&& exists|k: int|
                0 <= k < deletable.len() && (#[trigger] deletable[k]).kind == kind
                    && deletable[k].name@ == name@
            &&& forall|i: int|
                0 <= i < run.report.applied@.len() ==> !((
                #[trigger] run.report.applied@[i]) matches MemoryOperation::Upsert {
                    kind: k,
                    name: n,
                    ..
                } && k == kind && n@ == name@)
        },
{
}

/// What a cycle writes: anything, until it has applied thirty-two operations.
pub proof fn lemma_dream_writes(run: DreamRun, op: MemoryOperation, deletable: Seq<ItemKey>)
    requires
        op is Upsert,
    ensures
        run.step_for(op, deletable) is Write <==> run.report.applied@.len() < 32,
        run.refusal(op, deletable, true) is None <==> run.report.applied@.len() < 32,
{
}

/// A session is finished if and only if it is dated and has been idle for as long
/// as asked; once finished it stays so.
pub proof fn lemma_finished(s: DiscoveredSession, now: int, later: int, idle: int)
    requires
        now <= later,
    ensures
        s.updated_at <= 0 ==> !is_finished(s, now, idle),
        now < s.updated_at + idle ==> !is_finished(s, now, idle),
        s.updated_at > 0 && now >= s.updated_at + idle ==> is_finished(s, now, idle),
        is_finished(s, now, idle) ==> is_finished(s, later, idle),
{
}

/// Nodes are browsed from the rollup over sessions to resources; within a kind
/// the root comes first and then the newest.
pub proof fn lemma_browse_order(nodes: Seq<MemoryNode>, i: int, j: int)
    requires
        0 <= i < j < nodes.len(),
    ensures
        ({
            let a = arranged(nodes)[i];
            let b = arranged(nodes)[j];
            &&& b.kind is Memory ==> a.kind is Memory
            &&& b.kind is Session ==> a.kind is Memory || a.kind is Session
            &&& a.kind is Resource ==> b.kind is Resource
            &&& a.kind == b.kind && b.uri@ == MEMORY_ROOT_URI@ ==> a.uri@ == MEMORY_ROOT_URI@
            &&& a.kind == b.kind && (a.uri@ == MEMORY_ROOT_URI@) == (b.uri@ == MEMORY_ROOT_URI@)
                ==> a.updated_at >= b.updated_at
        }),
{
    lemma_arranged(nodes);
    assert(!arranged(nodes)[j].ranks_before(arranged(nodes)[i]));
}

/// Found memories come by falling score, items and nodes alike.
pub proof fn lemma_found_by_score(entries: Seq<MemoryEntry>, i: int, j: int)
    requires
        0 <= i < j < entries.len(),
    ensures
        ({
            let a = arranged(entries)[i];
            let b = arranged(entries)[j];
            let x = match a {
                MemoryEntry::Item { score, .. } => score,
                MemoryEntry::Node { score, .. } => score,
            };
            let y = match b {
                MemoryEntry::Item { score, .. } => score,
                MemoryEntry::Node { score, .. } => score,
            };
            x >= y
        }),
{
    lemma_arranged(entries);
    assert(!arranged(entries)[j].ranks_before(arranged(entries)[i]));
}

/// A message counts as spoken if it is more than space; a session takes two.
pub proof fn lemma_spoken(messages: Seq<SessionMessage>)
    ensures
        count_spoken(messages) == count_where(messages, has_words()),
        MIN_MESSAGES == 2,
    decreases messages.len(),
{
    if messages.len() > 0 {
        lemma_spoken(messages.drop_last());
        lemma_trim_is_empty(messages.last().content@);
    }
}

/// The message has a character that is no space.
pub open spec fn has_words() -> spec_fn(SessionMessage) -> bool {
    |m: SessionMessage|
        exists|i: int| 0 <= i < m.content@.len() && !is_space(#[trigger] m.content@[i])
}

/// Trimming leaves nothing if and only if there is nothing but space.
pub proof fn lemma_trim_is_empty(s: Seq<char>)
    ensures
        trim(s).len() > 0 <==> exists|i: int| 0 <= i < s.len() && !is_space(#[trigger] s[i]),
{
    lemma_trim_start_words(s);
    let t = trim_start(s);
    lemma_trim_end_words(t);
    if exists|i: int| 0 <= i < t.len() && !is_space(#[trigger] t[i]) {
        let i = choose|i: int| 0 <= i < t.len() && !is_space(#[trigger] t[i]);
        assert(!is_space(s[s.len() - t.len() + i]));
    }
    if exists|i: int| 0 <= i < s.len() && !is_space(#[trigger] s[i]) {
        let i = choose|i: int| 0 <= i < s.len() && !is_space(#[trigger] s[i]);
        let n = s.len() - t.len();
        assert(i >= n);
        assert(!is_space(t[i - n]));
    }
}

/// What is cut off in front is space.
pub proof fn lemma_trim_start_words(s: Seq<char>)
    ensures
        trim_start(s).len() <= s.len(),
        forall|i: int|
            0 <= i < trim_start(s).len() ==> #[trigger] trim_start(s)[i] == s[s.len() - trim_start(
                s,
            ).len() + i],
        forall|i: int| 0 <= i < s.len() - trim_start(s).len() ==> is_space(#[trigger] s[i]),
        trim_start(s).len() > 0 ==> !is_space(trim_start(s)[0]),
    decreases s.len(),
{
    if s.len() > 0 && is_space(s[0]) {
        let d = s.skip(1);
        lemma_trim_start_words(d);
        let t = trim_start(s);
        assert forall|i: int| 0 <= i < s.len() - t.len() implies is_space(#[trigger] s[i]) by {
            if i > 0 {
                assert(is_space(d[i - 1]));
            }
        }
        assert forall|i: int| 0 <= i < t.len() implies #[trigger] t[i] == s[s.len() - t.len()
            + i] by {
            assert(t[i] == d[d.len() - t.len() + i]);
        }
    }
}

/// What is cut off behind is space.
pub proof fn lemma_trim_end_words(s: Seq<char>)
    ensures
        trim_end(s).len() <= s.len(),
        trim_end(s) == s.take(trim_end(s).len() as int),
        forall|i: int| trim_end(s).len() <= i < s.len() ==> is_space(#[trigger] s[i]),
        trim_end(s).len() > 0 ==> !is_space(trim_end(s).last()),
    decreases s.len(),
{
    if s.len() > 0 && is_space(s.last()) {
        let d = s.drop_last();
        lemma_trim_end_words(d);
        let t = trim_end(s);
        assert(s.take(t.len() as int) =~= d.take(t.len() as int));
        assert forall|i: int| t.len() <= i < s.len() implies is_space(#[trigger] s[i]) by {
            if i < d.len() {
                assert(is_space(d[i]));
            }
        }
    } else {
        assert(s.take(s.len() as int) =~= s);
    }
}

/// A claim of the model is kept as it was stated, but for space around it: active
/// from now on, of the session and project it was made in, as sure as the model
/// was within bounds.
pub proof fn lemma_claim_is_kept(
    c: Claim,
    raw: RawClaim,
    transcript: SessionTranscript,
    now: i64,
)
    requires
        is_claim(c, raw, transcript, now),
    ensures
        c.statement@ == trim(raw.statement@) && c.predicate@ == trim(raw.predicate@),
        c.status is Active && !c.derived && c.derived_from@.len() == 0,
        c.recorded_at == now && c.valid_from == now && c.valid_to is None,
        opt_text(c.source_session_id) == Some(transcript.id@) && c.project == transcript.project,
        0 <= c.confidence <= 1_000_000,
        0 <= raw.confidence <= 1_000_000 ==> c.confidence == raw.confidence,
        raw.source_kind@ == "user_stated"@ ==> c.source_kind is UserStated,
        raw.source_kind@ == "assistant_inferred"@ ==> c.source_kind is AssistantInferred,
{
    reveal_strlit("user_stated");
    reveal_strlit("assistant_inferred");
    reveal_strlit("derived");
    assert("user_stated"@.len() == 11 && "assistant_inferred"@.len() == 18);
}

/// A relation is honoured if and only if its kind is known and its target is one
/// of the claims that were shown.
pub proof fn lemma_relations(raw: RawClaim, prior: Seq<Claim>)
    ensures
        honoured(raw, prior) is Some <==> raw.relation is Some && EdgeType::named(
            raw.relation->Some_0.kind@,
        ) is Some && trim(raw.relation->Some_0.target@).len() > 0 && exists|i: int|
            0 <= i < prior.len() && (#[trigger] prior[i]).id@ == trim(
                raw.relation->Some_0.target@,
            ),
        honoured(raw, prior) matches Some((t, id)) ==> EdgeType::named(
            raw.relation->Some_0.kind@,
        ) == Some(t) && id == trim(raw.relation->Some_0.target@),
{
    if raw.relation is Some {
        let id = trim(raw.relation->Some_0.target@);
        let ids = claim_ids(prior);
        if ids.contains(id) {
            let k = choose|k: int| 0 <= k < ids.len() && ids[k] == id;
            assert(prior[k].id@ == id);
        }
        if exists|i: int| 0 <= i < prior.len() && (#[trigger] prior[i]).id@ == id {
            let i = choose|i: int| 0 <= i < prior.len() && (#[trigger] prior[i]).id@ == id;
            assert(ids[i] == id);
        }
    }
}

/// The names of the relations between claims.
pub proof fn lemma_relation_names()
    ensures
        EdgeType::named("supersedes"@) == Some(EdgeType::Supersedes),
        EdgeType::named("refines"@) == Some(EdgeType::Refines),
        EdgeType::named("contradicts"@) == Some(EdgeType::Contradicts),
        EdgeType::named("corroborates"@) == Some(EdgeType::Corroborates),
        EdgeType::named("relates_to"@) == Some(EdgeType::RelatesTo),
        EdgeType::named("retracts"@) == Some(EdgeType::Retracts),
{
    reveal_strlit("supersedes");
    reveal_strlit("refines");
    reveal_strlit("contradicts");
    reveal_strlit("corroborates");
    reveal_strlit("relates_to");
    reveal_strlit("retracts");
    assert("supersedes"@.len() == 10 && "relates_to"@.len() == 10);
    assert("supersedes"@[0] != "relates_to"@[0]);
    assert("refines"@.len() == 7 && "contradicts"@.len() == 11);
    assert("corroborates"@.len() == 12 && "retracts"@.len() == 8);
}

spec fn far_end(leaving: bool) -> spec_fn(ClaimEdge) -> Option<Seq<char>> {
    |e: ClaimEdge|
        if !e.edge_type.enriches() {
            None
        } else if leaving {
            Some(e.to_claim@)
        } else {
            Some(e.from_claim@)
        }
}

proof fn lemma_neighbor_ids(edges: Seq<ClaimEdge>, leaving: bool)
    ensures
        neighbor_ids(edges, leaving) == picks(edges, far_end(leaving)),
    decreases edges.len(),
{
    if edges.len() > 0 {
        lemma_neighbor_ids(edges.drop_last(), leaving);
    }
}

/// Recall follows an edge if and only if it refines, corroborates or relates,
/// and to its far end: never one that supersedes, contradicts or retracts.
pub proof fn lemma_enrichment(edges: Seq<ClaimEdge>, leaving: bool, id: Seq<char>)
    ensures
        neighbor_ids(edges, leaving).contains(id) <==> exists|i: int|
            0 <= i < edges.len() && ((#[trigger] edges[i]).edge_type is Refines
                || edges[i].edge_type is Corroborates || edges[i].edge_type is RelatesTo) && (
            if leaving {
                edges[i].to_claim@
            } else {
                edges[i].from_claim@
            }) == id,
{
    let f = far_end(leaving);
    lemma_neighbor_ids(edges, leaving);
    lemma_picks(edges, f);
    assert(picks(edges, f).contains(id) <==> gives(edges, f, id));
    if gives(edges, f, id) {
        let i = choose|i: int| 0 <= i < edges.len() && f(#[trigger] edges[i]) == Some(id);
        assert(edges[i].edge_type.enriches());
    }
    if exists|i: int|
        0 <= i < edges.len() && ((#[trigger] edges[i]).edge_type is Refines || edges[i].edge_type
            is Corroborates || edges[i].edge_type is RelatesTo) && (if leaving {
            edges[i].to_claim@
        } else {
            edges[i].from_claim@
        }) == id {
        let i = choose|i: int|
            0 <= i < edges.len() && ((#[trigger] edges[i]).edge_type is Refines
                || edges[i].edge_type is Corroborates || edges[i].edge_type is RelatesTo) && (
            if leaving {
                edges[i].to_claim@
            } else {
                edges[i].from_claim@
            }) == id;
        assert(f(edges[i]) == Some(id));
    }
}

/// Recalled claims come by falling score.
pub proof fn lemma_recalled_by_score(found: Seq<Recalled>, i: int, j: int)
    requires
        0 <= i < j < found.len(),
    ensures
        arranged(found)[i].score >= arranged(found)[j].score,
{
    lemma_arranged(found);
    assert(!arranged(found)[j].ranks_before(arranged(found)[i]));
}

/// A derived claim rests on the whole cluster: it names every source, each source
/// refines to it, and it is no surer than eight tenths, the model, or any source,
/// and as sure as one of these.
pub proof fn lemma_derivation(
    d: Derivation,
    statement: Seq<char>,
    model: int,
    cluster: Seq<Claim>,
    now: i64,
    i: int,
)
    requires
        abstracts(d, statement, model, cluster, now),
        0 <= i < cluster.len(),
    ensures
        d.claim.derived && d.claim.source_kind is Derived && d.claim.status is Active,
        d.claim.statement@ == statement,
        d.claim.derived_from@.len() == cluster.len() && d.claim.derived_from@[i]@ == cluster[i].id@,
        d.edges@[i].from_claim@ == cluster[i].id@ && d.edges@[i].to_claim@ == d.claim.id@,
        d.edges@[i].edge_type is Refines && d.edges@[i].created_by is Consolidation,
        d.claim.confidence <= 800_000,
        d.claim.confidence <= cluster[i].confidence,
        model >= 0 ==> d.claim.confidence <= model,
        d.claim.confidence == 800_000 || d.claim.confidence == model || d.claim.confidence == 0
            || exists|k: int| 0 <= k < cluster.len() && d.claim.confidence == (
        #[trigger] cluster[k]).confidence,
        (forall|k: int|
            0 <= k < cluster.len() ==> opt_text((#[trigger] cluster[k]).project) == opt_text(
                cluster[0].project,
            )) ==> opt_text(d.claim.project) == opt_text(cluster[0].project),
{
    lemma_derived_confidence(model, cluster);
    assert(texts(d.claim.derived_from@).len() == claim_ids(cluster).len());
    assert(texts(d.claim.derived_from@)[i] == claim_ids(cluster)[i]);
    assert(d.claim.derived_from@[i]@ == texts(d.claim.derived_from@)[i]);
    assert(is_refinement(
        d.edges@[i],
        cluster[i].id@,
        d.claim.id@,
        now,
        derived_confidence(model, cluster),
    ));
    let least = if clamped(model) < 800_000 { clamped(model) } else { 800_000 };
    lemma_weakest_is(cluster, least);
}

proof fn lemma_weakest_is(cluster: Seq<Claim>, least: int)
    ensures
        weakest(cluster, least) == least || exists|k: int|
            0 <= k < cluster.len() && weakest(cluster, least) == (#[trigger] cluster[k]).confidence,
    decreases cluster.len(),
{
    if cluster.len() > 0 {
        let d = cluster.drop_last();
        lemma_weakest_is(d, least);
        if weakest(cluster, least) == cluster.last().confidence {
            assert(cluster[cluster.len() - 1].confidence == weakest(cluster, least));
        } else if weakest(d, least) != least {
            let k = choose|k: int|
                0 <= k < d.len() && weakest(d, least) == (#[trigger] d[k]).confidence;
            assert(cluster[k] == d[k]);
        }
    }
}

/// Only primary claims are consolidated, and every one of them.
pub proof fn lemma_primaries(active: Seq<Claim>, i: usize)
    requires
        active.len() <= usize::MAX,
    ensures
        primaries_of(active).contains(i) <==> i < active.len() && !active[i as int].derived,
    decreases active.len(),
{
    if active.len() > 0 {
        let d = active.drop_last();
        lemma_primaries(d, i);
        let before = primaries_of(d);
        let all = primaries_of(active);
        if before.contains(i) {
            let k = choose|k: int| 0 <= k < before.len() && before[k] == i;
            assert(all[k] == i);
            assert(d[i as int] == active[i as int]);
        } else if all.contains(i) {
            let k = choose|k: int| 0 <= k < all.len() && all[k] == i;
            if k < before.len() {
                assert(before[k] == i);
            }
        }
        if i < active.len() && !active[i as int].derived {
            if i < d.len() {
                assert(d[i as int] == active[i as int]);
            } else {
                assert(all[before.len() as int] == i);
            }
        }
    }
}

/// Of what the model proposes, statements that are more than space are accepted,
/// the first ones, as far as the budget goes.
pub proof fn lemma_accepted(raws: Seq<RawDerived>, budget: int)
    requires
        0 <= budget,
    ensures
        accepted(raws, budget).len() <= budget,
        forall|k: int|
            0 <= k < accepted(raws, budget).len() ==> trim(
                (#[trigger] accepted(raws, budget)[k]).statement@,
            ).len() > 0 && raws.contains(accepted(raws, budget)[k]),
        forall|i: int|
            0 <= i < raws.len() && trim((#[trigger] raws[i]).statement@).len() > 0 ==> accepted(
                raws,
                budget,
            ).len() == budget || accepted(raws, budget).contains(raws[i]),
    decreases raws.len(),
{
    if raws.len() > 0 {
        let d = raws.drop_last();
        lemma_accepted(d, budget);
        let before = accepted(d, budget);
        let all = accepted(raws, budget);
        assert(raws[raws.len() - 1] == raws.last());
        assert forall|k: int| 0 <= k < all.len() implies trim(
            (#[trigger] all[k]).statement@,
        ).len() > 0 && raws.contains(all[k]) by {
            if k < before.len() {
                assert(all[k] == before[k]);
                let m = choose|m: int| 0 <= m < d.len() && d[m] == before[k];
                assert(raws[m] == before[k]);
            }
        }
        assert forall|i: int|
            0 <= i < raws.len() && trim((#[trigger] raws[i]).statement@).len() > 0 implies
        all.len() == budget || all.contains(raws[i]) by {
            if i < d.len() {
                assert(d[i] == raws[i]);
                if before.len() < budget {
                    assert(before.contains(d[i]));
                    let k = choose|k: int| 0 <= k < before.len() && before[k] == d[i];
                    assert(all[k] == d[i]);
                }
            } else if before.len() < budget {
                assert(all[before.len() as int] == raws[i]);
            }
        }
    }
}

/// What a dream writes is what the model gave with a kind, a name and a content,
/// in its order.
pub proof fn lemma_dream_items(items: Seq<RawDreamItem>, i: int)
    requires
        0 <= i < items.len(),
        MemoryKind::named(items[i].kind@) is Some,
        normal_name(items[i].name@) is Some,
        trim(items[i].content@).len() > 0,
    ensures
        exists|k: int|
            0 <= k < dream_writes(items).len() && {
                let w = #[trigger] dream_writes(items)[k];
                w is Upsert && w->Upsert_kind == MemoryKind::named(items[i].kind@)->Some_0
                    && w->Upsert_name == normal_name(items[i].name@)->Some_0 && w->Upsert_content
                    == trim(items[i].content@) && (items[i].scope is None ==> w->Upsert_scope
                    is None)
            },
    decreases items.len(),
{
    let d = items.drop_last();
    let before = dream_writes(d);
    let all = dream_writes(items);
    if i < d.len() {
        assert(d[i] == items[i]);
        lemma_dream_items(d, i);
        let k = choose|k: int|
            0 <= k < before.len() && {
                let w = #[trigger] before[k];
                w is Upsert && w->Upsert_kind == MemoryKind::named(d[i].kind@)->Some_0
                    && w->Upsert_name == normal_name(d[i].name@)->Some_0 && w->Upsert_content
                    == trim(d[i].content@) && (d[i].scope is None ==> w->Upsert_scope is None)
            };
        assert(all[k] == before[k]);
    } else {
        assert(all[before.len() as int] is Upsert);
    }
}

/// An item is for one project where the model names it: not where it gives
/// nothing, space, or the word null in any letters.
pub proof fn lemma_scope_is_meant(s: Seq<char>)
    ensures
        meant_scope(None) is None,
        trim(s).len() == 0 ==> meant_scope(Some(s)) is None,
        ascii_lower(trim(s)) == "null"@ ==> meant_scope(Some(s)) is None,
        trim(s).len() > 0 && ascii_lower(trim(s)) != "null"@ ==> meant_scope(Some(s)) == Some(
            trim(s),
        ),
{
}

/// What is found keeps the score it was found with, items and nodes alike.
pub proof fn lemma_scores_are_kept(
    items: Seq<(MemoryItem, u128)>,
    nodes: Seq<crate::fusion::Scored<MemoryNode>>,
    i: int,
)
    ensures
        0 <= i < items.len() ==> item_entries(items)[i] == (MemoryEntry::Item {
            item: items[i].0,
            score: items[i].1,
        }),
        0 <= i < nodes.len() ==> node_entries(nodes)[i] == (MemoryEntry::Node {
            node: nodes[i].item,
            score: nodes[i].score,
        }),
        item_entries(items).len() == items.len() && node_entries(nodes).len() == nodes.len(),
{
}

/// A transcript that is too short is refused by its name and the number of its
/// messages.
pub proof fn lemma_too_short(id: Seq<char>, n: nat)
    ensures
        contains_text(too_short(id, n), id),
        contains_text(too_short(id, n), " has only "@ + decimal(n) + " non-empty messages"@),
{
    reveal_strlit("' has only ");
    reveal_strlit(" has only ");
    reveal_strlit(" non-empty messages (minimum ");
    reveal_strlit(" non-empty messages");
    let s = too_short(id, n);
    let a = "transcript '"@;
    let mid = " has only "@ + decimal(n) + " non-empty messages"@;
    assert("' has only "@ =~= seq!['\''] + " has only "@);
    let back = s.skip((a.len() + id.len()) as int);
    assert(s =~= a + id + back);
    crate::text_laws::lemma_parts_occur(a, id, back);
    let front = a + id + seq!['\''];
    let rest = s.skip((front.len() + mid.len()) as int);
    assert(s.subrange(front.len() as int, (front.len() + mid.len()) as int) =~= mid);
    assert(s.take(front.len() as int) =~= front);
    assert(s =~= front + mid + rest);
    crate::text_laws::lemma_parts_occur(front, mid, rest);
}

/// A cluster is left alone if and only if each of its claims was drawn upon by a
/// derived claim.
pub proof fn lemma_stable_cluster(active: Seq<Claim>, cluster: Seq<Claim>, covered: Set<Seq<char>>)
    requires
        forall|id: Seq<char>| #[trigger] covered.contains(id) <==> is_covered(active, id),
    ensures
        all_covered(cluster, covered) <==> forall|i: int|
            0 <= i < cluster.len() ==> was_drawn_upon(active, (#[trigger] cluster[i]).id@),
{
    assert forall|i: int| 0 <= i < cluster.len() implies (covered.contains(
        (#[trigger] cluster[i]).id@,
    ) <==> was_drawn_upon(active, cluster[i].id@)) by {
        lemma_drawn_upon(active, cluster[i].id@);
    }
}

/// One of the derived claims names the id among its sources.
pub open spec fn was_drawn_upon(active: Seq<Claim>, id: Seq<char>) -> bool {
    exists|i: int, k: int|
        0 <= i < active.len() && 0 <= k < active[i].derived_from@.len() && active[i].derived
            && (#[trigger] active[i].derived_from@[k])@ == id
}

proof fn lemma_drawn_upon(active: Seq<Claim>, id: Seq<char>)
    ensures
        is_covered(active, id) <==> was_drawn_upon(active, id),
{
    if is_covered(active, id) {
        let i = choose|i: int|
            0 <= i < active.len() && (#[trigger] active[i]).derived && texts(
                active[i].derived_from@,
            ).contains(id);
        let ids = texts(active[i].derived_from@);
        let k = choose|k: int| 0 <= k < ids.len() && ids[k] == id;
        assert(active[i].derived_from@[k]@ == id);
    }
    if was_drawn_upon(active, id) {
        let (i, k) = choose|i: int, k: int|
            0 <= i < active.len() && 0 <= k < active[i].derived_from@.len() && active[i].derived
                && (#[trigger] active[i].derived_from@[k])@ == id;
        assert(texts(active[i].derived_from@)[k] == id);
        assert(texts(active[i].derived_from@).contains(id));
    }
}

/// A new entity has the name it was met under and no other.
pub proof fn lemma_new_entity(e: Entity, name: Seq<char>, now: i64)
    requires
        is_new_entity(e, name, now),
    ensures
        e.canonical_name@ == name,
        e.aliases@.len() == 0,
        e.created_at == now && e.updated_at == now,
{
}

/// A claim is retired only by one that supersedes it, and from the time that one
/// was related to it.
pub proof fn lemma_only_superseded_claims_retire(edge: ClaimEdge)
    ensures
        fate_of_target(edge) is Some <==> edge.edge_type is Supersedes,
        fate_of_target(edge) matches Some((status, at)) ==> status is Superseded && at
            == edge.created_at,
{
}

/// A run takes claims that have a statement and a predicate, thirty-two at most.
pub proof fn lemma_claims_taken(run: IngestionRun, raw: RawClaim)
    ensures
        run.report.claims_written >= 32 <==> run.step_of(raw) is Stop,
        run.step_of(raw) is Take <==> run.report.claims_written < 32 && trim(
            raw.statement@,
        ).len() > 0 && trim(raw.predicate@).len() > 0,
{
}

/// A cycle may always delete one item, and never more than a fifth of them where
/// that is more.
pub proof fn lemma_deletes_allowed(n: int)
    requires
        0 <= n,
    ensures
        deletes_allowed(n) >= 1,
        n >= 5 ==> 5 * deletes_allowed(n) <= n < 5 * (deletes_allowed(n) + 1),
        n < 5 ==> deletes_allowed(n) == 1,
{
}

/// A session is imported if and only if it is new, has been idle for long enough
/// and fewer than ten were imported; it is put off only for the last of these.
pub proof fn lemma_sessions_imported(
    run: HarvestRun,
    s: DiscoveredSession,
    imported: Set<Seq<char>>,
    now: int,
    idle: int,
)
    ensures
        run.step_of(s, imported, now, idle) is Import <==> !imported.contains(s.id@)
            && s.updated_at > 0 && now >= s.updated_at + idle && run.report.sessions_imported < 10,
        run.step_of(s, imported, now, idle) is Defer <==> !imported.contains(s.id@)
            && s.updated_at > 0 && now >= s.updated_at + idle && run.report.sessions_imported
            >= 10,
{
}

/// A cluster is abstracted if and only if there is budget left and one of its
/// claims was not drawn upon yet.
pub proof fn lemma_clusters_abstracted(
    run: ClaimDreamRun,
    cluster: Seq<Claim>,
    covered: Set<Seq<char>>,
)
    ensures
        run.step_of(cluster, covered) is Abstract <==> run.budget > 0 && exists|i: int|
            0 <= i < cluster.len() && !covered.contains((#[trigger] cluster[i]).id@),
        run.step_of(cluster, covered) is Stop <==> run.budget == 0,
{
}

/// Recall takes in a neighbour if and only if it is current, below the claim that
/// led to it: at three tenths of its score.
pub proof fn lemma_neighbor_joins(
    run: RecallRun,
    id: String,
    found: Option<Claim>,
    seed_score: u128,
)
    requires
        seed_score * 3 <= u128::MAX,
    ensures
        ({
            let r = run.with_neighbor(id, found, seed_score);
            &&& r.len() == run.found@.len() + 1 <==> found is Some && found->Some_0.status is Active
            &&& r.len() == run.found@.len() <==> found is None || !(found->Some_0.status is Active)
            &&& r.len() > run.found@.len() ==> r.last().claim == found->Some_0 && 10
                * r.last().score <= 3 * seed_score < 10 * (r.last().score + 1)
            &&& forall|i: int| 0 <= i < run.found@.len() ==> #[trigger] r[i] == run.found@[i]
        }),
{
}

} // verus!
