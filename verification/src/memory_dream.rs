//! Consolidation of the memory store: finished sessions are harvested, similar
//! items merged, and the whole store reflected on, under bounds that keep a
//! model gone wrong from doing much harm.

use vstd::prelude::*;
use crate::claim_dream::are_components;
use crate::clustering::{Cluster, Member, are_clusters, make_clusters};
use crate::collections::TextSet;
use crate::ids::{fresh_id, is_random_id};
use crate::memory::{MemoryItem, MemoryKind, MemoryOperation, OperationView, operation_views};
use crate::memory_extraction::{
    RawDelete, count_writes, deletes_of, normal_name, normalize_name, push_deletes, skipped_views,
};
use crate::order::{Ranked, lemma_text_order, text_less, text_lt};
use crate::text::{chars_of, opt_text, same_chars, same_text, string_of, trim, trim_text, trimmed};
use crate::unicode::{ascii_lower, small_chars};
use crate::union_find::components;

verus! {

/// Idle time after which a session counts as finished.
pub const DEFAULT_SESSION_IDLE_SECS: i64 = 3_600;

/// Most clusters examined per cycle.
pub const MAX_CLUSTERS_PER_RUN: usize = 8;

/// Most items sent to the model per cluster.
pub const MAX_CLUSTER_ITEMS: usize = 6;

/// Most sessions imported by one harvest.
pub const MAX_HARVEST_SESSIONS: usize = 10;

/// Most operations applied by one cycle.
pub const MAX_DREAM_OPERATIONS: usize = 32;

/// Most items that reflection may propose.
pub const MAX_REFLECTION_ITEMS: usize = 5;

/// The number of items below which reflection is left out.
pub const MIN_REFLECTION_ITEMS: usize = 4;

/// One in so many items may be deleted per cycle.
pub const DELETE_CAP_DIVISOR: usize = 5;

/// What one cycle did.
#[derive(Debug)]
pub struct DreamReport {
    /// Finished sessions found that were never imported.
    pub sessions_eligible: usize,
    /// Sessions imported in this cycle.
    pub sessions_imported: usize,
    /// Similarity clusters examined.
    pub clusters_found: usize,
    /// Operations applied, in order.
    pub applied: Vec<MemoryOperation>,
    /// Operations refused, with the reason.
    pub skipped: Vec<(MemoryOperation, String)>,
}

/// What a harvest did.
#[derive(Debug, PartialEq)]
pub struct HarvestReport {
    pub sessions_eligible: usize,
    pub sessions_imported: usize,
}

/// An item, as the model gave it.
#[derive(Debug)]
pub struct RawDreamItem {
    pub kind: String,
    pub name: String,
    pub content: String,
    pub scope: Option<String>,
}

/// The scope that the model meant: none where it is empty or the word `null`.
pub open spec fn meant_scope(scope: Option<Seq<char>>) -> Option<Seq<char>> {
    match scope {
        Some(s) if trim(s).len() > 0 && ascii_lower(trim(s)) != "null"@ => Some(trim(s)),
        _ => None,
    }
}

/// The writes of the items with a known kind, a name and a content.
pub open spec fn dream_writes(items: Seq<RawDreamItem>) -> Seq<OperationView>
    decreases items.len(),
{
    if items.len() == 0 {
        Seq::empty()
    } else {
        let d = dream_writes(items.drop_last());
        let raw = items.last();
        let content = trim(raw.content@);
        match (MemoryKind::named(raw.kind@), normal_name(raw.name@)) {
            (Some(kind), Some(name)) if content.len() > 0 => d.push(
                OperationView::Upsert {
                    kind,
                    name,
                    content,
                    scope: meant_scope(opt_text(raw.scope)),
                },
            ),
            _ => d,
        }
    }
}

fn scope_meant(scope: &Option<String>) -> (r: Option<String>)
    ensures
        opt_text(r) == meant_scope(opt_text(*scope)),
{
    match scope {
        Some(s) => {
            let cs = chars_of(s.as_str());
            let t = trimmed(&cs);
            let word = chars_of("null");
            if t.len() == 0 || same_chars(&small_chars(t), &word) {
                None
            } else {
                Some(string_of(t))
            }
        },
        None => None,
    }
}

/// Makes checked operations of the model's answer: the writes, then the
/// deletions.
pub fn dream_operations(items: &[RawDreamItem], delete: &[RawDelete]) -> (r: Vec<MemoryOperation>)
    ensures
        operation_views(r@) == dream_writes(items@) + deletes_of(delete@),
{
    let mut ops: Vec<MemoryOperation> = Vec::new();
    let mut i: usize = 0;
    assert(operation_views(ops@) =~= dream_writes(items@.take(0)));
    while i < items.len()
        invariant
            i <= items@.len(),
            operation_views(ops@) == dream_writes(items@.take(i as int)),
        decreases items@.len() - i,
    {
        let raw = &items[i];
        let ghost before = ops@;
        proof {
            assert(items@.take(i + 1).drop_last() =~= items@.take(i as int));
            assert(items@.take(i + 1).last() == items@[i as int]);
        }
        if let Some(kind) = MemoryKind::parse(raw.kind.as_str()) {
            if let Some(name) = normalize_name(raw.name.as_str()) {
                let content = trim_text(raw.content.as_str());
                if !content.as_str().is_empty() {
                    let op = MemoryOperation::Upsert {
                        kind,
                        name,
                        content,
                        scope: scope_meant(&raw.scope),
                    };
                    let ghost v = op@;
                    ops.push(op);
                    assert(operation_views(ops@) =~= operation_views(before).push(v));
                }
            }
        }
        i += 1;
    }
    assert(items@.take(i as int) =~= items@);
    push_deletes(&mut ops, delete);
    ops
}

/// What reflection proposes, with the writes beyond the bound left out.
/// Deletions stay: they are refused later, with a reason.
pub open spec fn capped_reflection(ops: Seq<MemoryOperation>) -> Seq<MemoryOperation>
    decreases ops.len(),
{
    if ops.len() == 0 {
        ops
    } else {
        let d = capped_reflection(ops.drop_last());
        if ops.last() is Upsert && count_writes(ops.drop_last()) >= MAX_REFLECTION_ITEMS {
            d
        } else {
            d.push(ops.last())
        }
    }
}

/// Leaves out the writes that reflection proposes beyond the bound.
pub fn cap_reflection(ops: Vec<MemoryOperation>) -> (r: Vec<MemoryOperation>)
    ensures
        r@ == capped_reflection(ops@),
{
    let ghost all = ops@;
    let mut r: Vec<MemoryOperation> = Vec::new();
    let mut writes: usize = 0;
    for op in it: ops
        invariant
            it.seq() == all,
            r@ == capped_reflection(all.take(it.index() as int)),
            writes <= MAX_REFLECTION_ITEMS,
            writes == MAX_REFLECTION_ITEMS ==> count_writes(all.take(it.index() as int))
                >= MAX_REFLECTION_ITEMS,
            writes < MAX_REFLECTION_ITEMS ==> count_writes(all.take(it.index() as int)) == writes,
    {
        proof {
            let i = it.index() as int;
            assert(all.take(i + 1).drop_last() =~= all.take(i));
            assert(all.take(i + 1).last() == op);
        }
        let write = match &op {
            MemoryOperation::Upsert { .. } => true,
            MemoryOperation::Delete { .. } => false,
        };
        if !write {
            r.push(op);
        } else if writes < MAX_REFLECTION_ITEMS {
            writes += 1;
            r.push(op);
        }
    }
    assert(all.take(all.len() as int) =~= all);
    r
}

/// An item of a cluster: its place among the items, when it changed, and its
/// name.
pub struct ItemMember {
    pub at: usize,
    pub updated_at: i64,
    pub name: String,
}

impl Ranked for ItemMember {
    /// Most recently changed first, then by name.
    open spec fn ranks_before(self, other: Self) -> bool {
        ||| self.updated_at > other.updated_at
        ||| self.updated_at == other.updated_at && text_lt(self.name@, other.name@)
    }

    fn goes_before(&self, other: &Self) -> (r: bool) {
        if self.updated_at != other.updated_at {
            self.updated_at > other.updated_at
        } else {
            text_less(self.name.as_str(), other.name.as_str())
        }
    }

    proof fn rank_laws(a: Self, b: Self, c: Self) {
        lemma_text_order(a.name@, b.name@, c.name@);
    }
}

impl Member for ItemMember {
    open spec fn label(self) -> Seq<char> {
        self.name@
    }

    fn label_text(&self) -> (r: &str) {
        self.name.as_str()
    }

    fn copied(&self) -> (r: Self) {
        ItemMember { at: self.at, updated_at: self.updated_at, name: self.name.clone() }
    }
}

/// The members are the items at the given places.
pub open spec fn are_item_members(
    s: Seq<ItemMember>,
    items: Seq<MemoryItem>,
    at: Seq<usize>,
) -> bool {
    &&& s.len() == at.len()
    &&& forall|i: int|
        0 <= i < s.len() ==> (#[trigger] s[i]).at == at[i] && s[i].updated_at
            == items[at[i] as int].updated_at && s[i].name == items[at[i] as int].name
}

/// Groups items into clusters: the connected components of the similar pairs.
/// `embedded` gives the places in `items` of those that can be compared, and
/// the pairs are of places in `embedded`. Of each component of two or more the
/// most recent are kept, and of the components the largest.
pub fn build_clusters(
    items: &[MemoryItem],
    embedded: &[usize],
    similar: &[(usize, usize)],
) -> (r: Vec<Cluster<ItemMember>>)
    requires
        forall|i: int| 0 <= i < embedded@.len() ==> (#[trigger] embedded@[i]) < items@.len(),
        forall|k: int|
            0 <= k < similar@.len() ==> (#[trigger] similar@[k]).0 < embedded@.len()
                && similar@[k].1 < embedded@.len(),
    ensures
        exists|members: Seq<ItemMember>, labels: Seq<usize>| #[trigger]
            are_item_members(members, items@, embedded@) && labels.len() == embedded@.len()
                && #[trigger] are_components(labels, similar@) && are_clusters(
                r@,
                members,
                labels,
                MAX_CLUSTER_ITEMS as int,
                MAX_CLUSTERS_PER_RUN as int,
            ),
{
    let labels = components(embedded.len(), similar);
    let mut members: Vec<ItemMember> = Vec::new();
    let mut i: usize = 0;
    while i < embedded.len()
        invariant
            i <= embedded@.len(),
            forall|i: int| 0 <= i < embedded@.len() ==> (#[trigger] embedded@[i]) < items@.len(),
            members@.len() == i,
            forall|k: int|
                0 <= k < i ==> (#[trigger] members@[k]).at == embedded@[k] && members@[k].updated_at
                    == items@[embedded@[k] as int].updated_at && members@[k].name
                    == items@[embedded@[k] as int].name,
        decreases embedded@.len() - i,
    {
        let at: usize = embedded[i];
        members.push(
            ItemMember { at, updated_at: items[at].updated_at, name: items[at].name.clone() },
        );
        i += 1;
    }
    assert(are_item_members(members@, items@, embedded@));
    assert(are_components(labels@, similar@));
    make_clusters(&members, &labels, MAX_CLUSTER_ITEMS, MAX_CLUSTERS_PER_RUN)
}

/// How many items of a store a cycle may delete.
pub open spec fn deletes_allowed(items: int) -> int {
    if items < 2 * DELETE_CAP_DIVISOR {
        1
    } else {
        items / (DELETE_CAP_DIVISOR as int)
    }
}

/// How many items of a store of `n` a cycle may delete: one in
/// [`DELETE_CAP_DIVISOR`], but at least one.
pub fn delete_budget(n: usize) -> (r: usize)
    ensures
        r == if n / DELETE_CAP_DIVISOR >= 1 {
            n / DELETE_CAP_DIVISOR
        } else {
            1
        },
        r == deletes_allowed(n as int),
{
    let share: usize = n / DELETE_CAP_DIVISOR;
    if share >= 1 {
        share
    } else {
        1
    }
}

/// Whether a store of `n` items is large enough to reflect on.
pub fn worth_reflection(n: usize) -> (r: bool)
    ensures
        r == (n >= MIN_REFLECTION_ITEMS),
{
    n >= MIN_REFLECTION_ITEMS
}

/// The kind and name of an item that may be deleted.
#[derive(Debug)]
pub struct ItemKey {
    pub kind: MemoryKind,
    pub name: String,
}

/// One of the keys is that of the item.
pub open spec fn has_item_key(s: Seq<ItemKey>, kind: MemoryKind, name: Seq<char>) -> bool {
    exists|i: int| 0 <= i < s.len() && (#[trigger] s[i]).kind == kind && s[i].name@ == name
}

/// The keys of the items of a cluster: what consolidation was shown, and so
/// may delete.
pub fn keys_of(cluster: &[MemoryItem]) -> (r: Vec<ItemKey>)
    ensures
        r@.len() == cluster@.len(),
        forall|i: int|
            0 <= i < r@.len() ==> (#[trigger] r@[i]).kind == cluster@[i].kind && r@[i].name
                == cluster@[i].name,
{
    let mut r: Vec<ItemKey> = Vec::new();
    let mut i: usize = 0;
    while i < cluster.len()
        invariant
            i <= cluster@.len(),
            r@.len() == i,
            forall|k: int|
                0 <= k < i ==> (#[trigger] r@[k]).kind == cluster@[k].kind && r@[k].name
                    == cluster@[k].name,
        decreases cluster@.len() - i,
    {
        r.push(ItemKey { kind: cluster[i].kind, name: cluster[i].name.clone() });
        i += 1;
    }
    r
}

/// Why an operation is refused.
#[derive(Debug, Clone, Copy, PartialEq, Eq, Structural)]
pub enum Refusal {
    LimitReached,
    UpsertedThisCycle,
    NotInCluster,
    BudgetExhausted,
    NotFound,
}

impl Refusal {
    /// The reason in words.
    pub open spec fn text(self) -> Seq<char> {
        match self {
            Refusal::LimitReached => "operation limit reached"@,
            Refusal::UpsertedThisCycle => "name was upserted this cycle"@,
            Refusal::NotInCluster => "delete target was not part of the examined cluster"@,
            Refusal::BudgetExhausted => "delete budget for this cycle exhausted"@,
            Refusal::NotFound => "item not found"@,
        }
    }

    /// The reason in words.
    pub fn as_str(&self) -> (r: &'static str)
        ensures
            r@ == self.text(),
    {
        match self {
            Refusal::LimitReached => "operation limit reached",
            Refusal::UpsertedThisCycle => "name was upserted this cycle",
            Refusal::NotInCluster => "delete target was not part of the examined cluster",
            Refusal::BudgetExhausted => "delete budget for this cycle exhausted",
            Refusal::NotFound => "item not found",
        }
    }
}

/// What is done about an operation.
#[derive(Debug, Clone, Copy, PartialEq, Eq, Structural)]
pub enum DreamStep {
    /// Write the item.
    Write,
    /// Delete the item, if it is there.
    Delete,
    /// Neither.
    Refuse(Refusal),
}

/// A write of the item stands among the operations.
pub open spec fn upserts(ops: Seq<MemoryOperation>, kind: MemoryKind, name: Seq<char>) -> bool {
    exists|i: int|
        0 <= i < ops.len() && ((#[trigger] ops[i]) matches MemoryOperation::Upsert {
            kind: k,
            name: n,
            ..
        } && k == kind && n@ == name)
}

/// The number of deletions among operations.
pub open spec fn count_deletes(ops: Seq<MemoryOperation>) -> nat
    decreases ops.len(),
{
    if ops.len() == 0 {
        0
    } else {
        count_deletes(ops.drop_last()) + if ops.last() is Delete {
            1nat
        } else {
            0
        }
    }
}

/// A cycle under way.
pub struct DreamRun {
    pub report: DreamReport,
    /// How many items may be deleted.
    pub delete_budget: usize,
    /// How many were.
    pub deletes_used: usize,
}

impl DreamRun {
    /// The bounds of a cycle: the number of operations, the number of
    /// deletions, and that nothing is deleted that the cycle wrote before.
    pub open spec fn wf(self) -> bool {
        let applied = self.report.applied@;
        &&& applied.len() <= MAX_DREAM_OPERATIONS
        &&& count_deletes(applied) == self.deletes_used
        &&& self.deletes_used <= self.delete_budget
        &&& forall|i: int|
            0 <= i < applied.len() && (#[trigger] applied[i]) is Delete ==> !upserts(
                applied.take(i),
                applied[i]->Delete_kind,
                applied[i]->Delete_name@,
            )
    }

    /// Begins the cycle over a store of `items` items, once harvesting is done.
    pub fn start(harvest: HarvestReport, items: usize) -> (r: DreamRun)
        ensures
            r.wf(),
            r.report.sessions_eligible == harvest.sessions_eligible,
            r.report.sessions_imported == harvest.sessions_imported,
            r.report.clusters_found == 0,
            r.report.applied@.len() == 0,
            r.report.skipped@.len() == 0,
            r.deletes_used == 0,
            r.delete_budget == if items / DELETE_CAP_DIVISOR >= 1 {
                items / DELETE_CAP_DIVISOR
            } else {
                1
            },
    {
        DreamRun {
            report: DreamReport {
                sessions_eligible: harvest.sessions_eligible,
                sessions_imported: harvest.sessions_imported,
                clusters_found: 0,
                applied: Vec::new(),
                skipped: Vec::new(),
            },
            delete_budget: delete_budget(items),
            deletes_used: 0,
        }
    }

    /// What is done about an operation, where only the items of `deletable`
    /// may be deleted.
    pub open spec fn step_for(self, op: MemoryOperation, deletable: Seq<ItemKey>) -> DreamStep {
        if self.report.applied@.len() >= MAX_DREAM_OPERATIONS {
            DreamStep::Refuse(Refusal::LimitReached)
        } else {
            match op {
                MemoryOperation::Upsert { .. } => DreamStep::Write,
                MemoryOperation::Delete { kind, name } => if upserts(
                    self.report.applied@,
                    kind,
                    name@,
                ) {
                    DreamStep::Refuse(Refusal::UpsertedThisCycle)
                } else if !has_item_key(deletable, kind, name@) {
                    DreamStep::Refuse(Refusal::NotInCluster)
                } else if self.deletes_used >= self.delete_budget {
                    DreamStep::Refuse(Refusal::BudgetExhausted)
                } else {
                    DreamStep::Delete
                },
            }
        }
    }

    /// Decides what is done about an operation.
    pub fn decide(&self, op: &MemoryOperation, deletable: &[ItemKey]) -> (r: DreamStep)
        ensures
            r == self.step_for(*op, deletable@),
    {
        if self.report.applied.len() >= MAX_DREAM_OPERATIONS {
            return DreamStep::Refuse(Refusal::LimitReached);
        }
        let (kind, name) = match op {
            MemoryOperation::Upsert { .. } => {
                return DreamStep::Write;
            },
            MemoryOperation::Delete { kind, name } => (*kind, name),
        };
        let applied = &self.report.applied;
        let mut i: usize = 0;
        while i < applied.len()
            invariant
                i <= applied@.len(),
                applied@ == self.report.applied@,
                self.report.applied@.len() < MAX_DREAM_OPERATIONS,
                *op == (MemoryOperation::Delete { kind, name: *name }),
                forall|j: int|
                    0 <= j < i ==> !((#[trigger] applied@[j]) matches MemoryOperation::Upsert {
                        kind: k,
                        name: n,
                        ..
                    } && k == kind && n@ == name@),
            decreases applied@.len() - i,
        {
            if let MemoryOperation::Upsert { kind: k, name: n, .. } = &applied[i] {
                if *k == kind && same_text(n.as_str(), name.as_str()) {
                    assert(upserts(applied@, kind, name@));
                    return DreamStep::Refuse(Refusal::UpsertedThisCycle);
                }
            }
            i += 1;
        }
        assert(!upserts(applied@, kind, name@));
        let mut shown = false;
        let mut k: usize = 0;
        while k < deletable.len()
            invariant
                k <= deletable@.len(),
                shown == exists|j: int|
                    0 <= j < k && (#[trigger] deletable@[j]).kind == kind && deletable@[j].name@
                        == name@,
            decreases deletable@.len() - k,
        {
            if deletable[k].kind == kind && same_text(deletable[k].name.as_str(), name.as_str()) {
                shown = true;
            }
            k += 1;
        }
        assert(shown == has_item_key(deletable@, kind, name@));
        if !shown {
            return DreamStep::Refuse(Refusal::NotInCluster);
        }
        if self.deletes_used >= self.delete_budget {
            return DreamStep::Refuse(Refusal::BudgetExhausted);
        }
        DreamStep::Delete
    }

    /// The reason for which an operation ends up refused, if it does.
    pub open spec fn refusal(
        self,
        op: MemoryOperation,
        deletable: Seq<ItemKey>,
        existed: bool,
    ) -> Option<Refusal> {
        match self.step_for(op, deletable) {
            DreamStep::Refuse(why) => Some(why),
            DreamStep::Delete if !existed => Some(Refusal::NotFound),
            _ => None,
        }
    }

    /// Records an operation once it was carried out; `existed` tells whether
    /// the item of a deletion was there.
    pub fn settle(&mut self, op: MemoryOperation, deletable: &[ItemKey], existed: bool)
        requires
            old(self).wf(),
        ensures
            final(self).wf(),
            final(self).delete_budget == old(self).delete_budget,
            final(self).report.sessions_eligible == old(self).report.sessions_eligible,
            final(self).report.sessions_imported == old(self).report.sessions_imported,
            final(self).report.clusters_found == old(self).report.clusters_found,
            match old(self).refusal(op, deletable@, existed) {
                None => {
                    &&& final(self).report.applied@ == old(self).report.applied@.push(op)
                    &&& final(self).report.skipped@ == old(self).report.skipped@
                },
                Some(why) => {
                    &&& final(self).report.applied@ == old(self).report.applied@
                    &&& skipped_views(final(self).report.skipped@) == skipped_views(
                        old(self).report.skipped@,
                    ).push((op@, why.text()))
                },
            },
    {
        let step = self.decide(&op, deletable);
        let ghost before = self.report.applied@;
        let ghost skipped = self.report.skipped@;
        let ghost v = op@;
        let ghost o = op;
        let why = match step {
            DreamStep::Refuse(why) => Some(why),
            DreamStep::Delete => if existed {
                None
            } else {
                Some(Refusal::NotFound)
            },
            DreamStep::Write => None,
        };
        match why {
            Some(why) => {
                let reason = why.as_str().to_string();
                let ghost t = reason@;
                self.report.skipped.push((op, reason));
                assert(skipped_views(self.report.skipped@) =~= skipped_views(skipped).push(
                    (v, t),
                ));
            },
            None => {
                if let MemoryOperation::Delete { .. } = &op {
                    self.deletes_used = self.deletes_used + 1;
                }
                self.report.applied.push(op);
                proof {
                    let now = self.report.applied@;
                    assert(now.drop_last() =~= before);
                    assert(now.last() == o);
                    assert forall|i: int|
                        0 <= i < now.len() && (#[trigger] now[i]) is Delete implies !upserts(
                        now.take(i),
                        now[i]->Delete_kind,
                        now[i]->Delete_name@,
                    ) by {
                        if i < before.len() {
                            assert(before[i] == now[i]);
                            assert(now.take(i) =~= before.take(i));
                        } else {
                            assert(now.take(i) =~= before);
                        }
                    }
                }
            },
        }
    }
}

/// A session that was found.
#[derive(Debug)]
pub struct DiscoveredSession {
    pub id: String,
    pub updated_at: i64,
}

/// What is done about a session.
#[derive(Debug, Clone, Copy, PartialEq, Eq, Structural)]
pub enum HarvestStep {
    /// It is not finished, or was imported before.
    Ignore,
    /// It waits for a later harvest.
    Defer,
    /// Import it.
    Import,
}

/// The session has been idle long enough to count as finished.
pub open spec fn is_finished(s: DiscoveredSession, now: int, idle: int) -> bool {
    s.updated_at > 0 && now - s.updated_at >= idle
}

/// A harvest under way.
pub struct HarvestRun {
    pub report: HarvestReport,
}

impl HarvestRun {
    /// Begins a harvest.
    pub fn start() -> (r: HarvestRun)
        ensures
            r.report.sessions_eligible == 0,
            r.report.sessions_imported == 0,
    {
        HarvestRun { report: HarvestReport { sessions_eligible: 0, sessions_imported: 0 } }
    }

    /// What is done with a session.
    pub open spec fn step_of(
        self,
        session: DiscoveredSession,
        imported: Set<Seq<char>>,
        now: int,
        idle: int,
    ) -> HarvestStep {
        if imported.contains(session.id@) || !is_finished(session, now, idle) {
            HarvestStep::Ignore
        } else if self.report.sessions_imported < MAX_HARVEST_SESSIONS {
            HarvestStep::Import
        } else {
            HarvestStep::Defer
        }
    }

    /// Decides on a session, and counts it where it is finished and new.
    pub fn consider(
        &mut self,
        session: &DiscoveredSession,
        imported: &TextSet,
        now: i64,
        idle: i64,
    ) -> (r: HarvestStep)
        requires
            old(self).report.sessions_eligible < usize::MAX,
        ensures
            r == if !is_finished(*session, now as int, idle as int) || imported@.contains(
                session.id@,
            ) {
                HarvestStep::Ignore
            } else if old(self).report.sessions_imported >= MAX_HARVEST_SESSIONS {
                HarvestStep::Defer
            } else {
                HarvestStep::Import
            },
            r == old(self).step_of(*session, imported@, now as int, idle as int),
            final(self).report.sessions_imported == old(self).report.sessions_imported,
            final(self).report.sessions_eligible == old(self).report.sessions_eligible + if r
                == HarvestStep::Ignore {
                0int
            } else {
                1
            },
    {
        if session.updated_at <= 0 || (now as i128) - (session.updated_at as i128) < (
        idle as i128) {
            return HarvestStep::Ignore;
        }
        if imported.contains(session.id.as_str()) {
            return HarvestStep::Ignore;
        }
        self.report.sessions_eligible = self.report.sessions_eligible + 1;
        if self.report.sessions_imported >= MAX_HARVEST_SESSIONS {
            HarvestStep::Defer
        } else {
            HarvestStep::Import
        }
    }

    /// Counts a session that was imported.
    pub fn imported(&mut self)
        requires
            old(self).report.sessions_imported < MAX_HARVEST_SESSIONS,
        ensures
            final(self).report.sessions_imported == old(self).report.sessions_imported + 1,
            final(self).report.sessions_eligible == old(self).report.sessions_eligible,
    {
        self.report.sessions_imported = self.report.sessions_imported + 1;
    }
}

/// The record of a cycle.
#[derive(Debug)]
pub struct DreamRecord {
    pub id: String,
    pub started_at: i64,
    pub finished_at: i64,
    pub sessions_imported: usize,
    pub clusters_found: usize,
    pub operations_applied: usize,
    pub operations_skipped: usize,
}

/// The record of a cycle, under a fresh id.
pub fn dream_record(report: &DreamReport, started_at: i64, finished_at: i64) -> (r: DreamRecord)
    ensures
        is_random_id(r.id@),
        r.started_at == started_at,
        r.finished_at == finished_at,
        r.sessions_imported == report.sessions_imported,
        r.clusters_found == report.clusters_found,
        r.operations_applied == report.applied@.len(),
        r.operations_skipped == report.skipped@.len(),
{
    DreamRecord {
        id: fresh_id(),
        started_at,
        finished_at,
        sessions_imported: report.sessions_imported,
        clusters_found: report.clusters_found,
        operations_applied: report.applied.len(),
        operations_skipped: report.skipped.len(),
    }
}

} // verus!
