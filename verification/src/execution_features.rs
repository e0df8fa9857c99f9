//! Execution features: what an entry point drives, found by walking its calls,
//! and how critical it is.

use vstd::prelude::*;
use vstd::string::*;
use crate::collections::{TextMap, TextSet};
use crate::domain::{ReferenceKind, Repository, SymbolReference};
use crate::execution_features_naming::{feature_name, short_name};
use crate::order::{Ranked, arrange, arranged, lemma_arranged, sort_texts, sorted_texts};
use crate::text::{has_text, opt_text, same_text, texts};

verus! {

/// The criticality that stands for one.
pub const CRITICALITY_ONE: u64 = 1_000_000_000_000_000_000;

/// The weight of reach: so much for each symbol, up to the reference.
pub const REACH_PART: u64 = 13_750_000_000_000_000;

/// The reach at which the signal is full.
pub const REACH_REFERENCE: u64 = 40;

/// The weight of depth: so much for each hop, up to the reference.
pub const DEPTH_PART: u64 = 25_000_000_000_000_000;

/// The depth at which the signal is full.
pub const DEPTH_REFERENCE: u64 = 12;

/// The weight of the spread over files.
pub const FILE_SPREAD_WEIGHT: u64 = 150_000_000_000_000_000;

/// One symbol that a feature drives.
#[derive(Debug)]
pub struct FeatureNode {
    pub symbol: String,
    pub file_path: String,
    pub line: u32,
    pub depth: usize,
    pub repository_id: String,
    /// The symbol that led here; none for the entry point.
    pub caller: Option<String>,
    /// How many calls the symbol makes within scope.
    pub callee_count: usize,
    /// The repository that the symbol lives in, where it is another.
    pub repository_name: Option<String>,
}

/// What an entry point drives.
#[derive(Debug)]
pub struct ExecutionFeature {
    pub id: String,
    pub name: String,
    pub entry_point: String,
    pub repository_id: String,
    pub file_count: usize,
    pub reach: usize,
    pub depth: usize,
    pub path: Vec<FeatureNode>,
    /// Parts of [`CRITICALITY_ONE`].
    pub criticality: u64,
}

impl Ranked for ExecutionFeature {
    /// The most critical first.
    open spec fn ranks_before(self, other: Self) -> bool {
        self.criticality > other.criticality
    }

    fn goes_before(&self, other: &Self) -> (r: bool) {
        self.criticality > other.criticality
    }

    proof fn rank_laws(a: Self, b: Self, c: Self) {
    }
}

/// A reference that transfers control.
pub open spec fn is_execution(r: SymbolReference) -> bool {
    r.reference_kind == ReferenceKind::Call || r.reference_kind == ReferenceKind::MethodCall
        || r.reference_kind == ReferenceKind::Instantiation || r.reference_kind
        == ReferenceKind::MacroInvocation
}

/// Whether a reference transfers control.
pub fn is_execution_edge(reference: &SymbolReference) -> (r: bool)
    ensures
        r == is_execution(*reference),
{
    match reference.reference_kind {
        ReferenceKind::Call => true,
        ReferenceKind::MethodCall => true,
        ReferenceKind::Instantiation => true,
        ReferenceKind::MacroInvocation => true,
        _ => false,
    }
}

/// The place of the repository known as `id`, or -1.
pub open spec fn repository_at(repos: Seq<Repository>, id: Seq<char>) -> int
    decreases repos.len(),
{
    if repos.len() == 0 {
        -1
    } else {
        let d = repository_at(repos.drop_last(), id);
        if d < 0 && repos.last().id@ == id {
            repos.len() - 1
        } else {
            d
        }
    }
}

/// The repositories of the namespace, by id, with their names.
pub open spec fn namespace_scope(repos: Seq<Repository>, namespace: Seq<char>) -> Map<
    Seq<char>,
    Seq<char>,
>
    decreases repos.len(),
{
    if repos.len() == 0 {
        Map::empty()
    } else {
        let d = namespace_scope(repos.drop_last(), namespace);
        let r = repos.last();
        if opt_text(r.namespace) == Some(namespace) {
            d.insert(r.id@, r.name@)
        } else {
            d
        }
    }
}

/// The repositories that the walk of a feature may enter, with their names:
/// those of the namespace, where it is known, else only its own.
pub open spec fn scope_of(repos: Option<Seq<Repository>>, id: Seq<char>) -> Map<
    Seq<char>,
    Seq<char>,
> {
    let alone = Map::<Seq<char>, Seq<char>>::empty().insert(id, Seq::empty());
    match repos {
        None => alone,
        Some(rs) => if repository_at(rs, id) >= 0 && rs[repository_at(rs, id)].namespace is Some {
            namespace_scope(rs, rs[repository_at(rs, id)].namespace->0@)
        } else {
            alone
        },
    }
}

/// The texts of a map of strings.
pub open spec fn map_texts(m: Map<Seq<char>, String>) -> Map<Seq<char>, Seq<char>> {
    m.map_values(|s: String| s@)
}

/// The repositories, where they are known.
pub open spec fn opt_repos(repos: Option<&[Repository]>) -> Option<Seq<Repository>> {
    match repos {
        Some(r) => Some(r@),
        None => None,
    }
}

/// The repositories that the walk of a feature may enter, with their names.
/// `repos` is `None` where they could not be listed.
pub fn traversal_scope(repos: Option<&[Repository]>, repository_id: &str) -> (r: TextMap<String>)
    ensures
        map_texts(r@) == scope_of(opt_repos(repos), repository_id@),
{
    let mut alone: TextMap<String> = TextMap::new();
    alone.insert(repository_id.to_string(), String::new());
    proof {
        assert(map_texts(alone@) =~= Map::<Seq<char>, Seq<char>>::empty().insert(
            repository_id@,
            Seq::empty(),
        ));
    }
    let list = match repos {
        Some(l) => l,
        None => {
            return alone;
        },
    };
    let mut found: Option<usize> = None;
    let mut i: usize = 0;
    while i < list.len()
        invariant
            i <= list@.len(),
            found matches Some(k) ==> k < i && k == repository_at(
                list@.take(i as int),
                repository_id@,
            ),
            found is None ==> repository_at(list@.take(i as int), repository_id@) < 0,
        decreases list@.len() - i,
    {
        proof {
            assert(list@.take(i + 1).drop_last() =~= list@.take(i as int));
            assert(list@.take(i + 1).last() == list@[i as int]);
        }
        if found.is_none() && same_text(list[i].id.as_str(), repository_id) {
            found = Some(i);
        }
        i += 1;
    }
    assert(list@.take(i as int) =~= list@);
    let own: usize = match found {
        Some(k) => k,
        None => {
            return alone;
        },
    };
    let namespace = match &list[own].namespace {
        Some(n) => n,
        None => {
            return alone;
        },
    };
    let mut scope: TextMap<String> = TextMap::new();
    let mut k: usize = 0;
    assert(map_texts(scope@) =~= namespace_scope(list@.take(0), namespace@));
    while k < list.len()
        invariant
            k <= list@.len(),
            map_texts(scope@) == namespace_scope(list@.take(k as int), namespace@),
        decreases list@.len() - k,
    {
        let ghost before = scope@;
        proof {
            assert(list@.take(k + 1).drop_last() =~= list@.take(k as int));
            assert(list@.take(k + 1).last() == list@[k as int]);
        }
        let inside = match &list[k].namespace {
            Some(n) => same_text(n.as_str(), namespace.as_str()),
            None => false,
        };
        if inside {
            scope.insert(list[k].id.clone(), list[k].name.clone());
            assert(map_texts(scope@) =~= map_texts(before).insert(
                list@[k as int].id@,
                list@[k as int].name@,
            ));
        }
        k += 1;
    }
    assert(list@.take(k as int) =~= list@);
    scope
}

/// A call by a named symbol.
pub open spec fn is_named_call(r: SymbolReference) -> bool {
    is_execution(r) && r.caller_symbol is Some
}

/// A named symbol calls `symbol`.
pub open spec fn is_called(refs: Seq<SymbolReference>, symbol: Seq<char>) -> bool {
    exists|i: int|
        0 <= i < refs.len() && is_named_call(#[trigger] refs[i]) && refs[i].callee_symbol@
            == symbol
}

/// The named symbols of the repository that make calls, each once.
pub open spec fn callers_in(refs: Seq<SymbolReference>, id: Seq<char>) -> Seq<Seq<char>>
    decreases refs.len(),
{
    if refs.len() == 0 {
        Seq::empty()
    } else {
        let d = callers_in(refs.drop_last(), id);
        let r = refs.last();
        if is_named_call(r) && r.repository_id@ == id && !d.contains(r.caller_symbol->0@) {
            d.push(r.caller_symbol->0@)
        } else {
            d
        }
    }
}

/// Those of `symbols` that no named symbol calls.
pub open spec fn uncalled(refs: Seq<SymbolReference>, symbols: Seq<Seq<char>>) -> Seq<Seq<char>>
    decreases symbols.len(),
{
    if symbols.len() == 0 {
        symbols
    } else {
        let d = uncalled(refs, symbols.drop_last());
        if is_called(refs, symbols.last()) {
            d
        } else {
            d.push(symbols.last())
        }
    }
}

/// The entry points of a repository: its symbols that make calls and that no
/// named symbol of the namespace calls, sorted. `refs` are the references of
/// the namespace.
pub fn find_entry_points(refs: &[SymbolReference], repository_id: &str) -> (r: Vec<String>)
    ensures
        texts(r@) == sorted_texts(uncalled(refs@, callers_in(refs@, repository_id@))),
{
    let mut called = TextSet::new();
    let mut callers: Vec<String> = Vec::new();
    let mut i: usize = 0;
    assert(texts(callers@) =~= callers_in(refs@.take(0), repository_id@));
    while i < refs.len()
        invariant
            i <= refs@.len(),
            texts(callers@) == callers_in(refs@.take(i as int), repository_id@),
            forall|s: Seq<char>| #[trigger]
                called@.contains(s) <==> exists|k: int|
                    0 <= k < i && is_named_call(#[trigger] refs@[k]) && refs@[k].callee_symbol@
                        == s,
        decreases refs@.len() - i,
    {
        let r = &refs[i];
        let ghost before = callers@;
        let ghost called_before = called@;
        proof {
            assert(refs@.take(i + 1).drop_last() =~= refs@.take(i as int));
            assert(refs@.take(i + 1).last() == refs@[i as int]);
        }
        if is_execution_edge(r) {
            if let Some(caller) = &r.caller_symbol {
                if same_text(r.repository_id.as_str(), repository_id) && !has_text(
                    &callers,
                    caller.as_str(),
                ) {
                    callers.push(caller.clone());
                    assert(texts(callers@) =~= texts(before).push(caller@));
                }
                let _ = called.insert(r.callee_symbol.clone());
            }
        }
        proof {
            assert forall|s: Seq<char>| #[trigger]
                called@.contains(s) <==> exists|k: int|
                    0 <= k < i + 1 && is_named_call(#[trigger] refs@[k]) && refs@[k].callee_symbol@
                        == s by {
                if called_before.contains(s) {
                    let k = choose|k: int|
                        0 <= k < i && is_named_call(#[trigger] refs@[k]) && refs@[k].callee_symbol@
                            == s;
                    assert(is_named_call(refs@[k]));
                }
                if called@.contains(s) && !called_before.contains(s) {
                    assert(is_named_call(refs@[i as int]));
                }
            }
        }
        i += 1;
    }
    assert(refs@.take(i as int) =~= refs@);
    let ghost all = texts(callers@);
    let mut points: Vec<String> = Vec::new();
    let mut k: usize = 0;
    assert(texts(points@) =~= uncalled(refs@, all.take(0)));
    while k < callers.len()
        invariant
            k <= callers@.len(),
            all == texts(callers@),
            forall|s: Seq<char>| #[trigger] called@.contains(s) <==> is_called(refs@, s),
            texts(points@) == uncalled(refs@, all.take(k as int)),
        decreases callers@.len() - k,
    {
        let ghost before = points@;
        proof {
            assert(all.take(k + 1).drop_last() =~= all.take(k as int));
            assert(all.take(k + 1).last() == callers@[k as int]@);
        }
        if !called.contains(callers[k].as_str()) {
            points.push(callers[k].clone());
            assert(texts(points@) =~= texts(before).push(callers@[k as int]@));
        }
        k += 1;
    }
    assert(all.take(k as int) =~= all);
    sort_texts(points)
}

/// The calls among references that stay within the scope.
pub open spec fn calls_within(
    refs: Seq<SymbolReference>,
    scope: Map<Seq<char>, Seq<char>>,
) -> Seq<SymbolReference>
    decreases refs.len(),
{
    if refs.len() == 0 {
        refs
    } else {
        let d = calls_within(refs.drop_last(), scope);
        let r = refs.last();
        if is_execution(r) && scope.contains_key(r.repository_id@) {
            d.push(r)
        } else {
            d
        }
    }
}

fn keep_calls(refs: Vec<SymbolReference>, scope: &TextMap<String>) -> (r: Vec<SymbolReference>)
    ensures
        r@ == calls_within(refs@, map_texts(scope@)),
        r@.len() <= refs@.len(),
{
    let ghost all = refs@;
    let mut r: Vec<SymbolReference> = Vec::new();
    for x in it: refs
        invariant
            it.seq() == all,
            r@ == calls_within(all.take(it.index() as int), map_texts(scope@)),
            r@.len() <= it.index(),
    {
        proof {
            let i = it.index() as int;
            assert(all.take(i + 1).drop_last() =~= all.take(i));
            assert(all.take(i + 1).last() == x);
        }
        if is_execution_edge(&x) && scope.contains(x.repository_id.as_str()) {
            r.push(x);
        }
    }
    assert(all.take(all.len() as int) =~= all);
    r
}

/// What a node of a feature says.
pub struct FeatureNodeView {
    pub symbol: Seq<char>,
    pub file_path: Seq<char>,
    pub line: u32,
    pub depth: nat,
    pub repository_id: Seq<char>,
    pub caller: Option<Seq<char>>,
    pub callee_count: nat,
    pub repository_name: Option<Seq<char>>,
}

impl View for FeatureNode {
    type V = FeatureNodeView;

    open spec fn view(&self) -> FeatureNodeView {
        FeatureNodeView {
            symbol: self.symbol@,
            file_path: self.file_path@,
            line: self.line,
            depth: self.depth as nat,
            repository_id: self.repository_id@,
            caller: opt_text(self.caller),
            callee_count: self.callee_count as nat,
            repository_name: opt_text(self.repository_name),
        }
    }
}

/// What nodes of a feature say.
pub open spec fn feature_node_views(s: Seq<FeatureNode>) -> Seq<FeatureNodeView> {
    Seq::new(s.len(), |i: int| s[i]@)
}

/// A symbol that is to be looked up, and how it was reached.
pub struct PendingCall {
    pub symbol: String,
    pub depth: usize,
    pub file_path: String,
    pub line: u32,
    pub caller: String,
}

/// What a pending call says.
pub struct PendingCallView {
    pub symbol: Seq<char>,
    pub depth: nat,
    pub file_path: Seq<char>,
    pub line: u32,
    pub caller: Seq<char>,
}

impl View for PendingCall {
    type V = PendingCallView;

    open spec fn view(&self) -> PendingCallView {
        PendingCallView {
            symbol: self.symbol@,
            depth: self.depth as nat,
            file_path: self.file_path@,
            line: self.line,
            caller: self.caller@,
        }
    }
}

/// What pending calls say.
pub open spec fn pending_call_views(s: Seq<PendingCall>) -> Seq<PendingCallView> {
    Seq::new(s.len(), |i: int| s[i]@)
}

/// Where the walk of a feature stands.
pub struct FeatureWalkView {
    pub visited: Set<Seq<char>>,
    pub queue: Seq<PendingCallView>,
    pub head: nat,
    pub path: Seq<FeatureNodeView>,
}

/// The walk with the callees that are new queued.
pub open spec fn enqueued(
    w: FeatureWalkView,
    calls: Seq<SymbolReference>,
    from: Seq<char>,
    depth: nat,
) -> FeatureWalkView
    decreases calls.len(),
{
    if calls.len() == 0 {
        w
    } else {
        let d = enqueued(w, calls.drop_last(), from, depth);
        let r = calls.last();
        if d.visited.contains(r.callee_symbol@) {
            d
        } else {
            FeatureWalkView {
                visited: d.visited.insert(r.callee_symbol@),
                queue: d.queue.push(
                    PendingCallView {
                        symbol: r.callee_symbol@,
                        depth,
                        file_path: r.reference_file_path@,
                        line: r.reference_line,
                        caller: from,
                    },
                ),
                ..d
            }
        }
    }
}

/// The walk once the calls of the entry point are known.
pub open spec fn entered(entry: Seq<char>, id: Seq<char>, calls: Seq<SymbolReference>) ->
    FeatureWalkView {
    enqueued(
        FeatureWalkView {
            visited: Set::empty().insert(entry),
            queue: Seq::empty(),
            head: 0,
            path: seq![
                FeatureNodeView {
                    symbol: entry,
                    file_path: if calls.len() > 0 {
                        calls[0].caller_file_path@
                    } else {
                        Seq::empty()
                    },
                    line: 0,
                    depth: 0,
                    repository_id: id,
                    caller: None,
                    callee_count: calls.len(),
                    repository_name: None,
                },
            ],
        },
        calls,
        entry,
        1,
    )
}

/// The name of the repository that a symbol lives in, by its first call, where
/// this is another than the feature's and has a name.
pub open spec fn other_repository(
    calls: Seq<SymbolReference>,
    id: Seq<char>,
    scope: Map<Seq<char>, Seq<char>>,
) -> Option<Seq<char>> {
    if calls.len() == 0 || calls[0].repository_id@ == id || !scope.contains_key(
        calls[0].repository_id@,
    ) || scope[calls[0].repository_id@].len() == 0 {
        None
    } else {
        Some(scope[calls[0].repository_id@])
    }
}

/// The walk once the calls of the next symbol are known.
pub open spec fn advanced(
    w: FeatureWalkView,
    id: Seq<char>,
    scope: Map<Seq<char>, Seq<char>>,
    calls: Seq<SymbolReference>,
) -> FeatureWalkView {
    let p = w.queue[w.head as int];
    enqueued(
        FeatureWalkView {
            head: w.head + 1,
            path: w.path.push(
                FeatureNodeView {
                    symbol: p.symbol,
                    file_path: p.file_path,
                    line: p.line,
                    depth: p.depth,
                    repository_id: id,
                    caller: Some(p.caller),
                    callee_count: calls.len(),
                    repository_name: other_repository(calls, id, scope),
                },
            ),
            ..w
        },
        calls,
        p.symbol,
        p.depth + 1,
    )
}

/// The walk of a feature.
pub struct FeatureWalk {
    pub entry_point: String,
    pub repository_id: String,
    pub scope: TextMap<String>,
    pub visited: TextSet,
    pub queue: Vec<PendingCall>,
    pub head: usize,
    pub path: Vec<FeatureNode>,
}

impl View for FeatureWalk {
    type V = FeatureWalkView;

    open spec fn view(&self) -> FeatureWalkView {
        FeatureWalkView {
            visited: self.visited@,
            queue: pending_call_views(self.queue@),
            head: self.head as nat,
            path: feature_node_views(self.path@),
        }
    }
}

/// What holds of the walk of a feature: the path is the entry point and then
/// what was looked up, and no symbol was queued twice.
pub open spec fn feature_sound(w: FeatureWalkView, entry: Seq<char>) -> bool {
    &&& w.head <= w.queue.len()
    &&& w.path.len() == w.head + 1
    &&& w.path[0].symbol == entry
    &&& forall|i: int| 0 <= i < w.head ==> #[trigger] w.path[i + 1].symbol == w.queue[i].symbol
    &&& forall|i: int|
        0 <= i < w.queue.len() ==> (#[trigger] w.queue[i]).symbol != entry && w.visited.contains(
            w.queue[i].symbol,
        )
    &&& w.visited.contains(entry)
    &&& forall|i: int, j: int|
        0 <= i < j < w.queue.len() ==> (#[trigger] w.queue[i]).symbol != (
        #[trigger] w.queue[j]).symbol
    &&& forall|i: int| 0 <= i < w.queue.len() ==> (#[trigger] w.queue[i]).depth <= i + 1
}

proof fn lemma_enqueued(
    w: FeatureWalkView,
    calls: Seq<SymbolReference>,
    from: Seq<char>,
    depth: nat,
    entry: Seq<char>,
)
    requires
        feature_sound(w, entry),
        depth <= w.queue.len() + 1,
    ensures
        feature_sound(enqueued(w, calls, from, depth), entry),
        enqueued(w, calls, from, depth).queue.len() >= w.queue.len(),
        enqueued(w, calls, from, depth).head == w.head,
        enqueued(w, calls, from, depth).path == w.path,
    decreases calls.len(),
{
    if calls.len() > 0 {
        lemma_enqueued(w, calls.drop_last(), from, depth, entry);
        let d = enqueued(w, calls.drop_last(), from, depth);
        let e = enqueued(w, calls, from, depth);
        let s = calls.last().callee_symbol@;
        if !d.visited.contains(s) {
            assert forall|i: int| 0 <= i < e.queue.len() implies (#[trigger] e.queue[i]).symbol
                != entry && e.visited.contains(e.queue[i].symbol) && e.queue[i].depth <= i
                + 1 by {
                if i < d.queue.len() {
                    assert(e.queue[i] == d.queue[i]);
                }
            }
            assert forall|i: int, j: int| 0 <= i < j < e.queue.len() implies (
            #[trigger] e.queue[i]).symbol != (#[trigger] e.queue[j]).symbol by {
                assert(e.queue[i] == d.queue[i]);
                if j < d.queue.len() {
                    assert(e.queue[j] == d.queue[j]);
                } else {
                    assert(d.visited.contains(d.queue[i].symbol));
                }
            }
            assert forall|i: int| 0 <= i < e.head implies #[trigger] e.path[i + 1].symbol
                == e.queue[i].symbol by {
                assert(e.queue[i] == d.queue[i]);
            }
        }
    }
}

impl FeatureWalk {
    /// No symbol was queued twice.
    pub open spec fn wf(self) -> bool {
        feature_sound(self@, self.entry_point@)
    }

    /// Queues the callees that are new.
    fn enqueue(&mut self, calls: &[SymbolReference], from: &String, depth: usize)
        requires
            old(self).wf(),
            depth <= old(self).queue@.len() + 1,
        ensures
            final(self).wf(),
            final(self).entry_point == old(self).entry_point,
            final(self).repository_id == old(self).repository_id,
            final(self).scope == old(self).scope,
            final(self)@ == enqueued(old(self)@, calls@, from@, depth as nat),
    {
        let ghost start = self@;
        let ghost whole = *self;
        let mut i: usize = 0;
        while i < calls.len()
            invariant
                i <= calls@.len(),
                self.entry_point == whole.entry_point,
                self.repository_id == whole.repository_id,
                self.scope == whole.scope,
                self@ == enqueued(start, calls@.take(i as int), from@, depth as nat),
            decreases calls@.len() - i,
        {
            let r = &calls[i];
            let ghost before = *self;
            proof {
                assert(calls@.take(i + 1).drop_last() =~= calls@.take(i as int));
                assert(calls@.take(i + 1).last() == calls@[i as int]);
            }
            if !self.visited.contains(r.callee_symbol.as_str()) {
                let _ = self.visited.insert(r.callee_symbol.clone());
                let p = PendingCall {
                    symbol: r.callee_symbol.clone(),
                    depth,
                    file_path: r.reference_file_path.clone(),
                    line: r.reference_line,
                    caller: from.clone(),
                };
                let ghost v = p@;
                self.queue.push(p);
                assert(pending_call_views(self.queue@) =~= pending_call_views(
                    before.queue@,
                ).push(v));
            }
            i += 1;
        }
        proof {
            assert(calls@.take(i as int) =~= calls@);
            lemma_enqueued(start, calls@, from@, depth as nat, whole.entry_point@);
        }
    }

    /// Begins the walk with the references that leave the entry point.
    pub fn start(
        entry_point: &str,
        repository_id: &str,
        scope: TextMap<String>,
        refs: Vec<SymbolReference>,
    ) -> (r: FeatureWalk)
        ensures
            r.wf(),
            r.entry_point@ == entry_point@,
            r.repository_id@ == repository_id@,
            r.scope == scope,
            r@ == entered(
                entry_point@,
                repository_id@,
                calls_within(refs@, map_texts(scope@)),
            ),
    {
        let calls = keep_calls(refs, &scope);
        let file_path = if calls.len() > 0 {
            calls[0].caller_file_path.clone()
        } else {
            String::new()
        };
        let mut visited = TextSet::new();
        let _ = visited.insert(entry_point.to_string());
        let mut path: Vec<FeatureNode> = Vec::new();
        let node = FeatureNode {
            symbol: entry_point.to_string(),
            file_path,
            line: 0,
            depth: 0,
            repository_id: repository_id.to_string(),
            caller: None,
            callee_count: calls.len(),
            repository_name: None,
        };
        let ghost v = node@;
        path.push(node);
        let mut w = FeatureWalk {
            entry_point: entry_point.to_string(),
            repository_id: repository_id.to_string(),
            scope,
            visited,
            queue: Vec::new(),
            head: 0,
            path,
        };
        proof {
            assert(feature_node_views(w.path@) =~= seq![v]);
            assert(pending_call_views(w.queue@) =~= Seq::<PendingCallView>::empty());
        }
        let from = entry_point.to_string();
        w.enqueue(&calls, &from, 1);
        w
    }

    /// The symbol to look up next.
    pub fn next(&self) -> (r: Option<&str>)
        ensures
            r is Some == (self.head < self.queue@.len()),
            r matches Some(s) ==> s@ == self@.queue[self.head as int].symbol,
    {
        if self.head < self.queue.len() {
            Some(self.queue[self.head].symbol.as_str())
        } else {
            None
        }
    }

    /// Takes the references that leave the symbol that was to be looked up.
    pub fn found(&mut self, refs: Vec<SymbolReference>)
        requires
            old(self).wf(),
            old(self).head < old(self).queue@.len(),
        ensures
            final(self).wf(),
            final(self).entry_point == old(self).entry_point,
            final(self).repository_id == old(self).repository_id,
            final(self).scope == old(self).scope,
            final(self)@ == advanced(
                old(self)@,
                old(self).repository_id@,
                map_texts(old(self).scope@),
                calls_within(refs@, map_texts(old(self).scope@)),
            ),
    {
        let ghost start = *self;
        let queued: usize = self.queue.len();
        let calls = keep_calls(refs, &self.scope);
        let repository_name = if calls.len() > 0 && !same_text(
            calls[0].repository_id.as_str(),
            self.repository_id.as_str(),
        ) {
            match self.scope.get(calls[0].repository_id.as_str()) {
                Some(name) => if name.as_str().is_empty() {
                    None
                } else {
                    Some(name.clone())
                },
                None => None,
            }
        } else {
            None
        };
        assert(opt_text(repository_name) == other_repository(
            calls@,
            self.repository_id@,
            map_texts(self.scope@),
        ));
        let p = &self.queue[self.head];
        assert(self@.queue[self.head as int] == p@);
        let symbol = p.symbol.clone();
        let depth: usize = p.depth;
        let node = FeatureNode {
            symbol: p.symbol.clone(),
            file_path: p.file_path.clone(),
            line: p.line,
            depth,
            repository_id: self.repository_id.clone(),
            caller: Some(p.caller.clone()),
            callee_count: calls.len(),
            repository_name,
        };
        let ghost v = node@;
        self.path.push(node);
        let steps: usize = self.path.len();
        assert(depth + 1 <= steps);
        self.head = self.head + 1;
        proof {
            assert(feature_node_views(self.path@) =~= feature_node_views(start.path@).push(v));
            let w = self@;
            assert forall|i: int| 0 <= i < w.head implies #[trigger] w.path[i + 1].symbol
                == w.queue[i].symbol by {
                if i < start.head {
                    assert(w.path[i + 1] == start@.path[i + 1]);
                }
            }
        }
        self.enqueue(&calls, &symbol, depth + 1);
    }
}

/// The lesser of two numbers.
pub open spec fn lesser(a: int, b: int) -> int {
    if a < b {
        a
    } else {
        b
    }
}

/// What the spread of a feature over files is a share of.
pub open spec fn spread_base(reach: int) -> int {
    if reach > 1 {
        reach
    } else {
        1
    }
}

/// How critical a feature is: mostly by its reach, then by its depth, then by
/// how far it spreads over files.
pub open spec fn criticality_of(reach: int, depth: int, files: int) -> int {
    REACH_PART * lesser(reach, REACH_REFERENCE as int) + DEPTH_PART * lesser(
        depth,
        DEPTH_REFERENCE as int,
    ) + FILE_SPREAD_WEIGHT * lesser(files, reach) / spread_base(reach)
}

/// Criticality is at most one.
pub proof fn lemma_criticality(reach: int, depth: int, files: int)
    requires
        0 <= reach,
        0 <= depth,
        0 <= files,
    ensures
        0 <= criticality_of(reach, depth, files) <= CRITICALITY_ONE,
{
    let f = if files < reach { files } else { reach };
    let d = if reach > 1 { reach } else { 1 };
    assert(0 <= FILE_SPREAD_WEIGHT * f / d <= FILE_SPREAD_WEIGHT) by (nonlinear_arith)
        requires
            0 <= f <= d,
            d >= 1,
            FILE_SPREAD_WEIGHT == 150_000_000_000_000_000u64,
    ;
}

/// Criticality rises with reach at least as long as the files keep step, and
/// with depth and files always: of two features of equal reach the deeper or
/// wider is no less critical.
pub proof fn lemma_criticality_monotone(reach: int, d1: int, d2: int, f1: int, f2: int)
    requires
        0 <= reach,
        0 <= d1 <= d2,
        0 <= f1 <= f2,
    ensures
        criticality_of(reach, d1, f1) <= criticality_of(reach, d2, f2),
{
    let a = if f1 < reach { f1 } else { reach };
    let b = if f2 < reach { f2 } else { reach };
    let d = if reach > 1 { reach } else { 1 };
    assert(FILE_SPREAD_WEIGHT * a / d <= FILE_SPREAD_WEIGHT * b / d) by (nonlinear_arith)
        requires
            0 <= a <= b,
            d >= 1,
            FILE_SPREAD_WEIGHT == 150_000_000_000_000_000u64,
    ;
}

/// Criticality before any rounding, times [`spread_base`] and in parts of which
/// 800 stand for one: 11/800 for each symbol reached, 20/800 for each hop, and
/// 120/800 times the share of files.
pub open spec fn exact_criticality(reach: int, depth: int, files: int) -> int {
    (11 * lesser(reach, REACH_REFERENCE as int) + 20 * lesser(depth, DEPTH_REFERENCE as int))
        * spread_base(reach) + 120 * lesser(files, reach)
}

/// Parts of [`CRITICALITY_ONE`] to one of the 800 parts.
pub const EXACT_PART: u64 = 1_250_000_000_000_000;

/// The reach up to which no two criticalities are confused.
pub const EXACT_REACH: u64 = 35_000_000;

/// Criticality is the unrounded number rounded down.
pub proof fn lemma_criticality_rounds(reach: int, depth: int, files: int)
    requires
        0 <= reach,
        0 <= depth,
        0 <= files,
    ensures
        ({
            let c = criticality_of(reach, depth, files);
            let d = spread_base(reach);
            let e = EXACT_PART * exact_criticality(reach, depth, files);
            c * d <= e < (c + 1) * d
        }),
{
    let a = lesser(reach, REACH_REFERENCE as int);
    let b = lesser(depth, DEPTH_REFERENCE as int);
    let f = lesser(files, reach);
    let d = spread_base(reach);
    let w = FILE_SPREAD_WEIGHT as int;
    let q = w * f / d;
    let base = REACH_PART * a + DEPTH_PART * b;
    assert(q * d <= w * f < (q + 1) * d) by (nonlinear_arith)
        requires
            q == w * f / d,
            d >= 1,
    ;
    assert(criticality_of(reach, depth, files) == base + q);
    assert((base + q) * d == base * d + q * d) by (nonlinear_arith);
    assert((base + q + 1) * d == base * d + (q + 1) * d) by (nonlinear_arith);
    let g = 11 * a + 20 * b;
    assert(base == EXACT_PART * g);
    assert(EXACT_PART * (g * d + 120 * f) == base * d + w * f) by (nonlinear_arith)
        requires
            base == EXACT_PART * g,
            w == 120 * EXACT_PART,
    ;
}

/// Criticality orders features as the unrounded numbers do.
pub proof fn lemma_criticality_is_exact(r1: int, d1: int, f1: int, r2: int, d2: int, f2: int)
    requires
        0 <= r1 <= EXACT_REACH,
        0 <= r2 <= EXACT_REACH,
        0 <= d1 && 0 <= f1 && 0 <= d2 && 0 <= f2,
    ensures
        criticality_of(r1, d1, f1) > criticality_of(r2, d2, f2) <==> exact_criticality(r1, d1, f1)
            * spread_base(r2) > exact_criticality(r2, d2, f2) * spread_base(r1),
{
    lemma_criticality_rounds(r1, d1, f1);
    lemma_criticality_rounds(r2, d2, f2);
    let u = EXACT_PART as int;
    let e1 = exact_criticality(r1, d1, f1);
    let e2 = exact_criticality(r2, d2, f2);
    let x = spread_base(r1);
    let y = spread_base(r2);
    let c1 = criticality_of(r1, d1, f1);
    let c2 = criticality_of(r2, d2, f2);
    assert(x * y <= u) by (nonlinear_arith)
        requires
            1 <= x <= 35_000_000,
            1 <= y <= 35_000_000,
            u == 1_250_000_000_000_000int,
    ;
    if e1 * y > e2 * x && c1 <= c2 {
        assert(u * (e1 * y) >= u * (e2 * x) + u) by (nonlinear_arith)
            requires
                e1 * y >= e2 * x + 1,
                u > 0,
        ;
        assert((u * e1) * y < (c2 + 1) * x * y) by (nonlinear_arith)
            requires
                u * e1 < (c1 + 1) * x,
                c1 <= c2,
                x >= 1,
                y >= 1,
        ;
        assert(c2 * y * x <= (u * e2) * x) by (nonlinear_arith)
            requires
                c2 * y <= u * e2,
                x >= 1,
        ;
        assert((c2 + 1) * x * y == c2 * y * x + x * y) by (nonlinear_arith);
        assert((u * e1) * y == u * (e1 * y)) by (nonlinear_arith);
        assert((u * e2) * x == u * (e2 * x)) by (nonlinear_arith);
    }
    if e1 * y <= e2 * x && c1 > c2 {
        assert(u * (e1 * y) <= u * (e2 * x)) by (nonlinear_arith)
            requires
                e1 * y <= e2 * x,
                u > 0,
        ;
        assert((u * e1) * y >= (c2 + 1) * x * y) by (nonlinear_arith)
            requires
                c1 * x <= u * e1,
                c1 >= c2 + 1,
                x >= 1,
                y >= 1,
        ;
        assert((u * e2) * x < (c2 + 1) * y * x) by (nonlinear_arith)
            requires
                u * e2 < (c2 + 1) * y,
                x >= 1,
        ;
        assert((c2 + 1) * x * y == (c2 + 1) * y * x) by (nonlinear_arith);
        assert((u * e1) * y == u * (e1 * y)) by (nonlinear_arith);
        assert((u * e2) * x == u * (e2 * x)) by (nonlinear_arith);
    }
}

fn score(reach: usize, depth: usize, files: usize) -> (r: u64)
    ensures
        r == criticality_of(reach as int, depth as int, files as int),
{
    proof {
        lemma_criticality(reach as int, depth as int, files as int);
    }
    let a: u64 = if (reach as u64) < REACH_REFERENCE {
        reach as u64
    } else {
        REACH_REFERENCE
    };
    let b: u64 = if (depth as u64) < DEPTH_REFERENCE {
        depth as u64
    } else {
        DEPTH_REFERENCE
    };
    let f: u128 = if files < reach {
        files as u128
    } else {
        reach as u128
    };
    let d: u128 = if reach > 1 {
        reach as u128
    } else {
        1
    };
    let spread: u128 = FILE_SPREAD_WEIGHT as u128 * f / d;
    REACH_PART * a + DEPTH_PART * b + spread as u64
}

/// The files of a path, each once.
pub open spec fn path_files(path: Seq<FeatureNodeView>) -> Seq<Seq<char>>
    decreases path.len(),
{
    if path.len() == 0 {
        Seq::empty()
    } else {
        let d = path_files(path.drop_last());
        if d.contains(path.last().file_path) {
            d
        } else {
            d.push(path.last().file_path)
        }
    }
}

/// The greatest depth on a path.
pub open spec fn path_depth(path: Seq<FeatureNodeView>) -> nat
    decreases path.len(),
{
    if path.len() == 0 {
        0
    } else {
        let d = path_depth(path.drop_last());
        if path.last().depth > d {
            path.last().depth
        } else {
            d
        }
    }
}

/// No symbol stands twice on the path.
pub open spec fn symbols_differ(path: Seq<FeatureNodeView>) -> bool {
    forall|i: int, j: int|
        0 <= i < j < path.len() ==> (#[trigger] path[i]).symbol != (#[trigger] path[j]).symbol
}

/// The feature is the one of the walk.
pub open spec fn is_feature(
    f: ExecutionFeature,
    entry: Seq<char>,
    id: Seq<char>,
    path: Seq<FeatureNodeView>,
) -> bool {
    &&& f.id@ == id + ":"@ + entry
    &&& f.name@ == feature_name(entry)
    &&& f.entry_point@ == entry
    &&& f.repository_id@ == id
    &&& feature_node_views(f.path@) == path
    &&& f.reach == path.len()
    &&& f.file_count == path_files(path).len()
    &&& f.depth == path_depth(path)
    &&& f.criticality == criticality_of(
        path.len() as int,
        path_depth(path) as int,
        path_files(path).len() as int,
    )
}

impl FeatureWalk {
    /// The feature that the walk found. No symbol stands on its path twice.
    pub fn finish(self) -> (r: ExecutionFeature)
        requires
            self.wf(),
        ensures
            is_feature(r, self.entry_point@, self.repository_id@, self@.path),
            symbols_differ(self@.path),
    {
        let path = self.path;
        let ghost all = self@.path;
        proof {
            let w = self@;
            assert forall|i: int, j: int| 0 <= i < j < all.len() implies (#[trigger] all[i]).symbol
                != (#[trigger] all[j]).symbol by {
                assert(w.path[(j - 1) + 1].symbol == w.queue[j - 1].symbol);
                if i > 0 {
                    assert(w.path[(i - 1) + 1].symbol == w.queue[i - 1].symbol);
                }
            }
        }
        let mut files: Vec<String> = Vec::new();
        let mut depth: usize = 0;
        let mut i: usize = 0;
        assert(texts(files@) =~= path_files(all.take(0)));
        while i < path.len()
            invariant
                i <= path@.len(),
                all == feature_node_views(path@),
                texts(files@) == path_files(all.take(i as int)),
                depth == path_depth(all.take(i as int)),
            decreases path@.len() - i,
        {
            let ghost before = files@;
            proof {
                assert(all.take(i + 1).drop_last() =~= all.take(i as int));
                assert(all.take(i + 1).last() == path@[i as int]@);
            }
            if !has_text(&files, path[i].file_path.as_str()) {
                files.push(path[i].file_path.clone());
                assert(texts(files@) =~= texts(before).push(path@[i as int].file_path@));
            }
            if path[i].depth > depth {
                depth = path[i].depth;
            }
            i += 1;
        }
        proof {
            assert(all.take(i as int) =~= all);
            assert(texts(files@).len() == files@.len());
        }
        let reach: usize = path.len();
        let file_count: usize = files.len();
        let criticality: u64 = score(reach, depth, file_count);
        let mut id = self.repository_id.clone();
        id.append(":");
        id.append(self.entry_point.as_str());
        ExecutionFeature {
            id,
            name: short_name(self.entry_point.as_str()),
            entry_point: self.entry_point,
            repository_id: self.repository_id,
            file_count,
            reach,
            depth,
            path,
            criticality,
        }
    }
}

/// Puts features in order, the most critical first, and keeps at most `limit`.
pub fn rank_features(features: Vec<ExecutionFeature>, limit: usize) -> (r: Vec<ExecutionFeature>)
    ensures
        r@ == if limit < features@.len() {
            arranged(features@).take(limit as int)
        } else {
            arranged(features@)
        },
{
    proof {
        lemma_arranged(features@);
    }
    let mut r = arrange(features);
    r.truncate(limit);
    r
}

/// The place of the first feature of the entry point, or -1.
pub open spec fn feature_at(s: Seq<ExecutionFeature>, entry: Seq<char>) -> int
    decreases s.len(),
{
    if s.len() == 0 {
        -1
    } else {
        let d = feature_at(s.drop_last(), entry);
        if d < 0 && s.last().entry_point@ == entry {
            s.len() - 1
        } else {
            d
        }
    }
}

/// The stored feature of an entry point.
pub fn find_stored(stored: Vec<ExecutionFeature>, entry_point: &str) -> (r: Option<
    ExecutionFeature,
>)
    ensures
        r is Some == (feature_at(stored@, entry_point@) >= 0),
        r matches Some(f) ==> f == stored@[feature_at(stored@, entry_point@)],
{
    let ghost all = stored@;
    let mut found: Option<ExecutionFeature> = None;
    for f in it: stored
        invariant
            it.seq() == all,
            found is Some == (feature_at(all.take(it.index() as int), entry_point@) >= 0),
            found matches Some(x) ==> feature_at(all.take(it.index() as int), entry_point@)
                < it.index() && x == all[feature_at(all.take(it.index() as int), entry_point@)],
    {
        proof {
            let i = it.index() as int;
            assert(all.take(i + 1).drop_last() =~= all.take(i));
            assert(all.take(i + 1).last() == f);
        }
        if found.is_none() && same_text(f.entry_point.as_str(), entry_point) {
            found = Some(f);
        }
    }
    assert(all.take(all.len() as int) =~= all);
    found
}

/// The repository of the first call among references, if there is one.
pub open spec fn first_call_repository(refs: Seq<SymbolReference>) -> Option<Seq<char>>
    decreases refs.len(),
{
    if refs.len() == 0 {
        None
    } else if is_execution(refs[0]) {
        Some(refs[0].repository_id@)
    } else {
        first_call_repository(refs.skip(1))
    }
}

/// The repository of the first call among references.
pub fn call_repository(refs: &[SymbolReference]) -> (r: Option<String>)
    ensures
        opt_text(r) == first_call_repository(refs@),
{
    let mut i: usize = 0;
    assert(refs@.skip(0) =~= refs@);
    while i < refs.len()
        invariant
            i <= refs@.len(),
            first_call_repository(refs@) == first_call_repository(refs@.skip(i as int)),
        decreases refs@.len() - i,
    {
        proof {
            assert(refs@.skip(i as int)[0] == refs@[i as int]);
            assert(refs@.skip(i as int).skip(1) =~= refs@.skip(i + 1));
        }
        if is_execution_edge(&refs[i]) {
            return Some(refs[i].repository_id.clone());
        }
        i += 1;
    }
    None
}

/// Whether a symbol is an entry point: no named symbol of the scope calls it.
pub fn is_entry_point(callers: &[SymbolReference], scope: &TextMap<String>) -> (r: bool)
    ensures
        r == !exists|i: int|
            0 <= i < callers@.len() && is_named_call(#[trigger] callers@[i])
                && scope@.contains_key(callers@[i].repository_id@),
{
    let mut i: usize = 0;
    while i < callers.len()
        invariant
            i <= callers@.len(),
            forall|k: int|
                0 <= k < i ==> !(is_named_call(#[trigger] callers@[k]) && scope@.contains_key(
                    callers@[k].repository_id@,
                )),
        decreases callers@.len() - i,
    {
        let r = &callers[i];
        if is_execution_edge(r) && r.caller_symbol.is_some() && scope.contains(
            r.repository_id.as_str(),
        ) {
            assert(is_named_call(callers@[i as int]));
            return false;
        }
        i += 1;
    }
    true
}

/// A symbol on the path was changed.
pub open spec fn is_impacted(f: ExecutionFeature, changed: Seq<Seq<char>>) -> bool {
    exists|i: int|
        0 <= i < f.path@.len() && changed.contains((#[trigger] f.path@[i]).symbol@)
}

/// The features with a changed symbol on their path.
pub open spec fn impacted(fs: Seq<ExecutionFeature>, changed: Seq<Seq<char>>) -> Seq<
    ExecutionFeature,
>
    decreases fs.len(),
{
    if fs.len() == 0 {
        fs
    } else {
        let d = impacted(fs.drop_last(), changed);
        if is_impacted(fs.last(), changed) {
            d.push(fs.last())
        } else {
            d
        }
    }
}

/// The features with a changed symbol on their path, the most critical first.
pub fn impacted_features(features: Vec<ExecutionFeature>, changed: &[String]) -> (r: Vec<
    ExecutionFeature,
>)
    ensures
        r@ == arranged(impacted(features@, texts(changed@))),
{
    let ghost all = features@;
    let ghost ch = texts(changed@);
    let mut r: Vec<ExecutionFeature> = Vec::new();
    for f in it: features
        invariant
            it.seq() == all,
            ch == texts(changed@),
            r@ == impacted(all.take(it.index() as int), ch),
    {
        proof {
            let i = it.index() as int;
            assert(all.take(i + 1).drop_last() =~= all.take(i));
            assert(all.take(i + 1).last() == f);
        }
        let mut hit = false;
        let mut k: usize = 0;
        while k < f.path.len()
            invariant
                k <= f.path@.len(),
                ch == texts(changed@),
                hit == exists|m: int|
                    0 <= m < k && ch.contains((#[trigger] f.path@[m]).symbol@),
            decreases f.path@.len() - k,
        {
            if has_text(changed, f.path[k].symbol.as_str()) {
                assert(ch.contains(f.path@[k as int].symbol@));
                hit = true;
            }
            k += 1;
        }
        assert(hit == is_impacted(f, ch));
        if hit {
            r.push(f);
        }
    }
    assert(all.take(all.len() as int) =~= all);
    arrange(r)
}

} // verus!
