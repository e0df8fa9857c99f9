//! What execution features owe to the references they were found in.

use vstd::prelude::*;
use crate::domain::{ReferenceKind, Repository, SymbolReference};
use crate::execution_features::{
    ExecutionFeature, FeatureNodeView, FeatureWalkView, PendingCallView, advanced, callers_in,
    calls_within, enqueued, entered, exact_criticality, feature_node_views, first_call_repository,
    impacted, is_called, is_execution, is_feature, is_impacted, is_named_call,
    lemma_criticality_rounds, namespace_scope, other_repository, path_depth, path_files,
    repository_at, scope_of, uncalled,
};
use crate::order::{
    arranged, lemma_arranged, lemma_arranged_contains, lemma_sorted, sorted_texts, texts_in_order,
};
use crate::text::opt_text;

verus! {

/// References of the kind hand control to what they name.
pub open spec fn runs(k: ReferenceKind) -> bool {
    match k {
        ReferenceKind::Call => true,
        ReferenceKind::MethodCall => true,
        ReferenceKind::Instantiation => true,
        ReferenceKind::MacroInvocation => true,
        ReferenceKind::TypeReference => false,
        ReferenceKind::Import => false,
        ReferenceKind::Inheritance => false,
        ReferenceKind::Implementation => false,
        ReferenceKind::Unknown => false,
    }
}

/// Calls, method calls, instantiations and macro invocations are executed;
/// what only names a type, a module or nothing known is not.
pub proof fn lemma_execution_kinds(r: SymbolReference)
    ensures
        is_execution(r) == runs(r.reference_kind),
        r.reference_kind is Call || r.reference_kind is MethodCall || r.reference_kind
            is Instantiation || r.reference_kind is MacroInvocation ==> is_execution(r),
        r.reference_kind is TypeReference || r.reference_kind is Import || r.reference_kind
            is Inheritance || r.reference_kind is Implementation || r.reference_kind is Unknown
            ==> !is_execution(r),
{
}

proof fn lemma_callers_in(refs: Seq<SymbolReference>, id: Seq<char>, s: Seq<char>)
    ensures
        callers_in(refs, id).contains(s) <==> exists|i: int|
            0 <= i < refs.len() && runs((#[trigger] refs[i]).reference_kind) && opt_text(
                refs[i].caller_symbol,
            ) == Some(s) && refs[i].repository_id@ == id,
    decreases refs.len(),
{
    if refs.len() > 0 {
        let d = refs.drop_last();
        lemma_callers_in(d, id, s);
        let before = callers_in(d, id);
        let all = callers_in(refs, id);
        let r = refs.last();
        lemma_execution_kinds(r);
        if before.contains(s) {
            let k = choose|k: int| 0 <= k < before.len() && before[k] == s;
            assert(all[k] == s);
            let i = choose|i: int|
                0 <= i < d.len() && runs((#[trigger] d[i]).reference_kind) && opt_text(
                    d[i].caller_symbol,
                ) == Some(s) && d[i].repository_id@ == id;
            assert(refs[i] == d[i]);
        } else if all.contains(s) {
            let k = choose|k: int| 0 <= k < all.len() && all[k] == s;
            if k < before.len() {
                assert(before[k] == s);
            }
            assert(refs[refs.len() - 1] == r);
        }
        if exists|i: int|
            0 <= i < refs.len() && runs((#[trigger] refs[i]).reference_kind) && opt_text(
                refs[i].caller_symbol,
            ) == Some(s) && refs[i].repository_id@ == id {
            let i = choose|i: int|
                0 <= i < refs.len() && runs((#[trigger] refs[i]).reference_kind) && opt_text(
                    refs[i].caller_symbol,
                ) == Some(s) && refs[i].repository_id@ == id;
            if i < d.len() {
                assert(d[i] == refs[i]);
            } else if !before.contains(s) {
                assert(all[before.len() as int] == s);
            }
        }
    }
}

proof fn lemma_uncalled(refs: Seq<SymbolReference>, symbols: Seq<Seq<char>>, s: Seq<char>)
    ensures
        uncalled(refs, symbols).contains(s) <==> symbols.contains(s) && !is_called(refs, s),
    decreases symbols.len(),
{
    if symbols.len() > 0 {
        let d = symbols.drop_last();
        lemma_uncalled(refs, d, s);
        let before = uncalled(refs, d);
        let all = uncalled(refs, symbols);
        if before.contains(s) {
            let k = choose|k: int| 0 <= k < before.len() && before[k] == s;
            assert(all[k] == s);
            let m = choose|m: int| 0 <= m < d.len() && d[m] == s;
            assert(symbols[m] == s);
        } else if all.contains(s) {
            let k = choose|k: int| 0 <= k < all.len() && all[k] == s;
            if k < before.len() {
                assert(before[k] == s);
            }
            assert(symbols[symbols.len() - 1] == s);
        }
        if symbols.contains(s) && !is_called(refs, s) {
            let m = choose|m: int| 0 <= m < symbols.len() && symbols[m] == s;
            if m < d.len() {
                assert(d[m] == s);
            } else {
                assert(all[before.len() as int] == s);
            }
        }
    }
}

/// A symbol is an entry point of a repository if and only if it calls
/// something there and nothing that has a name calls it; entry points come in
/// order.
pub proof fn lemma_entry_points(refs: Seq<SymbolReference>, id: Seq<char>, s: Seq<char>)
    ensures
        ({
            let found = sorted_texts(uncalled(refs, callers_in(refs, id)));
            &&& texts_in_order(found)
            &&& found.contains(s) <==> (exists|i: int|
                0 <= i < refs.len() && runs((#[trigger] refs[i]).reference_kind) && opt_text(
                    refs[i].caller_symbol,
                ) == Some(s) && refs[i].repository_id@ == id) && !(exists|j: int|
                0 <= j < refs.len() && runs((#[trigger] refs[j]).reference_kind)
                    && refs[j].caller_symbol is Some && refs[j].callee_symbol@ == s)
        }),
{
    lemma_callers_in(refs, id, s);
    lemma_uncalled(refs, callers_in(refs, id), s);
    lemma_sorted(uncalled(refs, callers_in(refs, id)));
    if is_called(refs, s) {
        let j = choose|j: int|
            0 <= j < refs.len() && is_named_call(#[trigger] refs[j]) && refs[j].callee_symbol@
                == s;
        lemma_execution_kinds(refs[j]);
        assert(runs(refs[j].reference_kind));
    }
    if exists|j: int|
        0 <= j < refs.len() && runs((#[trigger] refs[j]).reference_kind) && refs[j].caller_symbol
            is Some && refs[j].callee_symbol@ == s {
        let j = choose|j: int|
            0 <= j < refs.len() && runs((#[trigger] refs[j]).reference_kind)
                && refs[j].caller_symbol is Some && refs[j].callee_symbol@ == s;
        lemma_execution_kinds(refs[j]);
        assert(is_named_call(refs[j]));
    }
}

/// A call that a feature may follow: it hands over control, in a repository of
/// the scope.
pub open spec fn follows(r: SymbolReference, scope: Map<Seq<char>, Seq<char>>) -> bool {
    runs(r.reference_kind) && scope.contains_key(r.repository_id@)
}

proof fn lemma_calls_within(
    refs: Seq<SymbolReference>,
    scope: Map<Seq<char>, Seq<char>>,
    r: SymbolReference,
)
    ensures
        calls_within(refs, scope).contains(r) <==> refs.contains(r) && follows(r, scope),
    decreases refs.len(),
{
    if refs.len() > 0 {
        let d = refs.drop_last();
        lemma_calls_within(d, scope, r);
        lemma_execution_kinds(refs.last());
        let before = calls_within(d, scope);
        let all = calls_within(refs, scope);
        if before.contains(r) {
            let k = choose|k: int| 0 <= k < before.len() && before[k] == r;
            assert(all[k] == r);
            let m = choose|m: int| 0 <= m < d.len() && d[m] == r;
            assert(refs[m] == r);
        } else if all.contains(r) {
            let k = choose|k: int| 0 <= k < all.len() && all[k] == r;
            if k < before.len() {
                assert(before[k] == r);
            }
            assert(refs[refs.len() - 1] == r);
        }
        if refs.contains(r) && follows(r, scope) {
            let m = choose|m: int| 0 <= m < refs.len() && refs[m] == r;
            if m < d.len() {
                assert(d[m] == r);
            } else {
                assert(all[before.len() as int] == r);
            }
        }
    }
}

/// The walk of a feature after `n` lookups.
pub open spec fn feature_run(
    lookup: spec_fn(Seq<char>) -> Seq<SymbolReference>,
    entry: Seq<char>,
    id: Seq<char>,
    scope: Map<Seq<char>, Seq<char>>,
    n: nat,
) -> FeatureWalkView
    decreases n,
{
    if n == 0 {
        entered(entry, id, calls_within(lookup(entry), scope))
    } else {
        let w = feature_run(lookup, entry, id, scope, (n - 1) as nat);
        if w.head < w.queue.len() {
            advanced(w, id, scope, calls_within(lookup(w.queue[w.head as int].symbol), scope))
        } else {
            w
        }
    }
}

/// A call out of `from` that may be followed leads to `to`, from that line of
/// that file.
pub open spec fn calls_at(
    lookup: spec_fn(Seq<char>) -> Seq<SymbolReference>,
    scope: Map<Seq<char>, Seq<char>>,
    from: Seq<char>,
    to: Seq<char>,
    file: Seq<char>,
    line: u32,
) -> bool {
    exists|i: int|
        0 <= i < lookup(from).len() && follows(#[trigger] lookup(from)[i], scope)
            && lookup(from)[i].callee_symbol@ == to && lookup(from)[i].reference_file_path@ == file
            && lookup(from)[i].reference_line == line
}

proof fn lemma_enqueued(
    w: FeatureWalkView,
    calls: Seq<SymbolReference>,
    from: Seq<char>,
    depth: nat,
)
    ensures
        ({
            let r = enqueued(w, calls, from, depth);
            &&& r.head == w.head
            &&& r.path == w.path
            &&& w.queue.len() <= r.queue.len()
            &&& forall|i: int| 0 <= i < w.queue.len() ==> #[trigger] r.queue[i] == w.queue[i]
            &&& forall|i: int|
                w.queue.len() <= i < r.queue.len() ==> {
                    let p = #[trigger] r.queue[i];
                    p.caller == from && p.depth == depth && exists|k: int|
                        0 <= k < calls.len() && (#[trigger] calls[k]).callee_symbol@ == p.symbol
                            && calls[k].reference_file_path@ == p.file_path
                            && calls[k].reference_line == p.line
                }
            &&& forall|s: Seq<char>| w.visited.contains(s) ==> #[trigger] r.visited.contains(s)
            &&& forall|k: int|
                0 <= k < calls.len() ==> r.visited.contains((#[trigger] calls[k]).callee_symbol@)
            &&& forall|s: Seq<char>| #[trigger]
                r.visited.contains(s) ==> w.visited.contains(s) || exists|i: int|
                    w.queue.len() <= i < r.queue.len() && (#[trigger] r.queue[i]).symbol == s
        }),
    decreases calls.len(),
{
    if calls.len() > 0 {
        let c = calls.drop_last();
        lemma_enqueued(w, c, from, depth);
        let d = enqueued(w, c, from, depth);
        let r = enqueued(w, calls, from, depth);
        let last = calls.last();
        assert(calls[calls.len() - 1] == last);
        assert forall|i: int| w.queue.len() <= i < r.queue.len() implies {
            let p = #[trigger] r.queue[i];
            p.caller == from && p.depth == depth && exists|k: int|
                0 <= k < calls.len() && (#[trigger] calls[k]).callee_symbol@ == p.symbol
                    && calls[k].reference_file_path@ == p.file_path && calls[k].reference_line
                    == p.line
        } by {
            let p = r.queue[i];
            if i < d.queue.len() {
                assert(d.queue[i] == p);
                let k = choose|k: int|
                    0 <= k < c.len() && (#[trigger] c[k]).callee_symbol@ == p.symbol
                        && c[k].reference_file_path@ == p.file_path && c[k].reference_line
                        == p.line;
                assert(calls[k] == c[k]);
            } else {
                assert(calls[calls.len() - 1].callee_symbol@ == p.symbol);
            }
        }
        assert forall|k: int| 0 <= k < calls.len() implies r.visited.contains(
            (#[trigger] calls[k]).callee_symbol@,
        ) by {
            if k < c.len() {
                assert(c[k] == calls[k]);
                assert(d.visited.contains(c[k].callee_symbol@));
            }
        }
        assert forall|s: Seq<char>| #[trigger] r.visited.contains(s) implies w.visited.contains(s)
            || exists|i: int|
            w.queue.len() <= i < r.queue.len() && (#[trigger] r.queue[i]).symbol == s by {
            if d.visited.contains(s) && !w.visited.contains(s) {
                let i = choose|i: int|
                    w.queue.len() <= i < d.queue.len() && (#[trigger] d.queue[i]).symbol == s;
                assert(r.queue[i].symbol == s);
            } else if !d.visited.contains(s) {
                assert(r.queue[d.queue.len() as int].symbol == s);
            }
        }
    }
}

/// What holds of a walk at every step.
spec fn feature_holds(
    w: FeatureWalkView,
    lookup: spec_fn(Seq<char>) -> Seq<SymbolReference>,
    entry: Seq<char>,
    scope: Map<Seq<char>, Seq<char>>,
) -> bool {
    &&& w.head <= w.queue.len()
    &&& w.path.len() == w.head + 1
    &&& w.path[0].symbol == entry && w.path[0].depth == 0 && w.path[0].caller is None
    &&& forall|i: int| 0 <= i < w.head ==> matches_pending(#[trigger] w.path[i + 1], w.queue[i])
    &&& forall|s: Seq<char>| #[trigger]
        w.visited.contains(s) ==> s == entry || exists|i: int|
            0 <= i < w.queue.len() && (#[trigger] w.queue[i]).symbol == s
    &&& forall|i: int|
        0 <= i < w.queue.len() ==> has_source(w, lookup, scope, #[trigger] w.queue[i])
    &&& forall|k: int, i: int|
        0 <= k < w.path.len() && 0 <= i < lookup((#[trigger] w.path[k]).symbol).len() && follows(
            #[trigger] lookup(w.path[k].symbol)[i],
            scope,
        ) ==> w.visited.contains(lookup(w.path[k].symbol)[i].callee_symbol@)
}

spec fn matches_pending(n: FeatureNodeView, p: PendingCallView) -> bool {
    n.symbol == p.symbol && n.depth == p.depth && n.file_path == p.file_path && n.line == p.line
        && n.caller == Some(p.caller)
}

/// Some node on the path calls the pending symbol from one hop nearer.
spec fn has_source(
    w: FeatureWalkView,
    lookup: spec_fn(Seq<char>) -> Seq<SymbolReference>,
    scope: Map<Seq<char>, Seq<char>>,
    p: PendingCallView,
) -> bool {
    exists|k: int|
        0 <= k < w.path.len() && (#[trigger] w.path[k]).symbol == p.caller && p.depth
            == w.path[k].depth + 1 && calls_at(
            lookup,
            scope,
            p.caller,
            p.symbol,
            p.file_path,
            p.line,
        )
}

/// The walk keeps what holds when the calls out of its last node are enqueued.
proof fn lemma_feature_step(
    w: FeatureWalkView,
    lookup: spec_fn(Seq<char>) -> Seq<SymbolReference>,
    entry: Seq<char>,
    scope: Map<Seq<char>, Seq<char>>,
)
    requires
        w.head <= w.queue.len(),
        w.path.len() == w.head + 1,
        w.path[0].symbol == entry && w.path[0].depth == 0 && w.path[0].caller is None,
        forall|i: int| 0 <= i < w.head ==> matches_pending(#[trigger] w.path[i + 1], w.queue[i]),
        forall|s: Seq<char>| #[trigger]
            w.visited.contains(s) ==> s == entry || exists|i: int|
                0 <= i < w.queue.len() && (#[trigger] w.queue[i]).symbol == s,
        forall|i: int|
            0 <= i < w.queue.len() ==> has_source(w, lookup, scope, #[trigger] w.queue[i]),
        forall|k: int, i: int|
            0 <= k < w.path.len() - 1 && 0 <= i < lookup((#[trigger] w.path[k]).symbol).len()
                && follows(#[trigger] lookup(w.path[k].symbol)[i], scope) ==> w.visited.contains(
                lookup(w.path[k].symbol)[i].callee_symbol@,
            ),
    ensures
        feature_holds(
            enqueued(
                w,
                calls_within(lookup(w.path.last().symbol), scope),
                w.path.last().symbol,
                w.path.last().depth + 1,
            ),
            lookup,
            entry,
            scope,
        ),
{
    let node = w.path.last();
    let refs = lookup(node.symbol);
    let calls = calls_within(refs, scope);
    let r = enqueued(w, calls, node.symbol, node.depth + 1);
    lemma_enqueued(w, calls, node.symbol, node.depth + 1);
    assert forall|i: int| 0 <= i < r.queue.len() implies has_source(
        r,
        lookup,
        scope,
        #[trigger] r.queue[i],
    ) by {
        let p = r.queue[i];
        if i < w.queue.len() {
            assert(has_source(w, lookup, scope, w.queue[i]));
            let k = choose|k: int|
                0 <= k < w.path.len() && (#[trigger] w.path[k]).symbol == p.caller && p.depth
                    == w.path[k].depth + 1 && calls_at(
                    lookup,
                    scope,
                    p.caller,
                    p.symbol,
                    p.file_path,
                    p.line,
                );
            assert(r.path[k].symbol == p.caller);
        } else {
            let k = choose|k: int|
                0 <= k < calls.len() && (#[trigger] calls[k]).callee_symbol@ == p.symbol
                    && calls[k].reference_file_path@ == p.file_path && calls[k].reference_line
                    == p.line;
            assert(calls.contains(calls[k]));
            lemma_calls_within(refs, scope, calls[k]);
            let m = choose|m: int| 0 <= m < refs.len() && refs[m] == calls[k];
            assert(follows(lookup(node.symbol)[m], scope));
            assert(calls_at(lookup, scope, p.caller, p.symbol, p.file_path, p.line));
            assert(r.path[w.path.len() - 1].symbol == p.caller);
        }
    }
    assert forall|s: Seq<char>| #[trigger] r.visited.contains(s) implies s == entry || exists|i: int|
        0 <= i < r.queue.len() && (#[trigger] r.queue[i]).symbol == s by {
        if w.visited.contains(s) && s != entry {
            let i = choose|i: int| 0 <= i < w.queue.len() && (#[trigger] w.queue[i]).symbol == s;
            assert(r.queue[i].symbol == s);
        }
    }
    assert forall|k: int, i: int|
        0 <= k < r.path.len() && 0 <= i < lookup((#[trigger] r.path[k]).symbol).len() && follows(
            #[trigger] lookup(r.path[k].symbol)[i],
            scope,
        ) implies r.visited.contains(lookup(r.path[k].symbol)[i].callee_symbol@) by {
        let c = lookup(r.path[k].symbol)[i];
        if k < w.path.len() - 1 {
            assert(w.visited.contains(lookup(w.path[k].symbol)[i].callee_symbol@));
        } else {
            assert(refs.contains(c));
            lemma_calls_within(refs, scope, c);
            let m = choose|m: int| 0 <= m < calls.len() && calls[m] == c;
            assert(r.visited.contains(calls[m].callee_symbol@));
        }
    }
}

proof fn lemma_feature_holds(
    lookup: spec_fn(Seq<char>) -> Seq<SymbolReference>,
    entry: Seq<char>,
    id: Seq<char>,
    scope: Map<Seq<char>, Seq<char>>,
    n: nat,
)
    ensures
        feature_holds(feature_run(lookup, entry, id, scope, n), lookup, entry, scope),
    decreases n,
{
    if n == 0 {
        let calls = calls_within(lookup(entry), scope);
        let w = FeatureWalkView {
            visited: Set::empty().insert(entry),
            queue: Seq::empty(),
            head: 0,
            path: seq![
                FeatureNodeView {
                    symbol: entry,
                    file_path: if calls.len() > 0 {
                        calls[0].caller_file_path@
                    } else {
                        Seq::empty()
                    },
                    line: 0,
                    depth: 0,
                    repository_id: id,
                    caller: None,
                    callee_count: calls.len(),
                    repository_name: None,
                },
            ],
        };
        lemma_feature_step(w, lookup, entry, scope);
    } else {
        lemma_feature_holds(lookup, entry, id, scope, (n - 1) as nat);
        let w = feature_run(lookup, entry, id, scope, (n - 1) as nat);
        if w.head < w.queue.len() {
            let p = w.queue[w.head as int];
            let calls = calls_within(lookup(p.symbol), scope);
            let next = FeatureWalkView {
                head: w.head + 1,
                path: w.path.push(
                    FeatureNodeView {
                        symbol: p.symbol,
                        file_path: p.file_path,
                        line: p.line,
                        depth: p.depth,
                        repository_id: id,
                        caller: Some(p.caller),
                        callee_count: calls.len(),
                        repository_name: other_repository(calls, id, scope),
                    },
                ),
                ..w
            };
            assert forall|i: int| 0 <= i < next.head implies matches_pending(
                #[trigger] next.path[i + 1],
                next.queue[i],
            ) by {
                if i < w.head {
                    assert(matches_pending(w.path[i + 1], w.queue[i]));
                }
            }
            assert forall|i: int| 0 <= i < next.queue.len() implies has_source(
                next,
                lookup,
                scope,
                #[trigger] next.queue[i],
            ) by {
                let q = next.queue[i];
                assert(has_source(w, lookup, scope, w.queue[i]));
                let k = choose|k: int|
                    0 <= k < w.path.len() && (#[trigger] w.path[k]).symbol == q.caller && q.depth
                        == w.path[k].depth + 1 && calls_at(
                        lookup,
                        scope,
                        q.caller,
                        q.symbol,
                        q.file_path,
                        q.line,
                    );
                assert(next.path[k].symbol == q.caller);
            }
            assert forall|k: int, i: int|
                0 <= k < next.path.len() - 1 && 0 <= i < lookup(
                    (#[trigger] next.path[k]).symbol,
                ).len() && follows(
                    #[trigger] lookup(next.path[k].symbol)[i],
                    scope,
                ) implies next.visited.contains(
                lookup(next.path[k].symbol)[i].callee_symbol@,
            ) by {
                assert(w.path[k] == next.path[k]);
                assert(w.visited.contains(lookup(w.path[k].symbol)[i].callee_symbol@));
            }
            lemma_feature_step(next, lookup, entry, scope);
        }
    }
}

/// The symbol stands on the path.
pub open spec fn on_path(path: Seq<FeatureNodeView>, s: Seq<char>) -> bool {
    exists|k: int| 0 <= k < path.len() && (#[trigger] path[k]).symbol == s
}

/// Once a walk has run to its end, the path of the feature begins at its entry
/// point and holds what every symbol on it calls within the scope, method
/// calls as much as any other.
pub proof fn lemma_feature_is_closed(
    lookup: spec_fn(Seq<char>) -> Seq<SymbolReference>,
    entry: Seq<char>,
    id: Seq<char>,
    scope: Map<Seq<char>, Seq<char>>,
    n: nat,
)
    requires
        feature_run(lookup, entry, id, scope, n).head >= feature_run(
            lookup,
            entry,
            id,
            scope,
            n,
        ).queue.len(),
    ensures
        ({
            let path = feature_run(lookup, entry, id, scope, n).path;
            &&& path.len() >= 1
            &&& path[0].symbol == entry && path[0].depth == 0
            &&& forall|k: int, i: int|
                0 <= k < path.len() && 0 <= i < lookup((#[trigger] path[k]).symbol).len() && runs(
                    (#[trigger] lookup(path[k].symbol)[i]).reference_kind,
                ) && scope.contains_key(lookup(path[k].symbol)[i].repository_id@) ==> on_path(
                    path,
                    lookup(path[k].symbol)[i].callee_symbol@,
                )
        }),
{
    lemma_feature_holds(lookup, entry, id, scope, n);
    let w = feature_run(lookup, entry, id, scope, n);
    let path = w.path;
    assert forall|k: int, i: int|
        0 <= k < path.len() && 0 <= i < lookup((#[trigger] path[k]).symbol).len() && runs(
            (#[trigger] lookup(path[k].symbol)[i]).reference_kind,
        ) && scope.contains_key(lookup(path[k].symbol)[i].repository_id@) implies on_path(
        path,
        lookup(path[k].symbol)[i].callee_symbol@,
    ) by {
        let s = lookup(path[k].symbol)[i].callee_symbol@;
        assert(follows(lookup(path[k].symbol)[i], scope));
        assert(w.visited.contains(s));
        if s == entry {
            assert(path[0].symbol == s);
        } else {
            let q = choose|q: int| 0 <= q < w.queue.len() && (#[trigger] w.queue[q]).symbol == s;
            assert(matches_pending(path[q + 1], w.queue[q]));
        }
    }
}

/// Every node of a feature but the first is called by a node on the path one
/// hop nearer to the entry point, from the file and line that it shows.
pub proof fn lemma_feature_nodes_are_called(
    lookup: spec_fn(Seq<char>) -> Seq<SymbolReference>,
    entry: Seq<char>,
    id: Seq<char>,
    scope: Map<Seq<char>, Seq<char>>,
    n: nat,
    k: int,
)
    requires
        1 <= k < feature_run(lookup, entry, id, scope, n).path.len(),
    ensures
        ({
            let path = feature_run(lookup, entry, id, scope, n).path;
            exists|j: int|
                0 <= j < path.len() && path[k].caller == Some((#[trigger] path[j]).symbol)
                    && path[k].depth == path[j].depth + 1 && calls_at(
                    lookup,
                    scope,
                    path[j].symbol,
                    path[k].symbol,
                    path[k].file_path,
                    path[k].line,
                )
        }),
{
    lemma_feature_holds(lookup, entry, id, scope, n);
    let w = feature_run(lookup, entry, id, scope, n);
    let p = w.queue[k - 1];
    assert(matches_pending(w.path[k - 1 + 1], p));
    assert(has_source(w, lookup, scope, w.queue[k - 1]));
    let j = choose|j: int|
        0 <= j < w.path.len() && (#[trigger] w.path[j]).symbol == p.caller && p.depth
            == w.path[j].depth + 1 && calls_at(
            lookup,
            scope,
            p.caller,
            p.symbol,
            p.file_path,
            p.line,
        );
    assert(w.path[k].caller == Some(w.path[j].symbol));
}

proof fn lemma_path_measures(path: Seq<FeatureNodeView>)
    ensures
        path_files(path).no_duplicates(),
        forall|f: Seq<char>| #[trigger]
            path_files(path).contains(f) <==> exists|k: int|
                0 <= k < path.len() && (#[trigger] path[k]).file_path == f,
        forall|k: int| 0 <= k < path.len() ==> (#[trigger] path[k]).depth <= path_depth(path),
        path_depth(path) == 0 || exists|k: int|
            0 <= k < path.len() && (#[trigger] path[k]).depth == path_depth(path),
    decreases path.len(),
{
    if path.len() > 0 {
        let d = path.drop_last();
        lemma_path_measures(d);
        let before = path_files(d);
        let all = path_files(path);
        let n = path.len() - 1;
        assert forall|f: Seq<char>| #[trigger] all.contains(f) <==> exists|k: int|
            0 <= k < path.len() && (#[trigger] path[k]).file_path == f by {
            if before.contains(f) {
                let a = choose|a: int| 0 <= a < before.len() && before[a] == f;
                assert(all[a] == f);
                let k = choose|k: int| 0 <= k < d.len() && (#[trigger] d[k]).file_path == f;
                assert(path[k].file_path == f);
            } else if all.contains(f) {
                let a = choose|a: int| 0 <= a < all.len() && all[a] == f;
                if a < before.len() {
                    assert(before[a] == f);
                }
                assert(path[n].file_path == f);
            }
            if exists|k: int| 0 <= k < path.len() && (#[trigger] path[k]).file_path == f {
                let k = choose|k: int| 0 <= k < path.len() && (#[trigger] path[k]).file_path == f;
                if k < n {
                    assert(d[k].file_path == f);
                } else if !before.contains(f) {
                    assert(all[before.len() as int] == f);
                }
            }
        }
        assert forall|k: int| 0 <= k < path.len() implies (#[trigger] path[k]).depth <= path_depth(
            path,
        ) by {
            if k < n {
                assert(d[k].depth <= path_depth(d));
            }
        }
        if path.last().depth > path_depth(d) {
            assert(path[n].depth == path_depth(path));
        } else if path_depth(d) > 0 {
            let k = choose|k: int| 0 <= k < d.len() && (#[trigger] d[k]).depth == path_depth(d);
            assert(path[k].depth == path_depth(path));
        }
    }
}

/// The measures of a feature by its path: its reach is the number of nodes, its
/// depth the greatest of theirs, and its files are the different ones among
/// theirs. It is named by its repository and entry point.
pub proof fn lemma_feature_measures(
    f: ExecutionFeature,
    entry: Seq<char>,
    id: Seq<char>,
    path: Seq<FeatureNodeView>,
)
    requires
        is_feature(f, entry, id, path),
        path.len() > 0,
    ensures
        f.entry_point@ == entry && f.repository_id@ == id,
        f.reach == f.path@.len() == path.len(),
        forall|k: int| 0 <= k < f.path@.len() ==> (#[trigger] f.path@[k]).depth <= f.depth,
        exists|k: int| 0 <= k < f.path@.len() && (#[trigger] f.path@[k]).depth == f.depth,
        exists|files: Seq<Seq<char>>| #[trigger]
            files.no_duplicates() && files.len() == f.file_count && forall|x: Seq<char>| #[trigger]
                files.contains(x) <==> exists|k: int|
                    0 <= k < f.path@.len() && (#[trigger] f.path@[k]).file_path@ == x,
{
    lemma_path_measures(path);
    let views = feature_node_views(f.path@);
    assert(views.len() == f.path@.len());
    assert forall|k: int| 0 <= k < f.path@.len() implies (#[trigger] f.path@[k]).depth <= f.depth by {
        assert(views[k] == f.path@[k]@);
        assert(path[k].depth <= path_depth(path));
    }
    if path_depth(path) > 0 {
        let k = choose|k: int| 0 <= k < path.len() && (#[trigger] path[k]).depth == path_depth(path);
        assert(views[k] == f.path@[k]@);
        assert(f.path@[k].depth == f.depth);
    } else {
        assert(views[0] == f.path@[0]@);
        assert(path[0].depth <= path_depth(path));
        assert(f.path@[0].depth == f.depth);
    }
    let files = path_files(path);
    assert forall|x: Seq<char>| #[trigger] files.contains(x) <==> exists|k: int|
        0 <= k < f.path@.len() && (#[trigger] f.path@[k]).file_path@ == x by {
        if files.contains(x) {
            let k = choose|k: int| 0 <= k < path.len() && (#[trigger] path[k]).file_path == x;
            assert(views[k] == f.path@[k]@);
            assert(f.path@[k].file_path@ == x);
        }
        if exists|k: int| 0 <= k < f.path@.len() && (#[trigger] f.path@[k]).file_path@ == x {
            let k = choose|k: int| 0 <= k < f.path@.len() && (#[trigger] f.path@[k]).file_path@ == x;
            assert(views[k] == f.path@[k]@);
            assert(path[k].file_path == x);
        }
    }
    assert(files.no_duplicates() && files.len() == f.file_count);
}

/// The score of a feature, by its measures: reach counts for 55 in a hundred and
/// is full at 40 symbols, depth for 30 and is full at 12 hops, the share of files
/// for 15.
pub proof fn lemma_feature_score(
    f: ExecutionFeature,
    entry: Seq<char>,
    id: Seq<char>,
    path: Seq<FeatureNodeView>,
)
    requires
        is_feature(f, entry, id, path),
    ensures
        ({
            let reach = if f.reach < 40 { f.reach as int } else { 40 };
            let depth = if f.depth < 12 { f.depth as int } else { 12 };
            let files = if f.file_count < f.reach { f.file_count as int } else { f.reach as int };
            let base = if f.reach > 1 { f.reach as int } else { 1 };
            let exact = (55 * reach * 12 + 30 * depth * 40) * base + 15 * files * 480;
            // Parts of 48000 to parts of the unit.
            f.criticality * (48 * base) <= exact * 1_000_000_000_000_000 < (f.criticality + 1) * (48
                * base)
        }),
{
    let r = path.len() as int;
    let dp = path_depth(path) as int;
    let fl = path_files(path).len() as int;
    lemma_criticality_rounds(r, dp, fl);
    let reach = if f.reach < 40 { f.reach as int } else { 40 };
    let depth = if f.depth < 12 { f.depth as int } else { 12 };
    let files = if f.file_count < f.reach { f.file_count as int } else { f.reach as int };
    let base = if f.reach > 1 { f.reach as int } else { 1 };
    let c = f.criticality as int;
    let e = exact_criticality(r, dp, fl);
    let exact = (55 * reach * 12 + 30 * depth * 40) * base + 15 * files * 480;
    assert(exact == 60 * e) by (nonlinear_arith)
        requires
            e == (11 * reach + 20 * depth) * base + 120 * files,
            exact == (55 * reach * 12 + 30 * depth * 40) * base + 15 * files * 480,
    ;
    assert(c * (48 * base) == 48 * (c * base)) by (nonlinear_arith);
    assert((c + 1) * (48 * base) == 48 * ((c + 1) * base)) by (nonlinear_arith);
}

/// Ranked features come by falling criticality, and none that is left out is
/// more critical than one that is kept.
pub proof fn lemma_ranked_features(fs: Seq<ExecutionFeature>, limit: int)
    requires
        0 <= limit,
    ensures
        ({
            let r = if limit < fs.len() { arranged(fs).take(limit) } else { arranged(fs) };
            &&& r.len() <= limit || r.len() == fs.len()
            &&& forall|i: int, j: int|
                0 <= i < j < r.len() ==> (#[trigger] r[i]).criticality >= (
                #[trigger] r[j]).criticality
            &&& forall|i: int| 0 <= i < r.len() ==> fs.contains(#[trigger] r[i])
            &&& forall|f: ExecutionFeature| #[trigger]
                fs.contains(f) ==> r.contains(f) || forall|i: int|
                    0 <= i < r.len() ==> (#[trigger] r[i]).criticality >= f.criticality
        }),
{
    let all = arranged(fs);
    let r = if limit < fs.len() { all.take(limit) } else { all };
    lemma_arranged(fs);
    lemma_arranged_contains(fs);
    assert forall|i: int| 0 <= i < r.len() implies fs.contains(#[trigger] r[i]) by {
        assert(r[i] == all[i]);
        assert(all.contains(all[i]));
    }
    assert forall|f: ExecutionFeature| #[trigger] fs.contains(f) implies r.contains(f) || forall|
        i: int,
    |
        0 <= i < r.len() ==> (#[trigger] r[i]).criticality >= f.criticality by {
        assert(all.contains(f));
        let k = choose|k: int| 0 <= k < all.len() && all[k] == f;
        if k < r.len() {
            assert(r[k] == f);
        } else {
            assert forall|i: int| 0 <= i < r.len() implies (#[trigger] r[i]).criticality
                >= f.criticality by {
                assert(r[i] == all[i]);
            }
        }
    }
}

proof fn lemma_impacted_part(
    fs: Seq<ExecutionFeature>,
    changed: Seq<Seq<char>>,
    f: ExecutionFeature,
)
    ensures
        impacted(fs, changed).contains(f) <==> fs.contains(f) && is_impacted(f, changed),
    decreases fs.len(),
{
    if fs.len() > 0 {
        let d = fs.drop_last();
        lemma_impacted_part(d, changed, f);
        let before = impacted(d, changed);
        let all = impacted(fs, changed);
        if before.contains(f) {
            let k = choose|k: int| 0 <= k < before.len() && before[k] == f;
            assert(all[k] == f);
            let m = choose|m: int| 0 <= m < d.len() && d[m] == f;
            assert(fs[m] == f);
        } else if all.contains(f) {
            let k = choose|k: int| 0 <= k < all.len() && all[k] == f;
            if k < before.len() {
                assert(before[k] == f);
            }
            assert(fs[fs.len() - 1] == f);
        }
        if fs.contains(f) && is_impacted(f, changed) {
            let m = choose|m: int| 0 <= m < fs.len() && fs[m] == f;
            if m < d.len() {
                assert(d[m] == f);
            } else {
                assert(all[before.len() as int] == f);
            }
        }
    }
}

/// A feature is impacted by a change if and only if a symbol on its path was
/// changed; the most critical comes first.
pub proof fn lemma_impacted(
    fs: Seq<ExecutionFeature>,
    changed: Seq<Seq<char>>,
    f: ExecutionFeature,
)
    ensures
        ({
            let r = arranged(impacted(fs, changed));
            &&& r.contains(f) <==> fs.contains(f) && exists|k: int, c: int|
                0 <= k < f.path@.len() && 0 <= c < changed.len() && (#[trigger] f.path@[k]).symbol@
                    == #[trigger] changed[c]
            &&& forall|i: int, j: int|
                0 <= i < j < r.len() ==> (#[trigger] r[i]).criticality >= (
                #[trigger] r[j]).criticality
        }),
{
    lemma_impacted_part(fs, changed, f);
    lemma_arranged(impacted(fs, changed));
    lemma_arranged_contains(impacted(fs, changed));
    assert(arranged(impacted(fs, changed)).contains(f) <==> impacted(fs, changed).contains(f));
    if is_impacted(f, changed) {
        let k = choose|k: int|
            0 <= k < f.path@.len() && changed.contains((#[trigger] f.path@[k]).symbol@);
        let c = choose|c: int| 0 <= c < changed.len() && changed[c] == f.path@[k].symbol@;
        assert(f.path@[k].symbol@ == changed[c]);
    }
}

/// The scope of a feature holds the repository itself where nothing is known of
/// its namespace, and else the repositories of that namespace, by name.
pub proof fn lemma_scope_is_namespace(repos: Seq<Repository>, k: int, id: Seq<char>)
    requires
        0 <= k < repos.len(),
        repos[k].id@ == id,
        forall|j: int| 0 <= j < k ==> (#[trigger] repos[j]).id@ != id,
    ensures
        ({
            let scope = scope_of(Some(repos), id);
            &&& repos[k].namespace is None ==> scope.dom() == Set::<Seq<char>>::empty().insert(id)
            &&& repos[k].namespace is Some ==> forall|x: Seq<char>| #[trigger]
                scope.contains_key(x) <==> exists|j: int|
                    0 <= j < repos.len() && (#[trigger] repos[j]).id@ == x && opt_text(
                        repos[j].namespace,
                    ) == opt_text(repos[k].namespace)
        }),
{
    lemma_repository_at(repos, k, id);
    if repos[k].namespace is Some {
        let ns = repos[k].namespace->Some_0@;
        assert forall|x: Seq<char>| #[trigger] scope_of(Some(repos), id).contains_key(x)
            <==> exists|j: int|
            0 <= j < repos.len() && (#[trigger] repos[j]).id@ == x && opt_text(repos[j].namespace)
                == opt_text(repos[k].namespace) by {
            lemma_namespace_scope(repos, ns, x);
        }
    } else {
        assert(scope_of(Some(repos), id).dom() =~= Set::<Seq<char>>::empty().insert(id));
    }
}

proof fn lemma_repository_at(repos: Seq<Repository>, k: int, id: Seq<char>)
    requires
        0 <= k < repos.len(),
        repos[k].id@ == id,
        forall|j: int| 0 <= j < k ==> (#[trigger] repos[j]).id@ != id,
    ensures
        repository_at(repos, id) == k,
    decreases repos.len(),
{
    let d = repos.drop_last();
    if k < d.len() {
        assert(d[k] == repos[k]);
        assert forall|j: int| 0 <= j < k implies (#[trigger] d[j]).id@ != id by {
            assert(repos[j].id@ != id);
        }
        lemma_repository_at(d, k, id);
    } else {
        lemma_repository_absent(d, id);
    }
}

proof fn lemma_repository_absent(repos: Seq<Repository>, id: Seq<char>)
    requires
        forall|j: int| 0 <= j < repos.len() ==> (#[trigger] repos[j]).id@ != id,
    ensures
        repository_at(repos, id) < 0,
    decreases repos.len(),
{
    if repos.len() > 0 {
        let d = repos.drop_last();
        assert forall|j: int| 0 <= j < d.len() implies (#[trigger] d[j]).id@ != id by {
            assert(repos[j].id@ != id);
        }
        assert(repos[repos.len() - 1].id@ != id);
        lemma_repository_absent(d, id);
    }
}

proof fn lemma_namespace_scope(repos: Seq<Repository>, ns: Seq<char>, x: Seq<char>)
    ensures
        namespace_scope(repos, ns).contains_key(x) <==> exists|j: int|
            0 <= j < repos.len() && (#[trigger] repos[j]).id@ == x && opt_text(repos[j].namespace)
                == Some(ns),
    decreases repos.len(),
{
    if repos.len() > 0 {
        let d = repos.drop_last();
        lemma_namespace_scope(d, ns, x);
        if namespace_scope(d, ns).contains_key(x) {
            let j = choose|j: int|
                0 <= j < d.len() && (#[trigger] d[j]).id@ == x && opt_text(d[j].namespace) == Some(
                    ns,
                );
            assert(repos[j].id@ == x);
        } else if namespace_scope(repos, ns).contains_key(x) {
            assert(repos[repos.len() - 1].id@ == x);
        }
        if exists|j: int|
            0 <= j < repos.len() && (#[trigger] repos[j]).id@ == x && opt_text(repos[j].namespace)
                == Some(ns) {
            let j = choose|j: int|
                0 <= j < repos.len() && (#[trigger] repos[j]).id@ == x && opt_text(
                    repos[j].namespace,
                ) == Some(ns);
            if j < d.len() {
                assert(d[j].id@ == x);
            }
        }
    }
}

/// A node names its repository if and only if its first call is made in another of
/// the scope that has a name, and then by that name.
pub proof fn lemma_foreign_node(
    calls: Seq<SymbolReference>,
    id: Seq<char>,
    scope: Map<Seq<char>, Seq<char>>,
)
    ensures
        calls.len() == 0 ==> other_repository(calls, id, scope) is None,
        calls.len() > 0 && calls[0].repository_id@ == id ==> other_repository(
            calls,
            id,
            scope,
        ) is None,
        calls.len() > 0 && calls[0].repository_id@ != id && scope.contains_pair(
            calls[0].repository_id@,
            scope[calls[0].repository_id@],
        ) && scope[calls[0].repository_id@].len() > 0 ==> other_repository(calls, id, scope)
            == Some(scope[calls[0].repository_id@]),
{
}

/// The repository of a symbol is that of the first call among the references.
pub proof fn lemma_first_call(refs: Seq<SymbolReference>, p: int)
    requires
        0 <= p < refs.len(),
        runs(refs[p].reference_kind),
        forall|i: int| 0 <= i < p ==> !runs((#[trigger] refs[i]).reference_kind),
    ensures
        first_call_repository(refs) == Some(refs[p].repository_id@),
    decreases p,
{
    lemma_execution_kinds(refs[0]);
    if p > 0 {
        let d = refs.skip(1);
        assert(!runs(refs[0].reference_kind));
        assert(d[p - 1] == refs[p]);
        assert forall|i: int| 0 <= i < p - 1 implies !runs((#[trigger] d[i]).reference_kind) by {
            assert(d[i] == refs[i + 1]);
        }
        lemma_first_call(d, p - 1);
    }
}

} // verus!
