//! What holds of every breadth-first walk: each symbol is reached once, at its
//! least distance from a root, through a symbol one hop nearer.

use vstd::prelude::*;
use crate::call_graph_traversal::{
    ANONYMOUS_SYMBOL, Direction, NodeView, WalkView, at_roots, next_symbol, node_of, stepped,
    visit_key, visited_all, visited_one, widened,
};
use crate::domain::SymbolReference;
use crate::text::starts_with;

verus! {

/// A key that stands for code outside any symbol.
pub open spec fn is_anonymous_key(s: Seq<char>) -> bool {
    starts_with(s, "anon:"@)
}

/// No symbol that the lookups lead to, and no root, is named like a key for
/// code outside any symbol.
pub open spec fn plainly_named(
    lookup: spec_fn(Seq<char>) -> Seq<SymbolReference>,
    direction: Direction,
    roots: Seq<Seq<char>>,
) -> bool {
    &&& forall|i: int| 0 <= i < roots.len() ==> !is_anonymous_key(#[trigger] roots[i])
    &&& forall|s: Seq<char>, i: int|
        0 <= i < lookup(s).len() ==> (next_symbol(direction, #[trigger] lookup(s)[i]) matches Some(
            n,
        ) ==> !is_anonymous_key(n))
}

/// The walk after `n` lookups.
pub open spec fn run(
    lookup: spec_fn(Seq<char>) -> Seq<SymbolReference>,
    direction: Direction,
    roots: Seq<Seq<char>>,
    n: nat,
) -> WalkView
    decreases n,
{
    if n == 0 {
        at_roots(roots)
    } else {
        let w = run(lookup, direction, roots, (n - 1) as nat);
        if w.head < w.queue.len() {
            stepped(w, direction, lookup(w.queue[w.head as int].0))
        } else {
            w
        }
    }
}

/// `k` hops lead from a root to `t`.
pub open spec fn hops(
    lookup: spec_fn(Seq<char>) -> Seq<SymbolReference>,
    direction: Direction,
    roots: Seq<Seq<char>>,
    t: Seq<char>,
    k: nat,
) -> bool
    decreases k,
{
    if k == 0 {
        roots.contains(t)
    } else {
        exists|u: Seq<char>, i: int|
            hops(lookup, direction, roots, u, (k - 1) as nat) && 0 <= i < lookup(u).len()
                && next_symbol(direction, #[trigger] lookup(u)[i]) == Some(t)
    }
}

/// The symbol is queued at a depth of at most `d`.
pub open spec fn queued(q: Seq<(Seq<char>, nat)>, s: Seq<char>, d: nat) -> bool {
    exists|m: int| 0 <= m < q.len() && (#[trigger] q[m]).0 == s && q[m].1 <= d
}

/// The symbol is queued.
pub open spec fn in_queue(q: Seq<(Seq<char>, nat)>, s: Seq<char>) -> bool {
    exists|m: int| 0 <= m < q.len() && (#[trigger] q[m]).0 == s
}

/// All that the references lead to is queued at a depth of at most `d`.
pub open spec fn followed(
    q: Seq<(Seq<char>, nat)>,
    direction: Direction,
    refs: Seq<SymbolReference>,
    d: nat,
) -> bool {
    forall|i: int|
        0 <= i < refs.len() ==> (next_symbol(direction, #[trigger] refs[i]) matches Some(s)
            ==> queued(q, s, d))
}

/// A level holds a node of the symbol.
pub open spec fn level_has(level: Seq<NodeView>, s: Seq<char>) -> bool {
    exists|i: int| 0 <= i < level.len() && (#[trigger] level[i]).symbol == s
}

/// The node at place `i` of level `l` stands for a named symbol.
pub open spec fn is_named(w: WalkView, l: int, i: int) -> bool {
    w.levels[l][i].symbol != ANONYMOUS_SYMBOL@
}

/// What holds of a walk of which `settled` symbols were looked up, and whose
/// depths reach to `limit`.
pub open spec fn sound(
    w: WalkView,
    lookup: spec_fn(Seq<char>) -> Seq<SymbolReference>,
    direction: Direction,
    roots: Seq<Seq<char>>,
    settled: nat,
    limit: nat,
) -> bool {
    let q = w.queue;
    &&& settled <= w.head <= q.len()
    &&& forall|i: int, j: int| 0 <= i < j < q.len() ==> (#[trigger] q[i]).0 != (#[trigger] q[j]).0
    &&& forall|i: int, j: int| 0 <= i < j < q.len() ==> (#[trigger] q[i]).1 <= (#[trigger] q[j]).1
    &&& forall|i: int| 0 <= i < q.len() ==> w.visited.contains((#[trigger] q[i]).0)
    &&& forall|i: int| 0 <= i < q.len() ==> (#[trigger] q[i]).1 <= limit
    &&& forall|i: int|
        0 <= i < q.len() ==> hops(lookup, direction, roots, (#[trigger] q[i]).0, q[i].1)
    &&& forall|s: Seq<char>| #[trigger]
        w.visited.contains(s) ==> is_anonymous_key(s) || in_queue(q, s)
    &&& forall|i: int| 0 <= i < roots.len() ==> queued(q, #[trigger] roots[i], 0)
    &&& forall|j: int|
        0 <= j < settled ==> followed(q, direction, lookup((#[trigger] q[j]).0), q[j].1 + 1)
}

/// What holds of the nodes of a walk: each stands on its level, was reached
/// through a symbol of the level before, and no named one stands there twice
/// or is a root.
pub open spec fn orderly(w: WalkView, roots: Seq<Seq<char>>) -> bool {
    let q = w.queue;
    &&& forall|l: int, i: int|
        0 <= l < w.levels.len() && 0 <= i < w.levels[l].len() ==> {
            let n = #[trigger] w.levels[l][i];
            &&& n.depth == l + 1
            &&& n.via_symbol is Some
            &&& exists|m: int| 0 <= m < q.len() && (#[trigger] q[m]).0 == n.via_symbol->0 && q[m].1
                == l
        }
    &&& forall|l: int, i: int|
        0 <= l < w.levels.len() && 0 <= i < w.levels[l].len() && #[trigger] is_named(w, l, i)
            ==> w.visited.contains(w.levels[l][i].symbol) && !roots.contains(
            w.levels[l][i].symbol,
        ) && in_queue_at(q, w.levels[l][i].symbol, (l + 1) as nat)
    &&& forall|l: int, i: int, k: int, j: int|
        0 <= l < w.levels.len() && 0 <= i < w.levels[l].len() && 0 <= k < w.levels.len() && 0 <= j
            < w.levels[k].len() && #[trigger] is_named(w, l, i) && #[trigger] is_named(w, k, j)
            && w.levels[l][i].symbol == w.levels[k][j].symbol ==> l == k && i == j
    &&& forall|m: int|
        0 <= m < q.len() && (#[trigger] q[m]).1 > 0 ==> q[m].1 <= w.levels.len() && level_has(
            w.levels[q[m].1 - 1],
            q[m].0,
        )
    &&& forall|m: int| 0 <= m < q.len() && (#[trigger] q[m]).1 == 0 ==> roots.contains(q[m].0)
    &&& forall|i: int| 0 <= i < roots.len() ==> w.visited.contains(#[trigger] roots[i])
}

/// The symbol is queued at the depth `d`.
pub open spec fn in_queue_at(q: Seq<(Seq<char>, nat)>, s: Seq<char>, d: nat) -> bool {
    exists|m: int| 0 <= m < q.len() && (#[trigger] q[m]).0 == s && q[m].1 == d
}

proof fn lemma_anonymous_key(direction: Direction, r: SymbolReference)
    requires
        next_symbol(direction, r) is None,
    ensures
        is_anonymous_key(visit_key(direction, r)),
{
    let k = visit_key(direction, r);
    assert(k.subrange(0, "anon:"@.len() as int) =~= "anon:"@);
}

proof fn lemma_queued_push(q: Seq<(Seq<char>, nat)>, x: (Seq<char>, nat))
    ensures
        forall|s: Seq<char>, d: nat| #[trigger] queued(q, s, d) ==> queued(q.push(x), s, d),
        forall|s: Seq<char>| #[trigger] in_queue(q, s) ==> in_queue(q.push(x), s),
        forall|s: Seq<char>, d: nat| #[trigger]
            in_queue_at(q, s, d) ==> in_queue_at(q.push(x), s, d),
        queued(q.push(x), x.0, x.1),
        in_queue(q.push(x), x.0),
        in_queue_at(q.push(x), x.0, x.1),
{
    let p = q.push(x);
    assert(p[q.len() as int] == x);
    assert forall|s: Seq<char>, d: nat| #[trigger] queued(q, s, d) implies queued(p, s, d) by {
        let m = choose|m: int| 0 <= m < q.len() && (#[trigger] q[m]).0 == s && q[m].1 <= d;
        assert(p[m] == q[m]);
    }
    assert forall|s: Seq<char>| #[trigger] in_queue(q, s) implies in_queue(p, s) by {
        let m = choose|m: int| 0 <= m < q.len() && (#[trigger] q[m]).0 == s;
        assert(p[m] == q[m]);
    }
    assert forall|s: Seq<char>, d: nat| #[trigger] in_queue_at(q, s, d) implies in_queue_at(
        p,
        s,
        d,
    ) by {
        let m = choose|m: int| 0 <= m < q.len() && (#[trigger] q[m]).0 == s && q[m].1 == d;
        assert(p[m] == q[m]);
    }
}

proof fn lemma_sound_start(
    lookup: spec_fn(Seq<char>) -> Seq<SymbolReference>,
    direction: Direction,
    roots: Seq<Seq<char>>,
)
    ensures
        sound(at_roots(roots), lookup, direction, roots, 0, 0),
        orderly(at_roots(roots), roots),
        at_roots(roots).head == 0,
        at_roots(roots).levels.len() == 0,
{
    lemma_at_roots(roots);
    let w = at_roots(roots);
    assert forall|i: int| 0 <= i < w.queue.len() implies hops(
        lookup,
        direction,
        roots,
        (#[trigger] w.queue[i]).0,
        w.queue[i].1,
    ) by {}
}

proof fn lemma_at_roots(roots: Seq<Seq<char>>)
    ensures
        ({
            let w = at_roots(roots);
            &&& w.head == 0
            &&& w.levels.len() == 0
            &&& forall|i: int, j: int|
                0 <= i < j < w.queue.len() ==> (#[trigger] w.queue[i]).0 != (
                #[trigger] w.queue[j]).0
            &&& forall|i: int|
                0 <= i < w.queue.len() ==> (#[trigger] w.queue[i]).1 == 0 && roots.contains(
                    w.queue[i].0,
                ) && w.visited.contains(w.queue[i].0)
            &&& forall|s: Seq<char>| #[trigger] w.visited.contains(s) ==> in_queue(w.queue, s)
            &&& forall|i: int|
                0 <= i < roots.len() ==> queued(w.queue, #[trigger] roots[i], 0)
                    && w.visited.contains(roots[i])
        }),
    decreases roots.len(),
{
    if roots.len() > 0 {
        let p = roots.drop_last();
        lemma_at_roots(p);
        let v = at_roots(p);
        let w = at_roots(roots);
        let r = roots.last();
        assert forall|i: int| 0 <= i < p.len() implies p[i] == #[trigger] roots[i] by {}
        lemma_queued_push(v.queue, (r, 0));
        assert forall|i: int| 0 <= i < w.queue.len() implies (#[trigger] w.queue[i]).1 == 0
            && roots.contains(w.queue[i].0) && w.visited.contains(w.queue[i].0) by {
            if i < v.queue.len() {
                assert(w.queue[i] == v.queue[i]);
                assert(p.contains(v.queue[i].0));
                let k = choose|k: int| 0 <= k < p.len() && p[k] == v.queue[i].0;
                assert(roots[k] == w.queue[i].0);
            } else {
                assert(roots[roots.len() - 1] == w.queue[i].0);
            }
        }
        assert forall|i: int, j: int| 0 <= i < j < w.queue.len() implies (#[trigger] w.queue[i]).0
            != (#[trigger] w.queue[j]).0 by {
            assert(w.queue[i] == v.queue[i]);
            if j < v.queue.len() {
                assert(w.queue[j] == v.queue[j]);
            } else {
                assert(v.visited.contains(v.queue[i].0));
            }
        }
        assert forall|i: int| 0 <= i < roots.len() implies queued(w.queue, #[trigger] roots[i], 0)
            && w.visited.contains(roots[i]) by {
            if i < p.len() {
                assert(p[i] == roots[i]);
                assert(queued(v.queue, p[i], 0));
            } else if v.visited.contains(r) {
                assert(in_queue(v.queue, r));
                let m = choose|m: int| 0 <= m < v.queue.len() && (#[trigger] v.queue[m]).0 == r;
                assert(v.queue[m].1 == 0);
            }
        }
    }
}

#[verifier::rlimit(40)]
proof fn lemma_visit_keeps_queue(
    w: WalkView,
    lookup: spec_fn(Seq<char>) -> Seq<SymbolReference>,
    direction: Direction,
    roots: Seq<Seq<char>>,
    settled: nat,
    from: int,
    refs: Seq<SymbolReference>,
    i: int,
    depth: nat,
)
    requires
        plainly_named(lookup, direction, roots),
        sound(w, lookup, direction, roots, settled, depth),
        orderly(w, roots),
        0 <= from < w.queue.len(),
        w.queue[from].1 + 1 == depth,
        lookup(w.queue[from].0) == refs,
        0 <= i < refs.len(),
        w.levels.len() >= depth,
        followed(w.queue, direction, refs.take(i), depth),
    ensures
        ({
            let v = visited_one(w, direction, refs[i], w.queue[from].0, depth);
            &&& sound(v, lookup, direction, roots, settled, depth)
            &&& v.head == w.head
            &&& v.queue.len() >= w.queue.len()
            &&& v.queue.take(w.queue.len() as int) == w.queue
            &&& followed(v.queue, direction, refs.take(i + 1), depth)
        }),
{
    let r = refs[i];
    let s = w.queue[from].0;
    let v = visited_one(w, direction, r, s, depth);
    let key = visit_key(direction, r);
    let q = w.queue;
    let target = next_symbol(direction, r);
    assert(lookup(s)[i] == r);
    assert(refs.take(i + 1)[i] == r);
    assert forall|k: int| 0 <= k < i implies refs.take(i)[k] == #[trigger] refs.take(i + 1)[k] by {}
    if target is None {
        lemma_anonymous_key(direction, r);
    }
    if w.visited.contains(key) {
        assert(v.queue.take(q.len() as int) =~= q);
        if target is Some {
            assert(in_queue(q, key));
            let m = choose|m: int| 0 <= m < q.len() && (#[trigger] q[m]).0 == key;
            assert(q[m].1 <= depth);
            assert(queued(q, key, depth));
        }
        assert forall|k: int| 0 <= k < refs.take(i + 1).len() implies (next_symbol(
            direction,
            #[trigger] refs.take(i + 1)[k],
        ) matches Some(t) ==> queued(v.queue, t, depth)) by {
            if k < i {
                assert(refs.take(i)[k] == refs.take(i + 1)[k]);
            }
        }
    } else {
        let node = node_of(direction, r, s, depth);
        let l0 = depth - 1;
        let x = (key, depth);
        assert(v.levels.len() == w.levels.len());
        assert(v.levels[l0] == w.levels[l0].push(node));
        assert forall|l: int| 0 <= l < v.levels.len() && l != l0 implies v.levels[l]
            == #[trigger] w.levels[l] by {}
        lemma_queued_push(q, x);
        if target is Some {
            assert(v.queue == q.push(x));
        } else {
            assert(v.queue == q);
        }
        assert(v.queue.take(q.len() as int) =~= q);
        assert forall|a: int, b: int| 0 <= a < b < v.queue.len() implies (#[trigger] v.queue[a]).0
            != (#[trigger] v.queue[b]).0 && v.queue[a].1 <= v.queue[b].1 by {
            assert(v.queue[a] == q[a]);
            if b < q.len() {
                assert(v.queue[b] == q[b]);
            } else {
                assert(w.visited.contains(q[a].0));
                assert(q[a].1 <= depth);
            }
        }
        assert forall|a: int| 0 <= a < v.queue.len() implies v.visited.contains(
            (#[trigger] v.queue[a]).0,
        ) && v.queue[a].1 <= depth && hops(
            lookup,
            direction,
            roots,
            v.queue[a].0,
            v.queue[a].1,
        ) by {
            if a < q.len() {
                assert(v.queue[a] == q[a]);
            } else {
                assert(hops(lookup, direction, roots, s, (depth - 1) as nat));
                assert(next_symbol(direction, lookup(s)[i]) == Some(key));
            }
        }
        assert forall|t: Seq<char>| #[trigger] v.visited.contains(t) implies is_anonymous_key(t)
            || in_queue(v.queue, t) by {
            if t != key {
                assert(w.visited.contains(t));
            }
        }
        assert forall|a: int| 0 <= a < roots.len() implies queued(
            v.queue,
            #[trigger] roots[a],
            0,
        ) && v.visited.contains(roots[a]) by {
            assert(queued(q, roots[a], 0));
        }
        assert forall|j: int| 0 <= j < settled implies followed(
            v.queue,
            direction,
            lookup((#[trigger] v.queue[j]).0),
            v.queue[j].1 + 1,
        ) by {
            assert(v.queue[j] == q[j]);
            assert(followed(q, direction, lookup(q[j].0), q[j].1 + 1));
            let rs = lookup(q[j].0);
            assert forall|k: int| 0 <= k < rs.len() implies (next_symbol(
                direction,
                #[trigger] rs[k],
            ) matches Some(t) ==> queued(v.queue, t, q[j].1 + 1)) by {
                if let Some(t) = next_symbol(direction, rs[k]) {
                    assert(queued(q, t, q[j].1 + 1));
                }
            }
        }
        assert forall|k: int| 0 <= k < refs.take(i + 1).len() implies (next_symbol(
            direction,
            #[trigger] refs.take(i + 1)[k],
        ) matches Some(t) ==> queued(v.queue, t, depth)) by {
            if k < i {
                assert(refs.take(i)[k] == refs.take(i + 1)[k]);
                if let Some(t) = next_symbol(direction, refs.take(i + 1)[k]) {
                    assert(queued(q, t, depth));
                }
            }
        }
    }
}

#[verifier::rlimit(40)]
proof fn lemma_visit_keeps_nodes(
    w: WalkView,
    lookup: spec_fn(Seq<char>) -> Seq<SymbolReference>,
    direction: Direction,
    roots: Seq<Seq<char>>,
    settled: nat,
    from: int,
    refs: Seq<SymbolReference>,
    i: int,
    depth: nat,
)
    requires
        plainly_named(lookup, direction, roots),
        sound(w, lookup, direction, roots, settled, depth),
        orderly(w, roots),
        0 <= from < w.queue.len(),
        w.queue[from].1 + 1 == depth,
        lookup(w.queue[from].0) == refs,
        0 <= i < refs.len(),
        w.levels.len() >= depth,
        followed(w.queue, direction, refs.take(i), depth),
    ensures
        ({
            let v = visited_one(w, direction, refs[i], w.queue[from].0, depth);
            &&& orderly(v, roots)
            &&& v.levels.len() == w.levels.len()
        }),
{
    let r = refs[i];
    let s = w.queue[from].0;
    let v = visited_one(w, direction, r, s, depth);
    let key = visit_key(direction, r);
    let q = w.queue;
    let target = next_symbol(direction, r);
    assert(lookup(s)[i] == r);
    if target is None {
        lemma_anonymous_key(direction, r);
    }
    if !w.visited.contains(key) {
        let node = node_of(direction, r, s, depth);
        let l0 = depth - 1;
        let x = (key, depth);
        assert(v.levels.len() == w.levels.len());
        assert(v.levels[l0] == w.levels[l0].push(node));
        assert forall|l: int| 0 <= l < v.levels.len() && l != l0 implies v.levels[l]
            == #[trigger] w.levels[l] by {}
        lemma_queued_push(q, x);
        if target is Some {
            assert(v.queue == q.push(x));
        } else {
            assert(v.queue == q);
        }
        assert(v.queue.take(q.len() as int) =~= q);
        assert forall|a: int| 0 <= a < roots.len() implies v.visited.contains(
            #[trigger] roots[a],
        ) by {
            assert(w.visited.contains(roots[a]));
        }
        assert forall|l: int, a: int|
            0 <= l < v.levels.len() && 0 <= a < v.levels[l].len() implies ({
            let n = #[trigger] v.levels[l][a];
            &&& n.depth == l + 1
            &&& n.via_symbol is Some
            &&& exists|m: int| 0 <= m < v.queue.len() && (#[trigger] v.queue[m]).0
                == n.via_symbol->0 && v.queue[m].1 == l
        }) by {
            if l == l0 && a == w.levels[l0].len() {
                assert(v.queue[from] == q[from]);
            } else {
                assert(v.levels[l][a] == w.levels[l][a]);
                let n = w.levels[l][a];
                let m = choose|m: int|
                    0 <= m < q.len() && (#[trigger] q[m]).0 == n.via_symbol->0 && q[m].1 == l;
                assert(v.queue[m] == q[m]);
            }
        }
        assert forall|l: int, a: int|
            0 <= l < v.levels.len() && 0 <= a < v.levels[l].len() && #[trigger] is_named(
                v,
                l,
                a,
            ) implies v.visited.contains(v.levels[l][a].symbol) && !roots.contains(
            v.levels[l][a].symbol,
        ) && in_queue_at(v.queue, v.levels[l][a].symbol, (l + 1) as nat) by {
            if l == l0 && a == w.levels[l0].len() {
                assert(target is Some);
                assert(v.levels[l][a].symbol == key);
                if roots.contains(key) {
                    let z = choose|z: int| 0 <= z < roots.len() && roots[z] == key;
                    assert(w.visited.contains(roots[z]));
                }
            } else {
                assert(v.levels[l][a] == w.levels[l][a]);
                assert(is_named(w, l, a));
                assert(in_queue_at(q, w.levels[l][a].symbol, (l + 1) as nat));
            }
        }
        assert forall|l: int, a: int, k: int, b: int|
            0 <= l < v.levels.len() && 0 <= a < v.levels[l].len() && 0 <= k < v.levels.len() && 0
                <= b < v.levels[k].len() && #[trigger] is_named(v, l, a) && #[trigger] is_named(
                v,
                k,
                b,
            ) && v.levels[l][a].symbol == v.levels[k][b].symbol implies l == k && a == b by {
            let new_a = l == l0 && a == w.levels[l0].len();
            let new_b = k == l0 && b == w.levels[l0].len();
            if !new_a {
                assert(v.levels[l][a] == w.levels[l][a]);
                assert(is_named(w, l, a));
                assert(w.visited.contains(w.levels[l][a].symbol));
            }
            if !new_b {
                assert(v.levels[k][b] == w.levels[k][b]);
                assert(is_named(w, k, b));
                assert(w.visited.contains(w.levels[k][b].symbol));
            }
            if new_a && !new_b || new_b && !new_a {
                assert(target is Some);
            }
        }
        assert forall|m: int| 0 <= m < v.queue.len() && (#[trigger] v.queue[m]).1 > 0 implies
            v.queue[m].1 <= v.levels.len() && level_has(
            v.levels[v.queue[m].1 - 1],
            v.queue[m].0,
        ) by {
            if m < q.len() {
                assert(v.queue[m] == q[m]);
                let l = q[m].1 - 1;
                assert(level_has(w.levels[l], q[m].0));
                let a = choose|a: int|
                    0 <= a < w.levels[l].len() && (#[trigger] w.levels[l][a]).symbol == q[m].0;
                assert(v.levels[l][a] == w.levels[l][a]);
            } else {
                assert(v.levels[l0][w.levels[l0].len() as int] == node);
            }
        }
        assert forall|m: int| 0 <= m < v.queue.len() && (#[trigger] v.queue[m]).1 == 0 implies
            roots.contains(v.queue[m].0) by {
            assert(v.queue[m] == q[m]);
        }
    }
}

proof fn lemma_visit_one(
    w: WalkView,
    lookup: spec_fn(Seq<char>) -> Seq<SymbolReference>,
    direction: Direction,
    roots: Seq<Seq<char>>,
    settled: nat,
    from: int,
    refs: Seq<SymbolReference>,
    i: int,
    depth: nat,
)
    requires
        plainly_named(lookup, direction, roots),
        sound(w, lookup, direction, roots, settled, depth),
        orderly(w, roots),
        0 <= from < w.queue.len(),
        w.queue[from].1 + 1 == depth,
        lookup(w.queue[from].0) == refs,
        0 <= i < refs.len(),
        w.levels.len() >= depth,
        followed(w.queue, direction, refs.take(i), depth),
    ensures
        ({
            let v = visited_one(w, direction, refs[i], w.queue[from].0, depth);
            &&& sound(v, lookup, direction, roots, settled, depth)
            &&& orderly(v, roots)
            &&& v.levels.len() == w.levels.len()
            &&& v.head == w.head
            &&& v.queue.len() >= w.queue.len()
            &&& v.queue.take(w.queue.len() as int) == w.queue
            &&& followed(v.queue, direction, refs.take(i + 1), depth)
        }),
{
    lemma_visit_keeps_queue(w, lookup, direction, roots, settled, from, refs, i, depth);
    lemma_visit_keeps_nodes(w, lookup, direction, roots, settled, from, refs, i, depth);
}

proof fn lemma_visit_all(
    w: WalkView,
    lookup: spec_fn(Seq<char>) -> Seq<SymbolReference>,
    direction: Direction,
    roots: Seq<Seq<char>>,
    settled: nat,
    from: int,
    refs: Seq<SymbolReference>,
    n: int,
    depth: nat,
)
    requires
        plainly_named(lookup, direction, roots),
        sound(w, lookup, direction, roots, settled, depth),
        orderly(w, roots),
        0 <= from < w.queue.len(),
        w.queue[from].1 + 1 == depth,
        lookup(w.queue[from].0) == refs,
        0 <= n <= refs.len(),
        w.levels.len() >= depth,
    ensures
        ({
            let v = visited_all(w, direction, refs.take(n), w.queue[from].0, depth);
            &&& sound(v, lookup, direction, roots, settled, depth)
            &&& orderly(v, roots)
            &&& v.levels.len() == w.levels.len()
            &&& v.head == w.head
            &&& v.queue.len() >= w.queue.len()
            &&& v.queue.take(w.queue.len() as int) == w.queue
            &&& followed(v.queue, direction, refs.take(n), depth)
        }),
    decreases n,
{
    if n == 0 {
        assert(w.queue.take(w.queue.len() as int) =~= w.queue);
    } else {
        lemma_visit_all(w, lookup, direction, roots, settled, from, refs, n - 1, depth);
        let v = visited_all(w, direction, refs.take(n - 1), w.queue[from].0, depth);
        assert(refs.take(n).drop_last() =~= refs.take(n - 1));
        assert(refs.take(n).last() == refs[n - 1]);
        assert(v.queue[from] == v.queue.take(w.queue.len() as int)[from]);
        lemma_visit_one(v, lookup, direction, roots, settled, from, refs, n - 1, depth);
        let u = visited_one(v, direction, refs[n - 1], w.queue[from].0, depth);
        assert(u.queue.take(w.queue.len() as int) =~= u.queue.take(v.queue.len() as int).take(
            w.queue.len() as int,
        ));
    }
}

proof fn lemma_step(
    w: WalkView,
    lookup: spec_fn(Seq<char>) -> Seq<SymbolReference>,
    direction: Direction,
    roots: Seq<Seq<char>>,
)
    requires
        plainly_named(lookup, direction, roots),
        w.head < w.queue.len(),
        sound(w, lookup, direction, roots, w.head, w.queue[w.head as int].1 + 1),
        orderly(w, roots),
    ensures
        ({
            let v = stepped(w, direction, lookup(w.queue[w.head as int].0));
            &&& v.head == w.head + 1
            &&& sound(v, lookup, direction, roots, v.head, w.queue[w.head as int].1 + 1)
            &&& orderly(v, roots)
            &&& v.queue.len() >= w.queue.len()
            &&& v.queue.take(w.queue.len() as int) == w.queue
        }),
{
    let (s, d) = w.queue[w.head as int];
    let refs = lookup(s);
    let passed = WalkView { head: w.head + 1, ..w };
    let v = stepped(w, direction, refs);
    assert(orderly(passed, roots)) by {
        assert forall|l: int, i: int|
            0 <= l < passed.levels.len() && 0 <= i < passed.levels[l].len() && #[trigger] is_named(
                passed,
                l,
                i,
            ) implies is_named(w, l, i) by {}
        assert forall|l: int, i: int, k: int, j: int|
            0 <= l < w.levels.len() && 0 <= i < w.levels[l].len() && 0 <= k < w.levels.len() && 0
                <= j < w.levels[k].len() && #[trigger] is_named(passed, l, i)
                && #[trigger] is_named(passed, k, j) && w.levels[l][i].symbol
                == w.levels[k][j].symbol implies l == k && i == j by {
            assert(is_named(w, l, i) && is_named(w, k, j));
        }
    }
    assert(sound(passed, lookup, direction, roots, w.head, (d + 1) as nat));
    if refs.len() == 0 {
        assert(v == passed);
        assert(v.queue.take(w.queue.len() as int) =~= w.queue);
        assert(followed(v.queue, direction, lookup(v.queue[w.head as int].0), (d + 1) as nat));
    } else {
        let wide = WalkView { levels: widened(w.levels, (d + 1) as nat), ..passed };
        assert forall|l: int| 0 <= l < w.levels.len() implies wide.levels[l]
            == #[trigger] w.levels[l] by {}
        assert forall|l: int, i: int|
            0 <= l < wide.levels.len() && 0 <= i < wide.levels[l].len() implies l < w.levels.len()
            && #[trigger] wide.levels[l][i] == w.levels[l][i] by {
            if l >= w.levels.len() {
                assert(wide.levels[l] == Seq::<NodeView>::empty());
            }
        }
        assert(orderly(wide, roots)) by {
            assert forall|l: int, i: int|
                0 <= l < wide.levels.len() && 0 <= i < wide.levels[l].len() && #[trigger] is_named(
                    wide,
                    l,
                    i,
                ) implies l < w.levels.len() && is_named(w, l, i) && wide.levels[l][i]
                == w.levels[l][i] by {
                assert(wide.levels[l][i] == w.levels[l][i]);
            }
            assert forall|l: int, i: int, k: int, j: int|
                0 <= l < wide.levels.len() && 0 <= i < wide.levels[l].len() && 0 <= k
                    < wide.levels.len() && 0 <= j < wide.levels[k].len() && #[trigger] is_named(
                    wide,
                    l,
                    i,
                ) && #[trigger] is_named(wide, k, j) && wide.levels[l][i].symbol
                    == wide.levels[k][j].symbol implies l == k && i == j by {
                assert(wide.levels[l][i] == w.levels[l][i]);
                assert(wide.levels[k][j] == w.levels[k][j]);
                assert(is_named(w, l, i) && is_named(w, k, j));
            }
            assert forall|m: int| 0 <= m < wide.queue.len() && (#[trigger] wide.queue[m]).1
                > 0 implies wide.queue[m].1 <= wide.levels.len() && level_has(
                wide.levels[wide.queue[m].1 - 1],
                wide.queue[m].0,
            ) by {
                assert(w.queue[m].1 <= w.levels.len());
                assert(wide.levels[w.queue[m].1 - 1] == w.levels[w.queue[m].1 - 1]);
            }
        }
        lemma_visit_all(
            wide,
            lookup,
            direction,
            roots,
            w.head,
            w.head as int,
            refs,
            refs.len() as int,
            (d + 1) as nat,
        );
        assert(refs.take(refs.len() as int) =~= refs);
        assert(v.queue[w.head as int] == v.queue.take(w.queue.len() as int)[w.head as int]);
        assert forall|j: int| 0 <= j < v.head implies followed(
            v.queue,
            direction,
            lookup((#[trigger] v.queue[j]).0),
            v.queue[j].1 + 1,
        ) by {}
    }
}

proof fn lemma_run(
    lookup: spec_fn(Seq<char>) -> Seq<SymbolReference>,
    direction: Direction,
    roots: Seq<Seq<char>>,
    n: nat,
)
    requires
        plainly_named(lookup, direction, roots),
    ensures
        ({
            let w = run(lookup, direction, roots, n);
            &&& orderly(w, roots)
            &&& exists|limit: nat| sound(w, lookup, direction, roots, w.head, limit)
            &&& w.head < w.queue.len() ==> sound(
                w,
                lookup,
                direction,
                roots,
                w.head,
                w.queue[w.head as int].1 + 1,
            )
        }),
    decreases n,
{
    if n == 0 {
        lemma_sound_start(lookup, direction, roots);
        let w = at_roots(roots);
        assert(sound(w, lookup, direction, roots, 0, 0));
        if w.head < w.queue.len() {
            assert(sound(w, lookup, direction, roots, 0, w.queue[0].1 + 1));
        }
    } else {
        lemma_run(lookup, direction, roots, (n - 1) as nat);
        let w = run(lookup, direction, roots, (n - 1) as nat);
        if w.head < w.queue.len() {
            lemma_step(w, lookup, direction, roots);
            let v = run(lookup, direction, roots, n);
            let d = w.queue[w.head as int].1;
            assert(sound(v, lookup, direction, roots, v.head, (d + 1) as nat));
            if v.head < v.queue.len() {
                assert(v.queue[w.head as int] == v.queue.take(w.queue.len() as int)[w.head as int]);
                assert(d <= v.queue[v.head as int].1);
                assert(sound(
                    v,
                    lookup,
                    direction,
                    roots,
                    v.head,
                    v.queue[v.head as int].1 + 1,
                ));
            }
        }
    }
}

/// A walk emits each named symbol once and never a root, and reaches each node
/// through a root or a symbol of the level before.
pub proof fn lemma_walk_is_orderly(
    lookup: spec_fn(Seq<char>) -> Seq<SymbolReference>,
    direction: Direction,
    roots: Seq<Seq<char>>,
    n: nat,
)
    requires
        plainly_named(lookup, direction, roots),
    ensures
        orderly(run(lookup, direction, roots, n), roots),
{
    lemma_run(lookup, direction, roots, n);
}

/// A finished walk has queued exactly what some number of hops leads to from a
/// root, each symbol at the least such number.
pub proof fn lemma_walk_is_shallowest(
    lookup: spec_fn(Seq<char>) -> Seq<SymbolReference>,
    direction: Direction,
    roots: Seq<Seq<char>>,
    n: nat,
)
    requires
        plainly_named(lookup, direction, roots),
        run(lookup, direction, roots, n).head == run(lookup, direction, roots, n).queue.len(),
    ensures
        forall|m: int|
            0 <= m < run(lookup, direction, roots, n).queue.len() ==> hops(
                lookup,
                direction,
                roots,
                (#[trigger] run(lookup, direction, roots, n).queue[m]).0,
                run(lookup, direction, roots, n).queue[m].1,
            ),
        forall|t: Seq<char>, k: nat| #[trigger]
            hops(lookup, direction, roots, t, k) ==> queued(
                run(lookup, direction, roots, n).queue,
                t,
                k,
            ),
{
    lemma_run(lookup, direction, roots, n);
    let w = run(lookup, direction, roots, n);
    let limit = choose|limit: nat| sound(w, lookup, direction, roots, w.head, limit);
    assert forall|t: Seq<char>, k: nat| #[trigger]
        hops(lookup, direction, roots, t, k) implies queued(w.queue, t, k) by {
        lemma_hops_queued(w, lookup, direction, roots, limit, t, k);
    }
}

proof fn lemma_hops_queued(
    w: WalkView,
    lookup: spec_fn(Seq<char>) -> Seq<SymbolReference>,
    direction: Direction,
    roots: Seq<Seq<char>>,
    limit: nat,
    t: Seq<char>,
    k: nat,
)
    requires
        sound(w, lookup, direction, roots, w.head, limit),
        w.head == w.queue.len(),
        hops(lookup, direction, roots, t, k),
    ensures
        queued(w.queue, t, k),
    decreases k,
{
    if k == 0 {
        let i = choose|i: int| 0 <= i < roots.len() && roots[i] == t;
        assert(queued(w.queue, roots[i], 0));
    } else {
        let (u, i) = choose|u: Seq<char>, i: int|
            hops(lookup, direction, roots, u, (k - 1) as nat) && 0 <= i < lookup(u).len()
                && next_symbol(direction, #[trigger] lookup(u)[i]) == Some(t);
        lemma_hops_queued(w, lookup, direction, roots, limit, u, (k - 1) as nat);
        let m = choose|m: int|
            0 <= m < w.queue.len() && (#[trigger] w.queue[m]).0 == u && w.queue[m].1 <= k - 1;
        assert(followed(w.queue, direction, lookup(w.queue[m].0), w.queue[m].1 + 1));
        assert(queued(w.queue, t, w.queue[m].1 + 1));
        let z = choose|z: int|
            0 <= z < w.queue.len() && (#[trigger] w.queue[z]).0 == t && w.queue[z].1
                <= w.queue[m].1 + 1;
        assert(w.queue[z].1 <= k);
    }
}

} // verus!
