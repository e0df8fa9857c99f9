//! What the nodes of a walk say, and how they hang together: where each was
//! found, which are the outermost, and the chains and levels they form.

use vstd::prelude::*;
use crate::call_graph_traversal::{
    CallGraphNode, Direction, NodeView, WalkView, at_roots, chain_from, chains, deepest, flat,
    leads_on, lemma_chain_from, next_symbol, node_at, outermost, parent_of, roots_for, total_len,
    visit_key, visited_all, visited_one, widened,
};
use crate::domain::SymbolReference;
use crate::symbol_context::{SymbolContext, children_of, children_shown, first_level, hangs_from};
use crate::text::{opt_text, texts};
use crate::walk_laws::{
    hops, in_queue_at, is_named, lemma_walk_is_orderly, lemma_walk_is_shallowest, level_has,
    plainly_named, queued, run,
};

verus! {

/// The node says what the reference says: the place, kind and repository of the
/// reference, and the symbol at its far end.
pub open spec fn made_by(
    n: NodeView,
    direction: Direction,
    r: SymbolReference,
    from: Seq<char>,
) -> bool {
    &&& n.via_symbol == Some(from)
    &&& n.file_path == r.reference_file_path@
    &&& n.line == r.reference_line
    &&& n.reference_kind == r.reference_kind.name()
    &&& n.repository_id == r.repository_id@
    &&& n.import_alias == opt_text(r.import_alias)
    &&& direction is Callees ==> n.symbol == r.callee_symbol@
    &&& direction is Callers && r.caller_symbol is Some ==> n.symbol == r.caller_symbol->Some_0@
    &&& direction is Callers && r.caller_symbol is None ==> n.symbol == "<anonymous>"@
}

/// The node was made by a reference that was looked up for the symbol before
/// it.
pub open spec fn has_reference(
    n: NodeView,
    lookup: spec_fn(Seq<char>) -> Seq<SymbolReference>,
    direction: Direction,
) -> bool {
    exists|u: Seq<char>, i: int|
        0 <= i < lookup(u).len() && made_by(n, direction, #[trigger] lookup(u)[i], u)
}

spec fn all_have_references(
    w: WalkView,
    lookup: spec_fn(Seq<char>) -> Seq<SymbolReference>,
    direction: Direction,
) -> bool {
    forall|l: int, k: int|
        0 <= l < w.levels.len() && 0 <= k < w.levels[l].len() ==> has_reference(
            #[trigger] w.levels[l][k],
            lookup,
            direction,
        ) && w.levels[l][k].depth == l + 1
}

proof fn lemma_visited_have_references(
    w: WalkView,
    lookup: spec_fn(Seq<char>) -> Seq<SymbolReference>,
    direction: Direction,
    refs: Seq<SymbolReference>,
    from: Seq<char>,
    depth: nat,
)
    requires
        all_have_references(w, lookup, direction),
        1 <= depth <= w.levels.len(),
        forall|k: int| 0 <= k < refs.len() ==> lookup(from).contains(#[trigger] refs[k]),
    ensures
        all_have_references(visited_all(w, direction, refs, from, depth), lookup, direction),
        visited_all(w, direction, refs, from, depth).levels.len() == w.levels.len(),
    decreases refs.len(),
{
    if refs.len() > 0 {
        let d = refs.drop_last();
        assert forall|k: int| 0 <= k < d.len() implies lookup(from).contains(#[trigger] d[k]) by {
            assert(refs[k] == d[k]);
        }
        lemma_visited_have_references(w, lookup, direction, d, from, depth);
        let v = visited_all(w, direction, d, from, depth);
        let r = refs.last();
        let x = visited_one(v, direction, r, from, depth);
        assert(refs[refs.len() - 1] == r);
        let found = lookup(from);
        let i = choose|i: int| 0 <= i < found.len() && found[i] == r;
        assert forall|l: int, k: int| 0 <= l < x.levels.len() && 0 <= k < x.levels[l].len() implies
        has_reference(#[trigger] x.levels[l][k], lookup, direction) && x.levels[l][k].depth == l
            + 1 by {
            if x.levels.len() == v.levels.len() && l < v.levels.len() && k < v.levels[l].len() {
                assert(x.levels[l][k] == v.levels[l][k]);
            } else {
                assert(made_by(x.levels[l][k], direction, lookup(from)[i], from));
            }
        }
    }
}

proof fn lemma_run_has_references(
    lookup: spec_fn(Seq<char>) -> Seq<SymbolReference>,
    direction: Direction,
    roots: Seq<Seq<char>>,
    n: nat,
)
    ensures
        all_have_references(run(lookup, direction, roots, n), lookup, direction),
    decreases n,
{
    if n == 0 {
        lemma_roots_reach_nothing(roots);
    } else {
        lemma_run_has_references(lookup, direction, roots, (n - 1) as nat);
        let w = run(lookup, direction, roots, (n - 1) as nat);
        if w.head < w.queue.len() {
            let (from, depth) = w.queue[w.head as int];
            let refs = lookup(from);
            if refs.len() > 0 {
                let wide = WalkView {
                    levels: widened(w.levels, depth + 1),
                    head: w.head + 1,
                    ..w
                };
                assert(all_have_references(wide, lookup, direction));
                assert forall|k: int| 0 <= k < refs.len() implies lookup(from).contains(
                    #[trigger] refs[k],
                ) by {}
                lemma_visited_have_references(wide, lookup, direction, refs, from, depth + 1);
            }
        }
    }
}

proof fn lemma_roots_reach_nothing(roots: Seq<Seq<char>>)
    ensures
        at_roots(roots).levels.len() == 0,
    decreases roots.len(),
{
    if roots.len() > 0 {
        lemma_roots_reach_nothing(roots.drop_last());
    }
}

/// Every node that a walk reaches comes from a reference that was looked up for
/// the symbol it was reached through, and carries that reference's own file,
/// line, kind and repository. Its depth is that of its level.
pub proof fn lemma_nodes_come_from_references(
    lookup: spec_fn(Seq<char>) -> Seq<SymbolReference>,
    direction: Direction,
    roots: Seq<Seq<char>>,
    n: nat,
    l: int,
    k: int,
)
    requires
        0 <= l < run(lookup, direction, roots, n).levels.len(),
        0 <= k < run(lookup, direction, roots, n).levels[l].len(),
    ensures
        ({
            let node = run(lookup, direction, roots, n).levels[l][k];
            &&& node.depth == l + 1
            &&& node.via_symbol is Some
            &&& exists|i: int|
                0 <= i < lookup(node.via_symbol->Some_0).len() && made_by(
                    node,
                    direction,
                    #[trigger] lookup(node.via_symbol->Some_0)[i],
                    node.via_symbol->Some_0,
                )
        }),
{
    lemma_run_has_references(lookup, direction, roots, n);
    let node = run(lookup, direction, roots, n).levels[l][k];
    assert(has_reference(node, lookup, direction));
    let (u, i) = choose|u: Seq<char>, i: int|
        0 <= i < lookup(u).len() && made_by(node, direction, #[trigger] lookup(u)[i], u);
    assert(made_by(node, direction, lookup(node.via_symbol->Some_0)[i], node.via_symbol->Some_0));
}

/// The symbol is a root, or stands for a node of the walk.
pub open spec fn was_reached(w: WalkView, roots: Seq<Seq<char>>, s: Seq<char>) -> bool {
    roots.contains(s) || exists|l: int, k: int|
        0 <= l < w.levels.len() && 0 <= k < w.levels[l].len() && (#[trigger] w.levels[l][k]).symbol
            == s
}

/// A walk that has run to its end has reached every symbol that calls, or is
/// called by, one that it reached.
pub proof fn lemma_walk_is_complete(
    lookup: spec_fn(Seq<char>) -> Seq<SymbolReference>,
    direction: Direction,
    roots: Seq<Seq<char>>,
    n: nat,
    s: Seq<char>,
    i: int,
)
    requires
        plainly_named(lookup, direction, roots),
        run(lookup, direction, roots, n).head == run(lookup, direction, roots, n).queue.len(),
        was_reached(run(lookup, direction, roots, n), roots, s),
        s != "<anonymous>"@,
        0 <= i < lookup(s).len(),
    ensures
        direction is Callers && lookup(s)[i].caller_symbol is Some ==> was_reached(
            run(lookup, direction, roots, n),
            roots,
            lookup(s)[i].caller_symbol->Some_0@,
        ),
        direction is Callees ==> was_reached(
            run(lookup, direction, roots, n),
            roots,
            lookup(s)[i].callee_symbol@,
        ),
{
    let w = run(lookup, direction, roots, n);
    lemma_walk_is_orderly(lookup, direction, roots, n);
    lemma_walk_is_shallowest(lookup, direction, roots, n);
    let q = w.queue;
    if roots.contains(s) {
        assert(hops(lookup, direction, roots, s, 0));
        assert(queued(q, s, 0));
    } else {
        let (l, k) = choose|l: int, k: int|
            0 <= l < w.levels.len() && 0 <= k < w.levels[l].len() && (
            #[trigger] w.levels[l][k]).symbol == s;
        assert(is_named(w, l, k));
        assert(in_queue_at(q, s, (l + 1) as nat));
    }
    let m = choose|m: int| 0 <= m < q.len() && (#[trigger] q[m]).0 == s;
    assert(hops(lookup, direction, roots, q[m].0, q[m].1));
    let d = q[m].1;
    let r = lookup(s)[i];
    let t = if direction is Callers { r.caller_symbol->Some_0@ } else { r.callee_symbol@ };
    if direction is Callees || r.caller_symbol is Some {
        assert(next_symbol(direction, lookup(s)[i]) == Some(t));
        assert(hops(lookup, direction, roots, s, (d + 1 - 1) as nat));
        assert(hops(lookup, direction, roots, t, d + 1));
        assert(queued(q, t, d + 1));
        let j = choose|j: int| 0 <= j < q.len() && (#[trigger] q[j]).0 == t && q[j].1 <= d + 1;
        if q[j].1 > 0 {
            let level = w.levels[q[j].1 - 1];
            assert(level_has(level, t));
            let k = choose|k: int| 0 <= k < level.len() && (#[trigger] level[k]).symbol == t;
            assert(w.levels[q[j].1 - 1][k].symbol == t);
        }
    }
}

proof fn lemma_outermost<'a>(
    nodes: Seq<&'a CallGraphNode>,
    part: Seq<&'a CallGraphNode>,
    x: &'a CallGraphNode,
)
    ensures
        outermost(nodes, part).contains(x) <==> part.contains(x) && !leads_on(nodes, x.symbol@),
    decreases part.len(),
{
    if part.len() > 0 {
        let d = part.drop_last();
        lemma_outermost(nodes, d, x);
        let before = outermost(nodes, d);
        let all = outermost(nodes, part);
        if before.contains(x) {
            let k = choose|k: int| 0 <= k < before.len() && before[k] == x;
            assert(all[k] == x);
            let m = choose|m: int| 0 <= m < d.len() && d[m] == x;
            assert(part[m] == x);
        } else if all.contains(x) {
            let k = choose|k: int| 0 <= k < all.len() && all[k] == x;
            if k < before.len() {
                assert(before[k] == x);
            }
            assert(part[part.len() - 1] == x);
        }
        if part.contains(x) && !leads_on(nodes, x.symbol@) {
            let m = choose|m: int| 0 <= m < part.len() && part[m] == x;
            if m < d.len() {
                assert(d[m] == x);
            } else {
                assert(all[before.len() as int] == x);
            }
        }
    }
}

/// A node is a leaf if and only if it is one of the nodes and none of them was
/// reached through its symbol.
pub proof fn lemma_leaves<'a>(nodes: Seq<&'a CallGraphNode>, x: &'a CallGraphNode)
    ensures
        outermost(nodes, nodes).contains(x) <==> nodes.contains(x) && forall|i: int|
            0 <= i < nodes.len() ==> (#[trigger] nodes[i]).via_symbol is None
                || nodes[i].via_symbol->Some_0@ != x.symbol@,
{
    lemma_outermost(nodes, nodes, x);
    if leads_on(nodes, x.symbol@) {
        let i = choose|i: int|
            0 <= i < nodes.len() && opt_text((#[trigger] nodes[i]).via_symbol) == Some(x.symbol@);
        assert(nodes[i].via_symbol is Some);
    }
    if exists|i: int|
        0 <= i < nodes.len() && (#[trigger] nodes[i]).via_symbol is Some
            && nodes[i].via_symbol->Some_0@ == x.symbol@ {
        let i = choose|i: int|
            0 <= i < nodes.len() && (#[trigger] nodes[i]).via_symbol is Some
                && nodes[i].via_symbol->Some_0@ == x.symbol@;
        assert(opt_text(nodes[i].via_symbol) == Some(x.symbol@));
    }
}

proof fn lemma_node_at_first(nodes: Seq<&CallGraphNode>, depth: int, symbol: Seq<char>)
    ensures
        -1 <= node_at(nodes, depth, symbol) < nodes.len(),
        node_at(nodes, depth, symbol) >= 0 ==> nodes[node_at(nodes, depth, symbol)].depth == depth
            && nodes[node_at(nodes, depth, symbol)].symbol@ == symbol,
        node_at(nodes, depth, symbol) < 0 ==> forall|i: int|
            0 <= i < nodes.len() ==> (#[trigger] nodes[i]).depth != depth || nodes[i].symbol@
                != symbol,
    decreases nodes.len(),
{
    if nodes.len() > 0 {
        let d = nodes.drop_last();
        lemma_node_at_first(d, depth, symbol);
        if node_at(nodes, depth, symbol) < 0 {
            assert forall|i: int| 0 <= i < nodes.len() implies (#[trigger] nodes[i]).depth != depth
                || nodes[i].symbol@ != symbol by {
                if i < d.len() {
                    assert(d[i] == nodes[i]);
                }
            }
        }
    }
}

/// A chain begins at its leaf; each node on it was reached through the next, one
/// hop nearer to a root, and is one of the nodes; it ends where no node leads
/// nearer. There is one chain for each leaf.
pub proof fn lemma_chains<'a>(nodes: Seq<&'a CallGraphNode>, c: int)
    requires
        0 <= c < chains(nodes).len(),
    ensures
        chains(nodes).len() == outermost(nodes, nodes).len(),
        ({
            let chain = chains(nodes)[c];
            &&& chain.len() >= 1
            &&& chain[0] == outermost(nodes, nodes)[c]
            &&& forall|i: int|
                0 <= i < chain.len() - 1 ==> {
                    let a = #[trigger] chain[i];
                    let b = chain[i + 1];
                    a.via_symbol is Some && a.via_symbol->Some_0@ == b.symbol@ && b.depth + 1
                        == a.depth
                }
            &&& forall|i: int| 0 <= i < chain.len() ==> nodes.contains(#[trigger] chain[i])
            &&& ({
                let last = chain.last();
                last.via_symbol is None || last.depth <= 1 || forall|j: int|
                    0 <= j < nodes.len() ==> (#[trigger] nodes[j]).depth + 1 != last.depth
                        || nodes[j].symbol@ != last.via_symbol->Some_0@
            })
        }),
{
    let leaves = outermost(nodes, nodes);
    let leaf = leaves[c];
    assert(leaves.contains(leaf));
    lemma_outermost(nodes, nodes, leaf);
    lemma_chain_from(nodes, leaf);
    lemma_chain_stays(nodes, leaf);
    let chain = chain_from(nodes, leaf);
    let last = chain.last();
    if last.via_symbol is Some && last.depth >= 2 {
        lemma_node_at_first(nodes, last.depth - 1, last.via_symbol->0@);
    }
    assert forall|i: int| 0 <= i < chain.len() - 1 implies {
        let a = #[trigger] chain[i];
        let b = chain[i + 1];
        a.via_symbol is Some && a.via_symbol->Some_0@ == b.symbol@ && b.depth + 1 == a.depth
    } by {
        assert(opt_text(chain[i].via_symbol) == Some(chain[i + 1].symbol@));
    }
}

proof fn lemma_chain_stays<'a>(nodes: Seq<&'a CallGraphNode>, node: &'a CallGraphNode)
    requires
        nodes.contains(node),
    ensures
        forall|i: int|
            0 <= i < chain_from(nodes, node).len() ==> nodes.contains(
                #[trigger] chain_from(nodes, node)[i],
            ),
    decreases node.depth,
{
    let p = parent_of(nodes, *node);
    if p >= 0 {
        lemma_node_at_first(nodes, node.depth - 1, node.via_symbol->0@);
        assert(nodes.contains(nodes[p]));
        lemma_chain_stays(nodes, nodes[p]);
        let c = chain_from(nodes, node);
        let rest = chain_from(nodes, nodes[p]);
        assert forall|i: int| 0 <= i < c.len() implies nodes.contains(#[trigger] c[i]) by {
            if i > 0 {
                assert(c[i] == rest[i - 1]);
            }
        }
    }
}

/// The node stands on one of the levels.
pub open spec fn stands_on_a_level(by_depth: Seq<Vec<CallGraphNode>>, x: CallGraphNode) -> bool {
    exists|l: int, k: int|
        0 <= l < by_depth.len() && 0 <= k < by_depth[l]@.len() && x == #[trigger] by_depth[l]@[k]
}

/// The nodes of all levels are counted once each, and none is passed over; the
/// deepest level is the last that has any.
pub proof fn lemma_levels(by_depth: Seq<Vec<CallGraphNode>>)
    ensures
        flat(by_depth).len() == total_len(by_depth),
        forall|l: int, k: int|
            0 <= l < by_depth.len() && 0 <= k < by_depth[l]@.len() ==> flat(by_depth).contains(
                &#[trigger] by_depth[l]@[k],
            ),
        forall|i: int|
            0 <= i < flat(by_depth).len() ==> stands_on_a_level(
                by_depth,
                *(#[trigger] flat(by_depth)[i]),
            ),
        deepest(by_depth) <= by_depth.len(),
        deepest(by_depth) > 0 ==> by_depth[deepest(by_depth) - 1]@.len() > 0,
        forall|l: int|
            deepest(by_depth) <= l < by_depth.len() ==> (#[trigger] by_depth[l])@.len() == 0,
    decreases by_depth.len(),
{
    if by_depth.len() > 0 {
        let d = by_depth.drop_last();
        lemma_levels(d);
        let before = flat(d);
        let all = flat(by_depth);
        let v = by_depth.last()@;
        let n = by_depth.len() - 1;
        assert(by_depth[n] == by_depth.last());
        assert forall|l: int, k: int| 0 <= l < by_depth.len() && 0 <= k
            < by_depth[l]@.len() implies all.contains(&#[trigger] by_depth[l]@[k]) by {
            if l < n {
                assert(d[l]@[k] == by_depth[l]@[k]);
                assert(before.contains(&d[l]@[k]));
                let m = choose|m: int| 0 <= m < before.len() && before[m] == &d[l]@[k];
                assert(all[m] == before[m]);
            } else {
                assert(all[before.len() + k] == &v[k]);
            }
        }
        assert forall|i: int| 0 <= i < all.len() implies stands_on_a_level(
            by_depth,
            *(#[trigger] all[i]),
        ) by {
            if i < before.len() {
                assert(all[i] == before[i]);
                let (l, k) = choose|l: int, k: int|
                    0 <= l < d.len() && 0 <= k < d[l]@.len() && *before[i] == #[trigger] d[l]@[k];
                assert(by_depth[l]@[k] == d[l]@[k]);
            } else {
                assert(*all[i] == by_depth[n]@[i - before.len()]);
            }
        }
        assert forall|l: int| deepest(by_depth) <= l < by_depth.len() implies (
        #[trigger] by_depth[l])@.len() == 0 by {
            if l < n {
                assert(d[l] == by_depth[l]);
            }
        }
        if v.len() == 0 && deepest(d) > 0 {
            assert(d[deepest(d) - 1] == by_depth[deepest(d) - 1]);
        }
    }
}

proof fn lemma_children_of<'a>(
    nodes: Seq<&'a CallGraphNode>,
    label: Seq<char>,
    parent: Seq<char>,
    x: &'a CallGraphNode,
)
    ensures
        children_of(nodes, label, parent).contains(x) <==> nodes.contains(x) && (
        x.via_symbol is Some && x.via_symbol->Some_0@ == parent || x.via_symbol is None && label
            == parent),
    decreases nodes.len(),
{
    if nodes.len() > 0 {
        let d = nodes.drop_last();
        lemma_children_of(d, label, parent, x);
        let before = children_of(d, label, parent);
        let all = children_of(nodes, label, parent);
        if before.contains(x) {
            let k = choose|k: int| 0 <= k < before.len() && before[k] == x;
            assert(all[k] == x);
            let m = choose|m: int| 0 <= m < d.len() && d[m] == x;
            assert(nodes[m] == x);
        } else if all.contains(x) {
            let k = choose|k: int| 0 <= k < all.len() && all[k] == x;
            if k < before.len() {
                assert(before[k] == x);
            }
            assert(nodes[nodes.len() - 1] == x);
        }
        if nodes.contains(x) && hangs_from(*x, label) == parent {
            let m = choose|m: int| 0 <= m < nodes.len() && nodes[m] == x;
            if m < d.len() {
                assert(d[m] == x);
            } else {
                assert(all[before.len() as int] == x);
            }
        }
    }
}

/// Below a symbol of the callee tree hang the callees that were reached through
/// it. Below the label of a query that is itself no root hang the direct
/// callees.
pub proof fn lemma_children<'a>(c: SymbolContext, parent: Seq<char>, x: &'a CallGraphNode)
    ensures
        parent != c.symbol@ || texts(c.root_symbols@).contains(c.symbol@) ==> (children_shown(
            c,
            parent,
        ).contains(x) <==> flat(c.callees_by_depth@).contains(x) && (x.via_symbol is Some
            && x.via_symbol->Some_0@ == parent || x.via_symbol is None && c.symbol@ == parent)),
        parent == c.symbol@ && !texts(c.root_symbols@).contains(c.symbol@)
            && c.callees_by_depth@.len() > 0 && c.callees_by_depth@[0]@.len() > 0 ==> (
        children_shown(c, parent).contains(x) <==> exists|k: int|
            0 <= k < c.callees_by_depth@[0]@.len() && *x == #[trigger] c.callees_by_depth@[0]@[k]),
{
    lemma_children_of(flat(c.callees_by_depth@), c.symbol@, parent, x);
    if c.callees_by_depth@.len() > 0 {
        let one = c.callees_by_depth@.take(1);
        let v = c.callees_by_depth@[0]@;
        assert(one.drop_last() =~= Seq::<Vec<CallGraphNode>>::empty());
        assert(one.last() == c.callees_by_depth@[0]);
        let direct = first_level::<'a>(c.callees_by_depth@);
        assert(flat::<'a>(one.drop_last()).len() == 0);
        assert(direct =~= Seq::new(v.len(), |i: int| &v[i]));
        if direct.contains(x) {
            let k = choose|k: int| 0 <= k < direct.len() && direct[k] == x;
            assert(*x == c.callees_by_depth@[0]@[k]);
        }
        if exists|k: int| 0 <= k < v.len() && *x == #[trigger] c.callees_by_depth@[0]@[k] {
            let k = choose|k: int| 0 <= k < v.len() && *x == #[trigger] c.callees_by_depth@[0]@[k];
            assert(direct[k] == x);
        }
    }
}

/// A named caller is visited once, by its name. Callers without a name are told
/// apart by their file: those of one file are visited once.
pub proof fn lemma_visited_once(a: SymbolReference, b: SymbolReference)
    ensures
        a.caller_symbol is Some ==> visit_key(Direction::Callers, a) == a.caller_symbol->Some_0@,
        visit_key(Direction::Callees, a) == a.callee_symbol@,
        a.caller_symbol is None && b.caller_symbol is None && a.repository_id@ == b.repository_id@
            ==> (visit_key(Direction::Callers, a) == visit_key(Direction::Callers, b)
            <==> a.caller_file_path@ == b.caller_file_path@),
{
    if a.caller_symbol is None && b.caller_symbol is None && a.repository_id@ == b.repository_id@
        && visit_key(Direction::Callers, a) == visit_key(Direction::Callers, b) {
        let front = "anon:"@ + a.repository_id@ + ":"@;
        let x = front + a.caller_file_path@;
        let y = front + b.caller_file_path@;
        assert(x == y);
        let n = front.len() as int;
        assert(x.skip(n) =~= a.caller_file_path@);
        assert(y.skip(n) =~= b.caller_file_path@);
    }
}

/// A walk always has a root: all that the symbol resolved to and nothing else, or
/// the symbol as it was given where it resolved to nothing.
pub proof fn lemma_roots(symbol: Seq<char>, resolved: Seq<Seq<char>>, x: Seq<char>)
    ensures
        roots_for(symbol, resolved).len() > 0,
        resolved.contains(x) ==> roots_for(symbol, resolved).contains(x),
        roots_for(symbol, resolved).contains(x) ==> resolved.contains(x) || resolved.len() == 0 && x
            == symbol,
        resolved.len() == 0 ==> roots_for(symbol, resolved).contains(symbol),
{
    if resolved.len() == 0 {
        assert(seq![symbol][0] == symbol);
        assert(seq![symbol].contains(symbol));
        assert(!resolved.contains(x));
    }
}

} // verus!
