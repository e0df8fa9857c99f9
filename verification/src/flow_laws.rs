//! What an explanation is drawn from: routes, sources, snippets and remotes.

use vstd::prelude::*;
use crate::call_graph_traversal::{CallGraphNode, label_text, leads_on};
use crate::domain::CodeChunk;
use crate::explain::{
    FetchView, all_routes, is_listed, leaf_places, listed_all, listed_paths, next_places,
    parents_at, routes_of_leaves, routes_on, routes_over, to_fetch, valid_route,
};
use crate::git_remote::{chosen_url, gitdir_target, read_lines, remote_named, section_name, url_of};
use crate::slash_commands::{
    Hit, SlashCommandKind, byte_len, byte_width, command_named, hit_name, hit_text, hits_text,
    report_label, tool_words,
};
use crate::snippet_lookup::{holds_line, lemma_tightest, tightest};
use crate::text::{
    contains_text, decimal, find_text, is_space, lemma_find_char_from, starts_with, strip_end,
    strip_start, tail, trim, trim_end, trim_start,
};
use crate::unicode::ascii_lower;
use crate::zed_rules::{RULES_END, RULES_START, names_without, removed};

verus! {

/// The node at the place may follow the route: it is what the route's last node
/// was reached through, one level nearer, and is not on the route yet.
pub open spec fn may_follow(nodes: Seq<&CallGraphNode>, route: Seq<usize>, p: usize) -> bool {
    let last = nodes[route.last() as int];
    &&& p < nodes.len()
    &&& !route.contains(p)
    &&& last.via_symbol is Some && last.via_symbol->Some_0@ == nodes[p as int].symbol@
    &&& nodes[p as int].depth + 1 == last.depth || (last.depth == 0 && nodes[p as int].depth == 0)
}

/// Nothing may follow the route.
pub open spec fn is_whole(nodes: Seq<&CallGraphNode>, route: Seq<usize>) -> bool {
    forall|p: usize| !#[trigger] may_follow(nodes, route, p)
}

proof fn lemma_parents_at(
    nodes: Seq<&CallGraphNode>,
    depth: int,
    symbol: Seq<char>,
    route: Seq<usize>,
    p: usize,
)
    requires
        nodes.len() <= usize::MAX,
    ensures
        parents_at(nodes, depth, symbol, route).contains(p) <==> p < nodes.len()
            && nodes[p as int].depth == depth && nodes[p as int].symbol@ == symbol
            && !route.contains(p),
    decreases nodes.len(),
{
    if nodes.len() > 0 {
        let d = nodes.drop_last();
        lemma_parents_at(d, depth, symbol, route, p);
        let before = parents_at(d, depth, symbol, route);
        let all = parents_at(nodes, depth, symbol, route);
        if p < d.len() {
            assert(d[p as int] == nodes[p as int]);
        }
        if before.contains(p) {
            let k = choose|k: int| 0 <= k < before.len() && before[k] == p;
            assert(all[k] == p);
        }
        if all.contains(p) && !before.contains(p) {
            let k = choose|k: int| 0 <= k < all.len() && all[k] == p;
            if k < before.len() {
                assert(before[k] == p);
            }
        }
        if all.len() > before.len() {
            assert(all[before.len() as int] == nodes.len() - 1);
        }
    }
}

proof fn lemma_next_places(nodes: Seq<&CallGraphNode>, route: Seq<usize>, p: usize)
    requires
        nodes.len() <= usize::MAX,
        route.len() > 0,
        valid_route(nodes, route),
    ensures
        next_places(nodes, route).contains(p) <==> may_follow(nodes, route, p),
{
    let last = nodes[route.last() as int];
    if last.via_symbol is Some {
        let depth = if last.depth > 0 {
            last.depth - 1
        } else {
            0
        };
        lemma_parents_at(nodes, depth, last.via_symbol->Some_0@, route, p);
    }
}

/// The longer route begins with the route, and each step on it may follow.
spec fn grows_to(nodes: Seq<&CallGraphNode>, route: Seq<usize>, longer: Seq<usize>) -> bool {
    &&& 0 < route.len() <= longer.len()
    &&& longer.take(route.len() as int) == route
    &&& valid_route(nodes, longer)
    &&& longer.no_duplicates()
    &&& forall|k: int|
        route.len() <= k < longer.len() ==> may_follow(
            nodes,
            #[trigger] longer.take(k),
            longer[k],
        )
    &&& is_whole(nodes, longer)
}

proof fn lemma_length_of_route(nodes: Seq<&CallGraphNode>, route: Seq<usize>)
    requires
        valid_route(nodes, route),
        route.no_duplicates(),
    ensures
        route.len() <= nodes.len(),
{
    let places = Seq::new(route.len(), |i: int| route[i] as int);
    assert(places.no_duplicates());
    places.unique_seq_to_set();
    vstd::set_lib::lemma_int_range(0, nodes.len() as int);
    vstd::set_lib::lemma_len_subset(places.to_set(), vstd::set_lib::set_int_range(
        0,
        nodes.len() as int,
    ));
}

proof fn lemma_routes_on_has(nodes: Seq<&CallGraphNode>, route: Seq<usize>, longer: Seq<usize>)
    requires
        nodes.len() <= usize::MAX,
        grows_to(nodes, route, longer),
    ensures
        routes_on(nodes, route).contains(longer),
    decreases nodes.len() + 1 - route.len(), 1int, 0nat,
{
    lemma_length_of_route(nodes, longer);
    let next = next_places(nodes, route);
    assert forall|i: int| 0 <= i < route.len() implies (#[trigger] route[i]) < nodes.len() by {
        assert(longer.take(route.len() as int)[i] == longer[i]);
    }
    if route.len() == longer.len() {
        assert(longer.take(longer.len() as int) =~= longer);
        if next.len() > 0 {
            assert(next.contains(next[0]));
            lemma_next_places(nodes, route, next[0]);
            assert(may_follow(nodes, longer, next[0]));
        }
        assert(seq![route][0] == longer);
    } else {
        let p = longer[route.len() as int];
        assert(may_follow(nodes, longer.take(route.len() as int), p));
        lemma_next_places(nodes, route, p);
        let k = choose|k: int| 0 <= k < next.len() && next[k] == p;
        lemma_routes_over_has(nodes, route, next, next.len(), k, longer);
    }
}

proof fn lemma_routes_over_has(
    nodes: Seq<&CallGraphNode>,
    route: Seq<usize>,
    next: Seq<usize>,
    n: nat,
    k: int,
    longer: Seq<usize>,
)
    requires
        nodes.len() <= usize::MAX,
        grows_to(nodes, route, longer),
        route.len() < longer.len() <= nodes.len(),
        0 <= k < n <= next.len(),
        next[k] == longer[route.len() as int],
    ensures
        routes_over(nodes, route, next, n).contains(longer),
    decreases nodes.len() + 1 - route.len(), 0int, n,
{
    let a = routes_on(nodes, route.push(next[n - 1]));
    let b = routes_over(nodes, route, next, (n - 1) as nat);
    if k == n - 1 {
        let on = route.push(next[n - 1]);
        assert(longer.take(on.len() as int) =~= on) by {
            assert forall|i: int| 0 <= i < on.len() implies longer.take(on.len() as int)[i]
                == on[i] by {
                if i < route.len() {
                    assert(longer.take(route.len() as int)[i] == route[i]);
                }
            }
        }
        lemma_routes_on_has(nodes, on, longer);
        let i = choose|i: int| 0 <= i < a.len() && a[i] == longer;
        assert((a + b)[i] == longer);
    } else {
        lemma_routes_over_has(nodes, route, next, (n - 1) as nat, k, longer);
        let i = choose|i: int| 0 <= i < b.len() && b[i] == longer;
        assert((a + b)[a.len() + i] == longer);
    }
}

proof fn lemma_leaf_places(nodes: Seq<&CallGraphNode>, n: nat, p: usize)
    requires
        n <= nodes.len() <= usize::MAX,
        p < n,
        forall|i: int|
            0 <= i < nodes.len() ==> (#[trigger] nodes[i]).via_symbol is None
                || nodes[i].via_symbol->Some_0@ != nodes[p as int].symbol@,
    ensures
        leaf_places(nodes, n).contains(p),
    decreases n,
{
    let d = leaf_places(nodes, (n - 1) as nat);
    let all = leaf_places(nodes, n);
    if p == n - 1 {
        assert(!leads_on(nodes, nodes[p as int].symbol@));
        assert(all[d.len() as int] == p);
    } else {
        lemma_leaf_places(nodes, (n - 1) as nat, p);
        let k = choose|k: int| 0 <= k < d.len() && d[k] == p;
        assert(all[k] == p);
    }
}

proof fn lemma_routes_of_leaves(
    nodes: Seq<&CallGraphNode>,
    leaves: Seq<usize>,
    n: nat,
    k: int,
    route: Seq<usize>,
)
    requires
        0 <= k < n <= leaves.len(),
        routes_on(nodes, seq![leaves[k]]).contains(route),
    ensures
        routes_of_leaves(nodes, leaves, n).contains(route),
    decreases n,
{
    let a = routes_of_leaves(nodes, leaves, (n - 1) as nat);
    let b = routes_on(nodes, seq![leaves[n - 1]]);
    if k == n - 1 {
        let i = choose|i: int| 0 <= i < b.len() && b[i] == route;
        assert((a + b)[a.len() + i] == route);
    } else {
        lemma_routes_of_leaves(nodes, leaves, (n - 1) as nat, k, route);
        let i = choose|i: int| 0 <= i < a.len() && a[i] == route;
        assert((a + b)[i] == route);
    }
}

/// Every route from an outermost caller, step by step through what each caller
/// was reached through and as far as that goes, is among the routes.
pub proof fn lemma_every_route_is_found(nodes: Seq<&CallGraphNode>, route: Seq<usize>)
    requires
        nodes.len() <= usize::MAX,
        route.len() > 0,
        route.no_duplicates(),
        forall|i: int| 0 <= i < route.len() ==> (#[trigger] route[i]) < nodes.len(),
        forall|i: int|
            0 <= i < nodes.len() ==> (#[trigger] nodes[i]).via_symbol is None
                || nodes[i].via_symbol->Some_0@ != nodes[route[0] as int].symbol@,
        forall|k: int|
            1 <= k < route.len() ==> may_follow(nodes, #[trigger] route.take(k), route[k]),
        is_whole(nodes, route),
    ensures
        all_routes(nodes).contains(route),
{
    let leaves = leaf_places(nodes, nodes.len());
    lemma_leaf_places(nodes, nodes.len(), route[0]);
    let k = choose|k: int| 0 <= k < leaves.len() && leaves[k] == route[0];
    assert(route.take(1) =~= seq![route[0]]);
    lemma_routes_on_has(nodes, seq![route[0]], route);
    lemma_routes_of_leaves(nodes, leaves, leaves.len(), k, route);
}

spec fn all_whole(nodes: Seq<&CallGraphNode>, routes: Seq<Seq<usize>>) -> bool {
    forall|i: int|
        0 <= i < routes.len() ==> valid_route(nodes, #[trigger] routes[i]) && routes[i].len() > 0
            && routes[i].no_duplicates() && is_whole(nodes, routes[i])
}

proof fn lemma_routes_on_whole(nodes: Seq<&CallGraphNode>, route: Seq<usize>)
    requires
        nodes.len() <= usize::MAX,
        route.len() > 0,
        route.no_duplicates(),
        valid_route(nodes, route),
    ensures
        all_whole(nodes, routes_on(nodes, route)),
    decreases nodes.len() + 1 - route.len(), 1int, 0nat,
{
    lemma_length_of_route(nodes, route);
    let next = next_places(nodes, route);
    if next.len() == 0 {
        assert forall|p: usize| !#[trigger] may_follow(nodes, route, p) by {
            lemma_next_places(nodes, route, p);
        }
    } else {
        lemma_routes_over_whole(nodes, route, next.len());
    }
}

proof fn lemma_routes_over_whole(nodes: Seq<&CallGraphNode>, route: Seq<usize>, n: nat)
    requires
        nodes.len() <= usize::MAX,
        0 < route.len() <= nodes.len(),
        route.no_duplicates(),
        valid_route(nodes, route),
        n <= next_places(nodes, route).len(),
    ensures
        all_whole(nodes, routes_over(nodes, route, next_places(nodes, route), n)),
    decreases nodes.len() + 1 - route.len(), 0int, n,
{
    if n > 0 {
        let next = next_places(nodes, route);
        let p = next[n - 1];
        assert(next.contains(p));
        lemma_next_places(nodes, route, p);
        lemma_routes_on_whole(nodes, route.push(p));
        lemma_routes_over_whole(nodes, route, (n - 1) as nat);
    }
}

proof fn lemma_leaves_within(nodes: Seq<&CallGraphNode>, n: nat)
    requires
        n <= nodes.len() <= usize::MAX,
    ensures
        forall|k: int|
            0 <= k < leaf_places(nodes, n).len() ==> (#[trigger] leaf_places(nodes, n)[k]) < n,
    decreases n,
{
    if n > 0 {
        lemma_leaves_within(nodes, (n - 1) as nat);
        let d = leaf_places(nodes, (n - 1) as nat);
        let all = leaf_places(nodes, n);
        assert forall|k: int| 0 <= k < all.len() implies (#[trigger] all[k]) < n by {
            if k < d.len() {
                assert(all[k] == d[k]);
            }
        }
    }
}

proof fn lemma_routes_of_leaves_whole(nodes: Seq<&CallGraphNode>, leaves: Seq<usize>, n: nat)
    requires
        nodes.len() <= usize::MAX,
        n <= leaves.len(),
        forall|k: int| 0 <= k < leaves.len() ==> (#[trigger] leaves[k]) < nodes.len(),
    ensures
        all_whole(nodes, routes_of_leaves(nodes, leaves, n)),
    decreases n,
{
    if n > 0 {
        lemma_routes_of_leaves_whole(nodes, leaves, (n - 1) as nat);
        lemma_routes_on_whole(nodes, seq![leaves[n - 1]]);
    }
}

/// No route stops while a caller could still follow.
pub proof fn lemma_routes_are_whole(nodes: Seq<&CallGraphNode>, i: int, p: usize)
    requires
        nodes.len() <= usize::MAX,
        0 <= i < all_routes(nodes).len(),
    ensures
        !may_follow(nodes, all_routes(nodes)[i], p),
{
    let leaves = leaf_places(nodes, nodes.len());
    lemma_leaves_within(nodes, nodes.len());
    lemma_routes_of_leaves_whole(nodes, leaves, leaves.len());
}

/// The source asked for is that of the node: its symbol, file, line and repository.
pub open spec fn asks_for(f: FetchView, n: CallGraphNode) -> bool {
    f.symbol == n.symbol@ && f.file_path == n.file_path@ && f.line == n.line && f.repository_id
        == n.repository_id@
}

/// One of the nodes is what the source is asked for.
pub open spec fn asked_by(f: FetchView, nodes: Seq<&CallGraphNode>) -> bool {
    exists|i: int| 0 <= i < nodes.len() && asks_for(f, *(#[trigger] nodes[i]))
}

proof fn lemma_listed_all(list: Seq<FetchView>, nodes: Seq<&CallGraphNode>, is_callee: bool)
    ensures
        ({
            let r = listed_all(list, nodes, is_callee);
            &&& list.len() <= r.len()
            &&& forall|k: int| 0 <= k < list.len() ==> #[trigger] r[k] == list[k]
            &&& forall|k: int|
                list.len() <= k < r.len() ==> asked_by(#[trigger] r[k], nodes) && r[k].is_callee
                    == is_callee && !is_listed(list, r[k].symbol, r[k].file_path)
            &&& forall|i: int|
                0 <= i < nodes.len() ==> is_listed(
                    r,
                    (#[trigger] nodes[i]).symbol@,
                    nodes[i].file_path@,
                )
            &&& listed_once(list) ==> listed_once(r)
        }),
    decreases nodes.len(),
{
    if nodes.len() > 0 {
        let front = nodes.drop_last();
        lemma_listed_all(list, front, is_callee);
        let d = listed_all(list, front, is_callee);
        let r = listed_all(list, nodes, is_callee);
        let last = nodes.last();
        assert(nodes[nodes.len() - 1] == last);
        assert forall|k: int| list.len() <= k < r.len() implies asked_by(#[trigger] r[k], nodes)
            && r[k].is_callee == is_callee && !is_listed(list, r[k].symbol, r[k].file_path) by {
            if k < d.len() {
                assert(r[k] == d[k]);
                assert(asked_by(d[k], front));
                let i = choose|i: int|
                    0 <= i < front.len() && asks_for(d[k], *(#[trigger] front[i]));
                assert(nodes[i] == front[i]);
            } else {
                assert(asks_for(r[k], *nodes[nodes.len() - 1]));
                if is_listed(list, r[k].symbol, r[k].file_path) {
                    let m = choose|m: int|
                        0 <= m < list.len() && (#[trigger] list[m]).symbol == last.symbol@
                            && list[m].file_path == last.file_path@;
                    assert(d[m] == list[m]);
                    assert(is_listed(d, last.symbol@, last.file_path@));
                }
            }
        }
        assert forall|i: int| 0 <= i < nodes.len() implies is_listed(
            r,
            (#[trigger] nodes[i]).symbol@,
            nodes[i].file_path@,
        ) by {
            if i < front.len() {
                assert(front[i] == nodes[i]);
                assert(is_listed(d, front[i].symbol@, front[i].file_path@));
                let m = choose|m: int|
                    0 <= m < d.len() && (#[trigger] d[m]).symbol == front[i].symbol@
                        && d[m].file_path == front[i].file_path@;
                assert(r[m] == d[m]);
            } else if !is_listed(d, last.symbol@, last.file_path@) {
                assert(r[d.len() as int].symbol == last.symbol@);
            }
        }
    }
}

/// No symbol of a file is listed twice.
pub open spec fn listed_once(s: Seq<FetchView>) -> bool {
    forall|i: int, j: int|
        0 <= i < j < s.len() ==> !((#[trigger] s[i]).symbol == (#[trigger] s[j]).symbol
            && s[i].file_path == s[j].file_path)
}

/// One of the paths has a node that is what the source is asked for.
pub open spec fn asked_on_path(f: FetchView, paths: Seq<Seq<&CallGraphNode>>) -> bool {
    exists|i: int| 0 <= i < paths.len() && asked_by(f, #[trigger] paths[i])
}

proof fn lemma_listed_paths(paths: Seq<Seq<&CallGraphNode>>)
    ensures
        listed_once(listed_paths(paths)),
        forall|k: int|
            0 <= k < listed_paths(paths).len() ==> asked_on_path(
                #[trigger] listed_paths(paths)[k],
                paths,
            ) && !listed_paths(paths)[k].is_callee,
        forall|i: int, j: int|
            0 <= i < paths.len() && 0 <= j < paths[i].len() ==> is_listed(
                listed_paths(paths),
                (#[trigger] paths[i][j]).symbol@,
                paths[i][j].file_path@,
            ),
    decreases paths.len(),
{
    if paths.len() > 0 {
        let front = paths.drop_last();
        lemma_listed_paths(front);
        let d = listed_paths(front);
        let r = listed_paths(paths);
        lemma_listed_all(d, paths.last(), false);
        assert forall|k: int| 0 <= k < r.len() implies asked_on_path(#[trigger] r[k], paths)
            && !r[k].is_callee by {
            if k < d.len() {
                assert(r[k] == d[k]);
                assert(asked_on_path(d[k], front));
                let i = choose|i: int| 0 <= i < front.len() && asked_by(d[k], #[trigger] front[i]);
                assert(paths[i] == front[i]);
            } else {
                assert(asked_by(r[k], paths[paths.len() - 1]));
            }
        }
        assert forall|i: int, j: int| 0 <= i < paths.len() && 0 <= j < paths[i].len() implies
        is_listed(r, (#[trigger] paths[i][j]).symbol@, paths[i][j].file_path@) by {
            if i < front.len() {
                assert(front[i][j] == paths[i][j]);
                let m = choose|m: int|
                    0 <= m < d.len() && (#[trigger] d[m]).symbol == front[i][j].symbol@
                        && d[m].file_path == front[i][j].file_path@;
                assert(r[m] == d[m]);
            }
        }
    }
}

/// Sources are asked for each caller on a path and each callee, once for each
/// symbol of a file, and for nothing else; one counts as a callee only where it is
/// on no path.
pub proof fn lemma_sources_asked_for(
    paths: Seq<Seq<&CallGraphNode>>,
    callees: Seq<&CallGraphNode>,
)
    ensures
        listed_once(to_fetch(paths, callees)),
        forall|k: int|
            0 <= k < to_fetch(paths, callees).len() ==> {
                let f = #[trigger] to_fetch(paths, callees)[k];
                if f.is_callee {
                    asked_by(f, callees)
                } else {
                    asked_on_path(f, paths)
                }
            },
        forall|i: int, j: int|
            0 <= i < paths.len() && 0 <= j < paths[i].len() ==> is_listed(
                to_fetch(paths, callees),
                (#[trigger] paths[i][j]).symbol@,
                paths[i][j].file_path@,
            ),
        forall|i: int|
            0 <= i < callees.len() ==> is_listed(
                to_fetch(paths, callees),
                (#[trigger] callees[i]).symbol@,
                callees[i].file_path@,
            ),
{
    let d = listed_paths(paths);
    let r = to_fetch(paths, callees);
    lemma_listed_paths(paths);
    lemma_listed_all(d, callees, true);
    assert forall|i: int, j: int| 0 <= i < paths.len() && 0 <= j < paths[i].len() implies is_listed(
        r,
        (#[trigger] paths[i][j]).symbol@,
        paths[i][j].file_path@,
    ) by {
        let m = choose|m: int|
            0 <= m < d.len() && (#[trigger] d[m]).symbol == paths[i][j].symbol@ && d[m].file_path
                == paths[i][j].file_path@;
        assert(r[m] == d[m]);
    }
}

/// The snippet for a line is a chunk from before or at that line to at or after
/// it, the shortest such and of these the first; there is none only where no chunk
/// has the line.
pub proof fn lemma_snippet_has_line(chunks: Seq<CodeChunk>, line: u32, i: int)
    requires
        0 <= i < chunks.len(),
        chunks[i].start_line <= line <= chunks[i].end_line,
    ensures
        ({
            let b = tightest(chunks, line);
            &&& 0 <= b < chunks.len()
            &&& chunks[b].start_line <= line <= chunks[b].end_line
            &&& chunks[b].end_line - chunks[b].start_line <= chunks[i].end_line
                - chunks[i].start_line
            &&& i < b ==> chunks[b].end_line - chunks[b].start_line < chunks[i].end_line
                - chunks[i].start_line
        }),
{
    lemma_tightest(chunks, line);
    assert(holds_line(chunks[i], line));
}

/// What the slash commands run: the search, impact or context command on the
/// argument as it was given.
pub proof fn lemma_commands(arg: Seq<char>)
    ensures
        command_named("codesearch"@) == Some(SlashCommandKind::Search),
        command_named("codesearch-impact"@) == Some(SlashCommandKind::Impact),
        command_named("codesearch-context"@) == Some(SlashCommandKind::Context),
        tool_words(SlashCommandKind::Search, arg)[0] == "search"@,
        tool_words(SlashCommandKind::Impact, arg)[0] == "impact"@,
        tool_words(SlashCommandKind::Context, arg)[0] == "context"@,
        forall|kind: SlashCommandKind| (#[trigger] tool_words(kind, arg))[1] == arg,
{
    reveal_strlit("codesearch");
    reveal_strlit("codesearch-impact");
    reveal_strlit("codesearch-context");
    assert("codesearch"@.len() == 10 && "codesearch-impact"@.len() == 17
        && "codesearch-context"@.len() == 18);
}

/// Every hit is shown: its text stands in the reply, after those before it.
pub proof fn lemma_hits_are_shown(hits: Seq<Hit>, i: int)
    requires
        0 <= i < hits.len(),
    ensures
        exists|rest: Seq<char>|
            hits_text(hits) == hits_text(hits.take(i)) + hit_text(hits[i], i) + #[trigger] (rest
                + Seq::<char>::empty()),
        contains_text(hit_text(hits[i], i), hits[i].content@),
        contains_text(hit_text(hits[i], i), hits[i].file_path@),
    decreases hits.len(),
{
    let e = Seq::<char>::empty();
    let d = hits.drop_last();
    let h = hits[i];
    let t = hit_text(h, i);
    let head = "### "@ + decimal((i + 1) as nat) + ". `"@ + hit_name(h) + "` — "@;
    let mid = ":"@ + decimal(h.start_line as nat) + " (score: "@ + h.score@ + ")\n"@ + "```"@
        + h.language@ + "\n"@;
    crate::text_laws::lemma_parts_occur(head, h.file_path@, mid + h.content@ + "\n```\n\n"@);
    assert(head + h.file_path@ + (mid + h.content@ + "\n```\n\n"@) =~= t);
    crate::text_laws::lemma_parts_occur(head + h.file_path@ + mid, h.content@, "\n```\n\n"@);
    assert(head + h.file_path@ + mid + h.content@ + "\n```\n\n"@ =~= t);
    if i == d.len() {
        assert(hits.take(i) =~= d);
        assert(hits_text(hits) =~= hits_text(hits.take(i)) + t + (e + e));
    } else {
        lemma_hits_are_shown(d, i);
        assert(d.take(i) =~= hits.take(i));
        let rest = choose|rest: Seq<char>|
            hits_text(d) == hits_text(d.take(i)) + hit_text(d[i], i) + #[trigger] (rest + e);
        let more = rest + hit_text(hits.last(), hits.len() - 1);
        assert(hits_text(hits) =~= hits_text(hits.take(i)) + t + (more + e));
    }
}

/// What a text takes in bytes is the sum of its parts, and one for each character
/// of the basic ones.
pub proof fn lemma_byte_len(a: Seq<char>, b: Seq<char>)
    ensures
        byte_len(a + b) == byte_len(a) + byte_len(b),
        (forall|i: int| 0 <= i < a.len() ==> (#[trigger] a[i] as u32) < 0x80) ==> byte_len(a)
            == a.len(),
        a.len() <= byte_len(a) <= 4 * a.len(),
    decreases a.len() + b.len(),
{
    if b.len() > 0 {
        assert((a + b).drop_last() =~= a + b.drop_last());
        lemma_byte_len(a, b.drop_last());
    } else {
        assert(a + b =~= a);
        if a.len() > 0 {
            let d = a.drop_last();
            lemma_byte_len(d, b);
            if forall|i: int| 0 <= i < a.len() ==> (#[trigger] a[i] as u32) < 0x80 {
                assert forall|i: int| 0 <= i < d.len() implies (#[trigger] d[i] as u32) < 0x80 by {
                    assert(d[i] == a[i]);
                }
                assert((a[a.len() - 1] as u32) < 0x80);
            }
        }
    }
}

/// Removing a server leaves all the others and not it.
pub proof fn lemma_other_servers_stay(names: Seq<Seq<char>>, name: Seq<char>, x: Seq<char>)
    ensures
        names_without(names, name).contains(x) <==> names.contains(x) && x != name,
    decreases names.len(),
{
    if names.len() > 0 {
        let d = names.drop_last();
        lemma_other_servers_stay(d, name, x);
        let before = names_without(d, name);
        let all = names_without(names, name);
        assert(names[names.len() - 1] == names.last());
        if d.contains(x) {
            let k = choose|k: int| 0 <= k < d.len() && d[k] == x;
            assert(names[k] == x);
        }
        if names.contains(x) && x != names.last() {
            let k = choose|k: int| 0 <= k < names.len() && names[k] == x;
            assert(d[k] == x);
        }
        if before.contains(x) {
            let k = choose|k: int| 0 <= k < before.len() && before[k] == x;
            assert(all[k] == x);
        }
        if all.contains(x) && !before.contains(x) {
            let k = choose|k: int| 0 <= k < all.len() && all[k] == x;
            if k < before.len() {
                assert(before[k] == x);
            }
        }
        if all.len() > before.len() {
            assert(all[before.len() as int] == names.last());
        }
    }
}

/// The remote that counts is the first one called origin, else the first.
pub proof fn lemma_origin_counts(remotes: Seq<(Seq<char>, Seq<char>)>, p: int)
    requires
        0 <= p < remotes.len(),
        remotes[p].0 == "origin"@ || p == 0 && forall|i: int|
            0 <= i < remotes.len() ==> (#[trigger] remotes[i]).0 != "origin"@,
        forall|i: int| 0 <= i < p ==> (#[trigger] remotes[i]).0 != "origin"@,
    ensures
        chosen_url(remotes) == Some(remotes[p].1),
{
    lemma_remote_named(remotes, "origin"@);
}

proof fn lemma_remote_named(remotes: Seq<(Seq<char>, Seq<char>)>, name: Seq<char>)
    ensures
        ({
            let r = remote_named(remotes, name);
            &&& -1 <= r < remotes.len()
            &&& r >= 0 ==> remotes[r].0 == name
            &&& forall|i: int|
                0 <= i < remotes.len() && (r < 0 || i < r) ==> (#[trigger] remotes[i]).0 != name
        }),
    decreases remotes.len(),
{
    if remotes.len() > 0 {
        let d = remotes.drop_last();
        lemma_remote_named(d, name);
        let r = remote_named(remotes, name);
        assert forall|i: int| 0 <= i < remotes.len() && (r < 0 || i < r) implies (
        #[trigger] remotes[i]).0 != name by {
            if i < d.len() {
                assert(d[i] == remotes[i]);
            }
        }
    }
}

/// The address of a remote is read from the lines below its heading, up to the
/// next heading.
pub proof fn lemma_remote_is_read(
    before: Seq<Seq<char>>,
    heading: Seq<char>,
    between: Seq<Seq<char>>,
    line: Seq<char>,
    name: Seq<char>,
    url: Seq<char>,
)
    requires
        trim(heading).len() > 0 && trim(heading)[0] == '[',
        section_name(trim(heading)) == Some(name),
        forall|i: int|
            0 <= i < between.len() ==> trim(#[trigger] between[i]).len() == 0 || trim(
                between[i],
            )[0] != '[',
        url_of(trim(line)) == Some(url),
        trim(line).len() == 0 || trim(line)[0] != '[',
    ensures
        read_lines(before.push(heading) + between.push(line)).1.last() == (name, url),
{
    let above = before.push(heading) + between;
    let all = before.push(heading) + between.push(line);
    lemma_heading_holds(before, heading, between, name);
    assert(all.drop_last() =~= above);
    assert(all.last() == line);
}

proof fn lemma_heading_holds(
    before: Seq<Seq<char>>,
    heading: Seq<char>,
    between: Seq<Seq<char>>,
    name: Seq<char>,
)
    requires
        trim(heading).len() > 0 && trim(heading)[0] == '[',
        section_name(trim(heading)) == Some(name),
        forall|i: int|
            0 <= i < between.len() ==> trim(#[trigger] between[i]).len() == 0 || trim(
                between[i],
            )[0] != '[',
    ensures
        read_lines(before.push(heading) + between).0 == Some(name),
    decreases between.len(),
{
    let all = before.push(heading) + between;
    if between.len() == 0 {
        assert(all =~= before.push(heading));
        assert(all.drop_last() =~= before);
    } else {
        let d = between.drop_last();
        assert forall|i: int| 0 <= i < d.len() implies trim(#[trigger] d[i]).len() == 0 || trim(
            d[i],
        )[0] != '[' by {
            assert(d[i] == between[i]);
        }
        lemma_heading_holds(before, heading, d, name);
        assert(all.drop_last() =~= before.push(heading) + d);
        assert(all.last() == between[between.len() - 1]);
    }
}

/// A text that neither begins nor ends in space is not trimmed.
proof fn lemma_not_trimmed(s: Seq<char>)
    requires
        s.len() > 0,
        !is_space(s[0]),
        !is_space(s.last()),
    ensures
        trim(s) == s,
{
}

/// How a remote and its address are written in a configuration: the name in a
/// heading, the address on a line of its own.
pub proof fn lemma_remote_lines(name: Seq<char>, url: Seq<char>)
    requires
        name.len() > 0,
        !is_space(name[0]) && !is_space(name.last()),
        name[0] != '"' && name.last() != '"',
        url.len() > 0,
        !is_space(url[0]) && !is_space(url.last()),
    ensures
        section_name("[remote \""@ + name + "\"]"@) == Some(name),
        url_of("url = "@ + url) == Some(url),
        section_name("[core]"@) is None,
{
    reveal_strlit("[remote \"");
    reveal_strlit("\"]");
    reveal_strlit("remote");
    let line = "[remote \""@ + name + "\"]"@;
    let quoted = seq!['"'] + name + seq!['"'];
    let inner = "remote"@ + seq![' '] + quoted;
    assert(line.subrange(1, line.len() - 1) =~= inner);
    assert(inner.last() == '"');
    lemma_not_trimmed(inner);
    assert(inner.subrange(0, "remote"@.len() as int) =~= "remote"@);
    let rest = inner.skip("remote"@.len() as int);
    assert(rest =~= seq![' '] + quoted);
    assert(rest.skip(1) =~= quoted);
    assert(quoted[0] == '"' && quoted.last() == '"');
    assert(trim_start(rest) == trim_start(quoted));
    assert(trim_start(quoted) == quoted);
    assert(trim_end(quoted) == quoted);
    let tail = name + seq!['"'];
    assert(quoted.skip(1) =~= tail);
    assert(tail[0] == name[0]);
    assert(strip_start(tail, '"') == tail);
    assert(strip_start(quoted, '"') == tail);
    assert(tail.drop_last() =~= name);
    assert(strip_end(name, '"') == name);
    assert(strip_end(tail, '"') == name);
    lemma_not_trimmed(name);
    reveal_strlit("url = ");
    reveal_strlit("url");
    let u = "url = "@ + url;
    lemma_find_char_from(u, '=', 0);
    assert(u[4] == '=' && u[0] == 'u' && u[1] == 'r' && u[2] == 'l' && u[3] == ' ');
    let key = u.take(4);
    assert(key.drop_last() =~= "url"@);
    assert(key.last() == ' ');
    assert(trim_start(key) == key);
    assert(trim_end("url"@) == "url"@);
    assert(trim_end(key) == "url"@);
    assert(ascii_lower("url"@) =~= "url"@);
    let value = u.skip(5);
    assert(value =~= seq![' '] + url);
    assert(value.skip(1) =~= url);
    assert(trim_start(url) == url);
    assert(trim_start(value) == url);
    lemma_not_trimmed(url);
    reveal_strlit("[core]");
    let core = "[core]"@.subrange(1, 5);
    assert("[core]"@.len() == 6 && core.len() == 4);
    lemma_not_trimmed(core);
    assert(!starts_with(core, "remote"@));
}

/// What a text takes in bytes is the length of its encoding.
pub proof fn lemma_byte_len_is_encoded(s: Seq<char>)
    ensures
        byte_len(s) == vstd::utf8::encode_utf8(s).len(),
    decreases s.len(),
{
    if s.len() > 0 {
        let d = s.drop_first();
        lemma_byte_len_is_encoded(d);
        assert(s =~= seq![s[0]] + d);
        lemma_byte_len(seq![s[0]], d);
        assert(seq![s[0]].drop_last() =~= Seq::<char>::empty());
        assert(byte_len(Seq::<char>::empty()) == 0);
        assert(byte_len(seq![s[0]]) == byte_width(s[0]));
        let c = s[0];
        vstd::utf8::char_is_scalar(c);
        let code = vstd::utf8::encode_scalar(c as u32);
        assert(code.len() == byte_width(s[0]));
        assert(vstd::utf8::encode_utf8(s) == code + vstd::utf8::encode_utf8(d));
    }
}

/// A hit goes by its symbol, and by the kind of its node only where it has none.
pub proof fn lemma_hit_name(h: Hit)
    ensures
        h.symbol_name is Some ==> hit_name(h) == h.symbol_name->Some_0@,
        h.symbol_name is None ==> hit_name(h) == h.node_type@,
        report_label(SlashCommandKind::Impact, hit_name(h)) == "Impact: "@ + hit_name(h),
        report_label(SlashCommandKind::Context, hit_name(h)) == "Context: "@ + hit_name(h),
{
}

/// A work tree names its repository after the mark; any other content names none.
pub proof fn lemma_gitdir(path: Seq<char>, other: Seq<char>)
    requires
        path.len() > 0,
        !is_space(path[0]) && !is_space(path.last()),
    ensures
        gitdir_target("gitdir: "@ + path) == Some(path),
        !starts_with(trim(other), "gitdir:"@) ==> gitdir_target(other) is None,
{
    reveal_strlit("gitdir: ");
    reveal_strlit("gitdir:");
    let s = "gitdir: "@ + path;
    lemma_not_trimmed(s);
    assert(s.subrange(0, 7) =~= "gitdir:"@);
    let rest = s.skip(7);
    assert(rest =~= seq![' '] + path);
    assert(rest.skip(1) =~= path);
    assert(trim_start(path) == path);
    assert(trim_start(rest) == path);
    lemma_not_trimmed(path);
}

/// Where the block goes, what stood before and after it is kept, with one empty
/// line between.
pub proof fn lemma_around_the_block(x: Seq<char>)
    requires
        find_text(x, RULES_START@) >= 0,
        find_text(x, RULES_END@) >= 0,
    ensures
        ({
            let a = trim_end(x.take(find_text(x, RULES_START@)));
            let b = trim_start(x.skip(find_text(x, RULES_END@) + RULES_END@.len()));
            &&& a.len() > 0 && b.len() > 0 ==> removed(x) == Some(a + "\n\n"@ + b)
            &&& a.len() == 0 ==> removed(x) == Some(b)
            &&& b.len() == 0 ==> removed(x) == Some(a)
        }),
{
    let a = trim_end(x.take(find_text(x, RULES_START@)));
    let b = trim_start(x.skip(find_text(x, RULES_END@) + RULES_END@.len()));
    if a.len() == 0 {
        assert(a + b =~= b);
    }
    if b.len() == 0 {
        assert(a + b =~= a);
    }
}

/// What a name that was looked up is shown as: the symbol itself where it is the
/// only one, else the name with the number of symbols.
pub proof fn lemma_label(symbol: Seq<char>, resolved: Seq<Seq<char>>)
    ensures
        resolved.len() == 1 ==> label_text(symbol, resolved, false) == resolved[0],
        resolved.len() != 1 ==> label_text(symbol, resolved, false) == symbol + " ("@ + decimal(
            resolved.len(),
        ) + " symbols)"@,
        resolved.len() != 1 ==> starts_with(label_text(symbol, resolved, true), symbol),
{
    let l = label_text(symbol, resolved, true);
    if resolved.len() != 1 {
        assert(l.subrange(0, symbol.len() as int) =~= symbol);
    }
}

} // verus!
