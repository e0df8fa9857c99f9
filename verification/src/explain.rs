//! Explanation of a symbol by a model: the routes that lead to it, the sources
//! to fetch, the prompt, and what is made of the answer.

use vstd::prelude::*;
use vstd::string::*;
use crate::call_graph_traversal::{CallGraphNode, flat, flatten, leads_on, path_lists};
use crate::domain::DomainError;
use crate::markdown::{answer_markdown, xml_to_markdown};
use crate::symbol_context::SymbolContext;
use crate::text::{
    copy_opt, decimal, decimal_text, has_text, join, join_texts, opt_str, opt_text, same_text,
    texts,
};

verus! {

/// What the model is told about its task.
pub const SYSTEM_PROMPT: &'static str = "\
You are analysing a code symbol for an AI coding agent that is about to work on it. \
The agent can read any file itself — your job is orientation, not documentation. \
Be dense and specific. Omit anything the agent could infer from a ten-second read \
of the source.

You receive a root symbol with its caller paths (entry point down to the root) \
and its callees, with source for each.

Respond using exactly the three XML sections below, in order, with nothing \
outside them. Obey the length budgets — going over is a failure, and it is \
always better to drop a weak item than to pad.

<summary>
[Two or three sentences, at most 60 words. What the root symbol does, and the \
user-visible capability its call chain serves. No hedging, no restating the signature.

Example: compute_checksum hashes a decoded payload and compares the digest to the \
expected value. It is the last integrity gate in the record-ingestion endpoint, \
run after validation and immediately before the record is persisted.]
</summary>

<flow>
[At most 6 bullets, one line each, ordered entry point first. Cover only \
load-bearing hops: where a decision is made, state changes, data is validated \
or transformed, or an external system is touched. Collapse pass-through wrappers \
into the neighbouring hop. If several caller paths converge, describe the shape \
once and name the variants.

Format: `<caller>` → `<callee>` — what is decided or transformed here.

Example:
• `handle_request` → `decode_payload` — parses the raw body; rejects malformed input before anything else runs.
• `validate_record` → `compute_checksum` — the integrity gate; a mismatch aborts the write.
• `compute_checksum` → `sha256_digest` — produces the digest that is compared and then stored.]
</flow>

<focus>
[Two to four bullets. Where an agent changing this symbol should look, and why. \
Each bullet names a concrete symbol or `file:line` from the provided context and \
states the risk in one clause: an invariant that must hold, a caller that would \
break, shared state, an error path, or an external contract. No generic advice \
(\"add tests\", \"be careful\") — if you have nothing concrete, emit fewer bullets.

Example:
• `validate_record` assumes the payload is already decoded — changing the argument type breaks both caller paths.
• `sha256_digest` output is persisted; altering the algorithm invalidates every stored record.]
</focus>";

/// Heading of the list of symbols in the prompt.
pub const SYMBOL_INVENTORY_HEADING: &'static str = "## Symbol inventory (reference — mention only what carries the flow)\n\n";

/// What an explanation gives.
pub struct ExplainResult {
    pub root_symbol: String,
    pub explanation: String,
    pub total_affected: usize,
    pub max_depth_reached: usize,
    /// The symbols whose sources were sent: symbol, repository, file, line and
    /// source.
    pub symbol_sources: Vec<(String, String, String, u32, Option<String>)>,
    /// Where not empty, the symbols that the input could mean.
    pub ambiguous_candidates: Vec<String>,
    /// Whether the input was a regular expression.
    pub is_regex: bool,
}

/// The places of the nodes of that depth and symbol that the route has not
/// met, in order.
pub open spec fn parents_at(
    nodes: Seq<&CallGraphNode>,
    depth: int,
    symbol: Seq<char>,
    route: Seq<usize>,
) -> Seq<usize>
    decreases nodes.len(),
{
    if nodes.len() == 0 {
        Seq::empty()
    } else {
        let d = parents_at(nodes.drop_last(), depth, symbol, route);
        let n = nodes.last();
        let at = (nodes.len() - 1) as usize;
        if n.depth == depth && n.symbol@ == symbol && !route.contains(at) {
            d.push(at)
        } else {
            d
        }
    }
}

/// The places where the route can go on from its last node.
pub open spec fn next_places(nodes: Seq<&CallGraphNode>, route: Seq<usize>) -> Seq<usize> {
    let last = nodes[route.last() as int];
    match last.via_symbol {
        Some(via) => parents_at(
            nodes,
            if last.depth > 0 {
                last.depth - 1
            } else {
                0
            },
            via@,
            route,
        ),
        None => Seq::empty(),
    }
}

/// All ways to go on from a route to its end. Where a node has several
/// parents the last is followed first.
pub open spec fn routes_on(nodes: Seq<&CallGraphNode>, route: Seq<usize>) -> Seq<Seq<usize>>
    decreases nodes.len() + 1 - route.len(), 1int, 0nat,
{
    let next = next_places(nodes, route);
    if route.len() > nodes.len() || next.len() == 0 {
        seq![route]
    } else {
        routes_over(nodes, route, next, next.len())
    }
}

/// The ways to go on from a route over the first `k` of the places in `next`.
pub open spec fn routes_over(
    nodes: Seq<&CallGraphNode>,
    route: Seq<usize>,
    next: Seq<usize>,
    k: nat,
) -> Seq<Seq<usize>>
    decreases nodes.len() + 1 - route.len(), 0int, k,
{
    if k == 0 || route.len() > nodes.len() {
        Seq::empty()
    } else {
        routes_on(nodes, route.push(next[k - 1])) + routes_over(
            nodes,
            route,
            next,
            (k - 1) as nat,
        )
    }
}

/// The places of the nodes through which no other was reached.
pub open spec fn leaf_places(nodes: Seq<&CallGraphNode>, n: nat) -> Seq<usize>
    decreases n,
{
    if n == 0 {
        Seq::empty()
    } else {
        let d = leaf_places(nodes, (n - 1) as nat);
        if leads_on(nodes, nodes[n - 1].symbol@) {
            d
        } else {
            d.push((n - 1) as usize)
        }
    }
}

/// The routes of the first `k` leaves.
pub open spec fn routes_of_leaves(
    nodes: Seq<&CallGraphNode>,
    leaves: Seq<usize>,
    k: nat,
) -> Seq<Seq<usize>>
    decreases k,
{
    if k == 0 {
        Seq::empty()
    } else {
        routes_of_leaves(nodes, leaves, (k - 1) as nat) + routes_on(nodes, seq![leaves[k - 1]])
    }
}

/// Every route from an outermost caller down to a direct caller, as places.
pub open spec fn all_routes(nodes: Seq<&CallGraphNode>) -> Seq<Seq<usize>> {
    let leaves = leaf_places(nodes, nodes.len());
    routes_of_leaves(nodes, leaves, leaves.len())
}

/// The places are those of nodes.
pub open spec fn valid_route(nodes: Seq<&CallGraphNode>, route: Seq<usize>) -> bool {
    forall|i: int| 0 <= i < route.len() ==> (#[trigger] route[i]) < nodes.len()
}

/// The views of routes.
pub open spec fn route_lists(v: Seq<Vec<usize>>) -> Seq<Seq<usize>> {
    Seq::new(v.len(), |i: int| v[i]@)
}

/// The views of routes, all of them of places of nodes.
pub open spec fn valid_routes(nodes: Seq<&CallGraphNode>, routes: Seq<Vec<usize>>) -> bool {
    forall|i: int| 0 <= i < routes.len() ==> valid_route(nodes, (#[trigger] routes[i])@)
}

fn has_place(route: &[usize], at: usize) -> (r: bool)
    ensures
        r == route@.contains(at),
{
    let mut i: usize = 0;
    while i < route.len()
        invariant
            i <= route@.len(),
            forall|k: int| 0 <= k < i ==> route@[k] != at,
        decreases route@.len() - i,
    {
        if route[i] == at {
            return true;
        }
        i += 1;
    }
    false
}

fn find_next(nodes: &[&CallGraphNode], route: &[usize]) -> (r: Vec<usize>)
    requires
        route@.len() > 0,
        valid_route(nodes@, route@),
    ensures
        r@ == next_places(nodes@, route@),
        valid_route(nodes@, r@),
        forall|i: int| 0 <= i < r@.len() ==> !route@.contains(#[trigger] r@[i]),
{
    let at: usize = route[route.len() - 1];
    assert(route@[route@.len() - 1] < nodes@.len());
    let last = nodes[at];
    let mut r: Vec<usize> = Vec::new();
    if let Some(via) = &last.via_symbol {
        let depth: usize = if last.depth > 0 {
            last.depth - 1
        } else {
            0
        };
        let mut i: usize = 0;
        while i < nodes.len()
            invariant
                i <= nodes@.len(),
                r@ == parents_at(nodes@.take(i as int), depth as int, via@, route@),
                forall|k: int| 0 <= k < r@.len() ==> (#[trigger] r@[k]) < i,
                forall|k: int| 0 <= k < r@.len() ==> !route@.contains(#[trigger] r@[k]),
            decreases nodes@.len() - i,
        {
            proof {
                assert(nodes@.take(i + 1).drop_last() =~= nodes@.take(i as int));
                assert(nodes@.take(i + 1).last() == nodes@[i as int]);
            }
            if nodes[i].depth == depth && same_text(nodes[i].symbol.as_str(), via.as_str())
                && !has_place(route, i) {
                r.push(i);
            }
            i += 1;
        }
        assert(nodes@.take(i as int) =~= nodes@);
    }
    r
}

/// A route that meets no node twice is no longer than there are nodes.
proof fn lemma_route_len(nodes: Seq<&CallGraphNode>, route: Seq<usize>)
    requires
        valid_route(nodes, route),
        route.no_duplicates(),
    ensures
        route.len() <= nodes.len(),
{
    let all = Seq::new(nodes.len(), |i: int| i as usize);
    assert(route.to_set().subset_of(all.to_set())) by {
        assert forall|x: usize| route.to_set().contains(x) implies all.to_set().contains(x) by {
            let k = choose|k: int| 0 <= k < route.len() && route[k] == x;
            assert(route[k] < nodes.len());
            assert(all[x as int] == x);
        }
    }
    route.unique_seq_to_set();
    vstd::seq_lib::seq_to_set_is_finite(all);
    all.lemma_cardinality_of_set();
    vstd::set_lib::lemma_len_subset(route.to_set(), all.to_set());
}

/// Appends all ways to go on from a route.
fn follow(nodes: &[&CallGraphNode], route: Vec<usize>, out: &mut Vec<Vec<usize>>)
    requires
        route@.len() > 0,
        valid_route(nodes@, route@),
        route@.no_duplicates(),
        valid_routes(nodes@, old(out)@),
    ensures
        route_lists(final(out)@) == route_lists(old(out)@) + routes_on(nodes@, route@),
        valid_routes(nodes@, final(out)@),
    decreases nodes@.len() + 1 - route@.len(),
{
    let ghost start = out@;
    proof {
        lemma_route_len(nodes@, route@);
    }
    let next = find_next(nodes, &route);
    if next.len() == 0 {
        let ghost v = route@;
        out.push(route);
        assert(route_lists(out@) =~= route_lists(start) + seq![v]);
        return;
    }
    let mut k: usize = next.len();
    let ghost full = routes_over(nodes@, route@, next@, next@.len());
    assert(route_lists(start) + full == route_lists(out@) + routes_over(
        nodes@,
        route@,
        next@,
        k as nat,
    ));
    while k > 0
        invariant
            k <= next@.len(),
            route@.len() > 0,
            route@.len() <= nodes@.len(),
            valid_route(nodes@, route@),
            route@.no_duplicates(),
            valid_route(nodes@, next@),
            forall|i: int| 0 <= i < next@.len() ==> !route@.contains(#[trigger] next@[i]),
            valid_routes(nodes@, out@),
            route_lists(start) + full == route_lists(out@) + routes_over(
                nodes@,
                route@,
                next@,
                k as nat,
            ),
        decreases k,
    {
        let at: usize = next[k - 1];
        let mut longer: Vec<usize> = vstd::slice::slice_to_vec(&route);
        longer.push(at);
        proof {
            assert(longer@ =~= route@.push(at));
            assert(!route@.contains(next@[k - 1]));
            assert(valid_route(nodes@, longer@)) by {
                assert forall|i: int| 0 <= i < longer@.len() implies (#[trigger] longer@[i])
                    < nodes@.len() by {
                    if i < route@.len() {
                        assert(longer@[i] == route@[i]);
                    } else {
                        assert(longer@[i] == next@[k - 1]);
                    }
                }
            }
            assert(longer@.no_duplicates());
        }
        let ghost before = out@;
        let ghost on = routes_on(nodes@, longer@);
        let ghost rest = routes_over(nodes@, route@, next@, (k - 1) as nat);
        follow(nodes, longer, out);
        assert(route_lists(before) + (on + rest) =~= (route_lists(before) + on) + rest);
        k -= 1;
    }
    assert(route_lists(out@) + Seq::<Seq<usize>>::empty() =~= route_lists(out@));
}

/// Every route from an outermost caller down to a direct caller, as places in
/// the nodes.
fn find_routes(nodes: &[&CallGraphNode]) -> (r: Vec<Vec<usize>>)
    ensures
        route_lists(r@) == all_routes(nodes@),
        valid_routes(nodes@, r@),
{
    let mut leaves: Vec<usize> = Vec::new();
    let mut i: usize = 0;
    while i < nodes.len()
        invariant
            i <= nodes@.len(),
            leaves@ == leaf_places(nodes@, i as nat),
            forall|k: int| 0 <= k < leaves@.len() ==> (#[trigger] leaves@[k]) < i,
        decreases nodes@.len() - i,
    {
        let mut on = false;
        let mut k: usize = 0;
        while k < nodes.len()
            invariant
                k <= nodes@.len(),
                i < nodes@.len(),
                on == exists|m: int|
                    0 <= m < k && opt_text((#[trigger] nodes@[m]).via_symbol) == Some(
                        nodes@[i as int].symbol@,
                    ),
            decreases nodes@.len() - k,
        {
            if let Some(via) = &nodes[k].via_symbol {
                if same_text(via.as_str(), nodes[i].symbol.as_str()) {
                    assert(opt_text(nodes@[k as int].via_symbol) == Some(
                        nodes@[i as int].symbol@,
                    ));
                    on = true;
                }
            }
            k += 1;
        }
        assert(on == leads_on(nodes@, nodes@[i as int].symbol@));
        if !on {
            leaves.push(i);
        }
        i += 1;
    }
    let mut out: Vec<Vec<usize>> = Vec::new();
    let mut k: usize = 0;
    assert(route_lists(out@) =~= routes_of_leaves(nodes@, leaves@, 0));
    while k < leaves.len()
        invariant
            k <= leaves@.len(),
            forall|m: int| 0 <= m < leaves@.len() ==> (#[trigger] leaves@[m]) < nodes@.len(),
            valid_routes(nodes@, out@),
            route_lists(out@) == routes_of_leaves(nodes@, leaves@, k as nat),
        decreases leaves@.len() - k,
    {
        let mut route: Vec<usize> = Vec::new();
        route.push(leaves[k]);
        assert(route@ =~= seq![leaves@[k as int]]);
        follow(nodes, route, &mut out);
        k += 1;
    }
    out
}

/// The nodes at the places of a route.
pub open spec fn nodes_on<'a>(nodes: Seq<&'a CallGraphNode>, route: Seq<usize>) -> Seq<
    &'a CallGraphNode,
> {
    Seq::new(route.len(), |i: int| nodes[route[i] as int])
}

/// Every route from an outermost caller down to a direct caller of the symbol.
pub open spec fn caller_routes<'a>(by_depth: Seq<Vec<CallGraphNode>>) -> Seq<
    Seq<&'a CallGraphNode>,
> {
    let nodes = flat(by_depth);
    let routes = all_routes(nodes);
    Seq::new(routes.len(), |i: int| nodes_on(nodes, routes[i]))
}

/// Finds every route from an outermost caller down to a direct caller.
pub fn reconstruct_caller_paths<'a>(callers_by_depth: &'a [Vec<CallGraphNode>]) -> (r: Vec<
    Vec<&'a CallGraphNode>,
>)
    ensures
        path_lists(r@) == caller_routes(callers_by_depth@),
{
    let nodes = flatten(callers_by_depth);
    let routes = find_routes(&nodes);
    let ghost all = all_routes(nodes@);
    let mut r: Vec<Vec<&'a CallGraphNode>> = Vec::new();
    let mut i: usize = 0;
    assert(route_lists(routes@).len() == routes@.len());
    while i < routes.len()
        invariant
            i <= routes@.len(),
            route_lists(routes@) == all,
            valid_routes(nodes@, routes@),
            r@.len() == i,
            forall|k: int| 0 <= k < i ==> #[trigger] path_lists(r@)[k] == nodes_on(nodes@, all[k]),
        decreases routes@.len() - i,
    {
        let ghost before = r@;
        let route = &routes[i];
        let mut path: Vec<&'a CallGraphNode> = Vec::new();
        let mut k: usize = 0;
        assert(valid_route(nodes@, routes@[i as int]@));
        while k < route.len()
            invariant
                k <= route@.len(),
                valid_route(nodes@, route@),
                path@.len() == k,
                forall|m: int| 0 <= m < k ==> path@[m] == nodes_on(nodes@, route@)[m],
            decreases route@.len() - k,
        {
            let at: usize = route[k];
            assert(route@[k as int] < nodes@.len());
            path.push(nodes[at]);
            k += 1;
        }
        proof {
            assert(path@ =~= nodes_on(nodes@, route@));
            assert(route_lists(routes@)[i as int] == route@);
        }
        r.push(path);
        proof {
            assert forall|k: int| 0 <= k < i + 1 implies #[trigger] path_lists(r@)[k] == nodes_on(
                nodes@,
                all[k],
            ) by {
                if k < i {
                    assert(path_lists(before)[k] == nodes_on(nodes@, all[k]));
                }
            }
        }
        i += 1;
    }
    assert(path_lists(r@) =~= caller_routes(callers_by_depth@));
    r
}

/// A symbol whose source is to be fetched.
#[derive(Debug)]
pub struct FetchNode {
    pub symbol: String,
    pub file_path: String,
    pub line: u32,
    pub repository_id: String,
    /// Whether the source is that of the symbol's definition, rather than that
    /// round the line.
    pub is_callee: bool,
}

/// What a node to fetch says.
pub struct FetchView {
    pub symbol: Seq<char>,
    pub file_path: Seq<char>,
    pub line: u32,
    pub repository_id: Seq<char>,
    pub is_callee: bool,
}

impl View for FetchNode {
    type V = FetchView;

    open spec fn view(&self) -> FetchView {
        FetchView {
            symbol: self.symbol@,
            file_path: self.file_path@,
            line: self.line,
            repository_id: self.repository_id@,
            is_callee: self.is_callee,
        }
    }
}

/// What nodes to fetch say.
pub open spec fn fetch_views(s: Seq<FetchNode>) -> Seq<FetchView> {
    Seq::new(s.len(), |i: int| s[i]@)
}

/// The symbol of the file is among those to fetch.
pub open spec fn is_listed(s: Seq<FetchView>, symbol: Seq<char>, file: Seq<char>) -> bool {
    exists|i: int| 0 <= i < s.len() && (#[trigger] s[i]).symbol == symbol && s[i].file_path == file
}

/// The list with the node behind it, unless its symbol and file are there.
pub open spec fn listed_one(
    list: Seq<FetchView>,
    node: CallGraphNode,
    is_callee: bool,
) -> Seq<FetchView> {
    if is_listed(list, node.symbol@, node.file_path@) {
        list
    } else {
        list.push(
            FetchView {
                symbol: node.symbol@,
                file_path: node.file_path@,
                line: node.line,
                repository_id: node.repository_id@,
                is_callee,
            },
        )
    }
}

/// The list with nodes behind it, each symbol of a file once.
pub open spec fn listed_all(
    list: Seq<FetchView>,
    nodes: Seq<&CallGraphNode>,
    is_callee: bool,
) -> Seq<FetchView>
    decreases nodes.len(),
{
    if nodes.len() == 0 {
        list
    } else {
        listed_one(listed_all(list, nodes.drop_last(), is_callee), *nodes.last(), is_callee)
    }
}

/// The list of the nodes on paths, each symbol of a file once.
pub open spec fn listed_paths(paths: Seq<Seq<&CallGraphNode>>) -> Seq<FetchView>
    decreases paths.len(),
{
    if paths.len() == 0 {
        Seq::empty()
    } else {
        listed_all(listed_paths(paths.drop_last()), paths.last(), false)
    }
}

/// The symbols whose sources are to be fetched: those on the paths of callers,
/// then the callees.
pub open spec fn to_fetch(
    paths: Seq<Seq<&CallGraphNode>>,
    callees: Seq<&CallGraphNode>,
) -> Seq<FetchView> {
    listed_all(listed_paths(paths), callees, true)
}

fn list_one(list: &mut Vec<FetchNode>, node: &CallGraphNode, is_callee: bool)
    ensures
        fetch_views(final(list)@) == listed_one(fetch_views(old(list)@), *node, is_callee),
{
    let ghost before = list@;
    let ghost vs = fetch_views(before);
    let mut i: usize = 0;
    while i < list.len()
        invariant
            i <= list@.len(),
            list@ == before,
            vs == fetch_views(before),
            forall|k: int|
                0 <= k < i ==> !((#[trigger] vs[k]).symbol == node.symbol@ && vs[k].file_path
                    == node.file_path@),
        decreases list@.len() - i,
    {
        assert(vs[i as int] == list@[i as int]@);
        if same_text(list[i].symbol.as_str(), node.symbol.as_str()) && same_text(
            list[i].file_path.as_str(),
            node.file_path.as_str(),
        ) {
            assert(is_listed(vs, node.symbol@, node.file_path@));
            return;
        }
        i += 1;
    }
    let one = FetchNode {
        symbol: node.symbol.clone(),
        file_path: node.file_path.clone(),
        line: node.line,
        repository_id: node.repository_id.clone(),
        is_callee,
    };
    let ghost v = one@;
    list.push(one);
    assert(fetch_views(list@) =~= fetch_views(before).push(v));
}

fn list_all(list: &mut Vec<FetchNode>, nodes: &[&CallGraphNode], is_callee: bool)
    ensures
        fetch_views(final(list)@) == listed_all(fetch_views(old(list)@), nodes@, is_callee),
{
    let ghost start = fetch_views(list@);
    let mut i: usize = 0;
    while i < nodes.len()
        invariant
            i <= nodes@.len(),
            fetch_views(list@) == listed_all(start, nodes@.take(i as int), is_callee),
        decreases nodes@.len() - i,
    {
        proof {
            assert(nodes@.take(i + 1).drop_last() =~= nodes@.take(i as int));
            assert(nodes@.take(i + 1).last() == nodes@[i as int]);
        }
        list_one(list, nodes[i], is_callee);
        i += 1;
    }
    assert(nodes@.take(i as int) =~= nodes@);
}

/// Lists the symbols whose sources are to be fetched.
pub fn nodes_to_fetch(paths: &[Vec<&CallGraphNode>], callees: &[&CallGraphNode]) -> (r: Vec<
    FetchNode,
>)
    ensures
        fetch_views(r@) == to_fetch(path_lists(paths@), callees@),
{
    let ghost all = path_lists(paths@);
    let mut list: Vec<FetchNode> = Vec::new();
    let mut i: usize = 0;
    assert(fetch_views(list@) =~= listed_paths(all.take(0)));
    while i < paths.len()
        invariant
            i <= paths@.len(),
            all == path_lists(paths@),
            fetch_views(list@) == listed_paths(all.take(i as int)),
        decreases paths@.len() - i,
    {
        proof {
            assert(all.take(i + 1).drop_last() =~= all.take(i as int));
            assert(all.take(i + 1).last() == paths@[i as int]@);
        }
        list_all(&mut list, &paths[i], false);
        i += 1;
    }
    assert(all.take(i as int) =~= all);
    list_all(&mut list, callees, true);
    list
}

/// A fetched source: symbol, repository, file, line and text.
pub type Source = (String, String, String, u32, Option<String>);

/// What a source says of where it is from.
pub open spec fn is_source_of(s: Source, n: FetchView, text: Option<Seq<char>>) -> bool {
    s.0@ == n.symbol && s.1@ == n.repository_id && s.2@ == n.file_path && s.3 == n.line && opt_text(
        s.4,
    ) == text
}

/// The sources of the nodes that were to be fetched, with the texts that were
/// found for them.
pub fn with_sources(nodes: Vec<FetchNode>, found: Vec<Option<String>>) -> (r: Vec<Source>)
    requires
        nodes@.len() == found@.len(),
    ensures
        r@.len() == nodes@.len(),
        forall|i: int|
            0 <= i < r@.len() ==> is_source_of(
                #[trigger] r@[i],
                nodes@[i]@,
                opt_text(found@[i]),
            ),
{
    let mut r: Vec<Source> = Vec::new();
    let mut i: usize = 0;
    while i < nodes.len()
        invariant
            i <= nodes@.len(),
            nodes@.len() == found@.len(),
            r@.len() == i,
            forall|k: int|
                0 <= k < i ==> is_source_of(#[trigger] r@[k], nodes@[k]@, opt_text(found@[k])),
        decreases nodes@.len() - i,
    {
        let n = &nodes[i];
        r.push(
            (
                n.symbol.clone(),
                n.repository_id.clone(),
                n.file_path.clone(),
                n.line,
                copy_opt(&found[i]),
            ),
        );
        i += 1;
    }
    r
}

/// The text of the source of a symbol of a file, where it was found.
pub open spec fn source_text(
    sources: Seq<Source>,
    symbol: Seq<char>,
    file: Seq<char>,
) -> Option<Seq<char>>
    decreases sources.len(),
{
    if sources.len() == 0 {
        None
    } else {
        let s = sources.last();
        if s.0@ == symbol && s.2@ == file {
            opt_text(s.4)
        } else {
            source_text(sources.drop_last(), symbol, file)
        }
    }
}

/// A source, as it is put to the model.
pub open spec fn source_block(src: Option<Seq<char>>) -> Seq<char> {
    match src {
        Some(s) => "```\n"@ + s + "\n```"@,
        None => "_(source not available)_"@,
    }
}

/// A node with its source, as it is put to the model.
pub open spec fn node_block(sources: Seq<Source>, n: CallGraphNode) -> Seq<char> {
    "#### `"@ + n.symbol@ + "` — `"@ + n.file_path@ + ":"@ + decimal(n.line as nat) + "`\n"@
        + source_block(source_text(sources, n.symbol@, n.file_path@)) + "\n\n"@
}

/// Nodes with their sources, one after the other.
pub open spec fn node_blocks(sources: Seq<Source>, nodes: Seq<&CallGraphNode>) -> Seq<char>
    decreases nodes.len(),
{
    if nodes.len() == 0 {
        Seq::empty()
    } else {
        node_blocks(sources, nodes.drop_last()) + node_block(sources, *nodes.last())
    }
}

/// The symbols of nodes.
pub open spec fn symbols_of(nodes: Seq<&CallGraphNode>) -> Seq<Seq<char>> {
    Seq::new(nodes.len(), |i: int| nodes[i].symbol@)
}

/// One path of callers down to the root, as it is put to the model.
pub open spec fn path_block(
    sources: Seq<Source>,
    root: Seq<char>,
    path: Seq<&CallGraphNode>,
    number: nat,
) -> Seq<char> {
    "### Path "@ + decimal(number) + " — `"@ + join(symbols_of(path).push(root), " → "@) + "`\n\n"@
        + node_blocks(sources, path)
}

/// The paths of callers, numbered from one.
pub open spec fn path_blocks(
    sources: Seq<Source>,
    root: Seq<char>,
    paths: Seq<Seq<&CallGraphNode>>,
) -> Seq<char>
    decreases paths.len(),
{
    if paths.len() == 0 {
        Seq::empty()
    } else {
        path_blocks(sources, root, paths.drop_last()) + path_block(
            sources,
            root,
            paths.last(),
            paths.len(),
        )
    }
}

/// The symbols on paths, one path after the other.
pub open spec fn path_symbols(paths: Seq<Seq<&CallGraphNode>>) -> Seq<Seq<char>>
    decreases paths.len(),
{
    if paths.len() == 0 {
        Seq::empty()
    } else {
        path_symbols(paths.drop_last()) + symbols_of(paths.last())
    }
}

/// The list of symbols, one to a line.
pub open spec fn inventory_lines(symbols: Seq<Seq<char>>) -> Seq<char>
    decreases symbols.len(),
{
    if symbols.len() == 0 {
        Seq::empty()
    } else {
        inventory_lines(symbols.drop_last()) + "- `"@ + symbols.last() + "`\n"@
    }
}

/// The section on callees, where there are any.
pub open spec fn callee_section(
    sources: Seq<Source>,
    root: Seq<char>,
    callees: Seq<&CallGraphNode>,
) -> Seq<char> {
    if callees.len() == 0 {
        Seq::empty()
    } else {
        "## Callees of `"@ + root + "` ("@ + decimal(callees.len()) + " total)\n\n"@ + node_blocks(
            sources,
            callees,
        )
    }
}

/// The root with its source, where it was found: file and text.
pub open spec fn root_section(
    root: Seq<char>,
    source: Option<(Seq<char>, Seq<char>)>,
) -> Seq<char> {
    "# Call-flow explanation request: `"@ + root + "`\n\n## Root symbol — `"@ + root + "`\n"@
        + match source {
        Some((file, text)) => "Source from `"@ + file + "`:\n```\n"@ + text + "\n```\n\n"@,
        None => "_(source not available)_\n\n"@,
    }
}

/// The symbols that the prompt lists: the root, then those on paths and the
/// callees, each once; where no path leads to the root, the root and every
/// callee.
pub open spec fn inventory(
    root: Seq<char>,
    paths: Seq<Seq<&CallGraphNode>>,
    callees: Seq<&CallGraphNode>,
) -> Seq<Seq<char>> {
    let all = seq![root] + path_symbols(paths) + symbols_of(callees);
    if paths.len() > 0 {
        distinct_texts(all)
    } else {
        all
    }
}

/// The texts without repeats, each where it first stands.
pub open spec fn distinct_texts(s: Seq<Seq<char>>) -> Seq<Seq<char>> {
    crate::order::distinct(s)
}

/// The section on the paths of callers, where there are any.
pub open spec fn caller_section(
    sources: Seq<Source>,
    root: Seq<char>,
    paths: Seq<Seq<&CallGraphNode>>,
) -> Seq<char> {
    if paths.len() == 0 {
        Seq::empty()
    } else {
        "## Caller paths ("@ + decimal(paths.len()) + " total)\n\n"@ + path_blocks(
            sources,
            root,
            paths,
        )
    }
}

/// The section that lists the symbols, where there are any besides the root.
pub open spec fn inventory_section(
    root: Seq<char>,
    paths: Seq<Seq<&CallGraphNode>>,
    callees: Seq<&CallGraphNode>,
) -> Seq<char> {
    if paths.len() == 0 && callees.len() == 0 {
        Seq::empty()
    } else {
        SYMBOL_INVENTORY_HEADING@ + inventory_lines(inventory(root, paths, callees)) + "\n"@
    }
}

/// The prompt that asks for an explanation.
pub open spec fn prompt_text(
    root: Seq<char>,
    root_source: Option<(Seq<char>, Seq<char>)>,
    paths: Seq<Seq<&CallGraphNode>>,
    callees: Seq<&CallGraphNode>,
    sources: Seq<Source>,
) -> Seq<char> {
    root_section(root, root_source) + caller_section(sources, root, paths) + callee_section(
        sources,
        root,
        callees,
    ) + inventory_section(root, paths, callees)
}

fn find_source<'a>(sources: &'a [Source], symbol: &str, file: &str) -> (r: Option<&'a str>)
    ensures
        opt_str(r) == source_text(sources@, symbol@, file@),
{
    let mut n: usize = sources.len();
    assert(sources@.take(n as int) =~= sources@);
    while n > 0
        invariant
            n <= sources@.len(),
            source_text(sources@, symbol@, file@) == source_text(
                sources@.take(n as int),
                symbol@,
                file@,
            ),
        decreases n,
    {
        proof {
            assert(sources@.take(n as int).last() == sources@[n - 1]);
            assert(sources@.take(n as int).drop_last() =~= sources@.take(n - 1));
        }
        let s = &sources[n - 1];
        if same_text(s.0.as_str(), symbol) && same_text(s.2.as_str(), file) {
            return match &s.4 {
                Some(t) => Some(t.as_str()),
                None => None,
            };
        }
        n -= 1;
    }
    None
}

fn push_node(out: &mut String, sources: &[Source], n: &CallGraphNode)
    ensures
        final(out)@ == old(out)@ + node_block(sources@, *n),
{
    let ghost before = out@;
    let mut b = "#### `".to_string();
    b.append(n.symbol.as_str());
    b.append("` — `");
    b.append(n.file_path.as_str());
    b.append(":");
    b.append(decimal_text(n.line as u64).as_str());
    b.append("`\n");
    let mut block = "".to_string();
    match find_source(sources, n.symbol.as_str(), n.file_path.as_str()) {
        Some(src) => {
            block = "```\n".to_string();
            block.append(src);
            block.append("\n```");
        },
        None => {
            block = "_(source not available)_".to_string();
        },
    }
    assert(block@ == source_block(source_text(sources@, n.symbol@, n.file_path@)));
    b.append(block.as_str());
    b.append("\n\n");
    out.append(b.as_str());
}

fn push_nodes(out: &mut String, sources: &[Source], nodes: &[&CallGraphNode])
    ensures
        final(out)@ == old(out)@ + node_blocks(sources@, nodes@),
{
    let ghost before = out@;
    let mut i: usize = 0;
    assert(before + node_blocks(sources@, nodes@.take(0)) =~= before);
    while i < nodes.len()
        invariant
            i <= nodes@.len(),
            out@ == before + node_blocks(sources@, nodes@.take(i as int)),
        decreases nodes@.len() - i,
    {
        let ghost d = node_blocks(sources@, nodes@.take(i as int));
        proof {
            assert(nodes@.take(i + 1).drop_last() =~= nodes@.take(i as int));
            assert(nodes@.take(i + 1).last() == nodes@[i as int]);
            assert((before + d) + node_block(sources@, *nodes@[i as int]) =~= before + (d
                + node_block(sources@, *nodes@[i as int])));
        }
        push_node(out, sources, nodes[i]);
        i += 1;
    }
    assert(nodes@.take(i as int) =~= nodes@);
}

fn copy_symbols(nodes: &[&CallGraphNode]) -> (r: Vec<String>)
    ensures
        texts(r@) == symbols_of(nodes@),
{
    let mut r: Vec<String> = Vec::new();
    let mut i: usize = 0;
    while i < nodes.len()
        invariant
            i <= nodes@.len(),
            r@.len() == i,
            forall|k: int| 0 <= k < i ==> #[trigger] r@[k]@ == nodes@[k].symbol@,
        decreases nodes@.len() - i,
    {
        r.push(nodes[i].symbol.clone());
        i += 1;
    }
    assert(texts(r@) =~= symbols_of(nodes@));
    r
}

fn push_paths(out: &mut String, sources: &[Source], root: &str, paths: &[Vec<&CallGraphNode>])
    ensures
        final(out)@ == old(out)@ + path_blocks(sources@, root@, path_lists(paths@)),
{
    let ghost before = out@;
    let ghost all = path_lists(paths@);
    let mut i: usize = 0;
    assert(before + path_blocks(sources@, root@, all.take(0)) =~= before);
    while i < paths.len()
        invariant
            i <= paths@.len(),
            all == path_lists(paths@),
            out@ == before + path_blocks(sources@, root@, all.take(i as int)),
        decreases paths@.len() - i,
    {
        let path = &paths[i];
        let ghost d = path_blocks(sources@, root@, all.take(i as int));
        proof {
            assert(all.take(i + 1).drop_last() =~= all.take(i as int));
            assert(all.take(i + 1).last() == path@);
            assert(all.take(i + 1).len() == i + 1);
        }
        let mut names = copy_symbols(path);
        let ghost ns = names@;
        names.push(root.to_string());
        assert(texts(names@) =~= texts(ns).push(root@));
        let mut b = "### Path ".to_string();
        b.append(decimal_text(i as u64 + 1).as_str());
        b.append(" — `");
        b.append(join_texts(&names, " → ").as_str());
        b.append("`\n\n");
        push_nodes(&mut b, sources, path);
        let ghost pb = b@;
        out.append(b.as_str());
        proof {
            assert(pb == path_block(sources@, root@, path@, (i + 1) as nat));
            assert((before + d) + pb =~= before + (d + pb));
        }
        i += 1;
    }
    assert(all.take(i as int) =~= all);
}

fn push_symbols(list: &mut Vec<String>, nodes: &[&CallGraphNode])
    ensures
        texts(final(list)@) == texts(old(list)@) + symbols_of(nodes@),
{
    let mut more = copy_symbols(nodes);
    let ghost a = list@;
    let ghost b = more@;
    list.append(&mut more);
    assert(texts(list@) =~= texts(a) + texts(b));
}

fn without_repeats(list: &[String]) -> (r: Vec<String>)
    ensures
        texts(r@) == distinct_texts(texts(list@)),
{
    let ghost all = texts(list@);
    let mut r: Vec<String> = Vec::new();
    let mut i: usize = 0;
    assert(texts(r@) =~= distinct_texts(all.take(0)));
    while i < list.len()
        invariant
            i <= list@.len(),
            all == texts(list@),
            texts(r@) == distinct_texts(all.take(i as int)),
        decreases list@.len() - i,
    {
        let ghost before = r@;
        proof {
            assert(all.take(i + 1).drop_last() =~= all.take(i as int));
            assert(all.take(i + 1).last() == list@[i as int]@);
        }
        if !has_text(&r, list[i].as_str()) {
            r.push(list[i].clone());
            assert(texts(r@) =~= texts(before).push(list@[i as int]@));
        }
        i += 1;
    }
    assert(all.take(i as int) =~= all);
    r
}

fn list_symbols(root: &str, paths: &[Vec<&CallGraphNode>], callees: &[&CallGraphNode]) -> (r: Vec<
    String,
>)
    ensures
        texts(r@) == inventory(root@, path_lists(paths@), callees@),
{
    let ghost all = path_lists(paths@);
    let mut list: Vec<String> = Vec::new();
    list.push(root.to_string());
    let mut i: usize = 0;
    assert(texts(list@) =~= seq![root@] + path_symbols(all.take(0)));
    while i < paths.len()
        invariant
            i <= paths@.len(),
            all == path_lists(paths@),
            texts(list@) == seq![root@] + path_symbols(all.take(i as int)),
        decreases paths@.len() - i,
    {
        proof {
            assert(all.take(i + 1).drop_last() =~= all.take(i as int));
            assert(all.take(i + 1).last() == paths@[i as int]@);
            assert((seq![root@] + path_symbols(all.take(i as int))) + symbols_of(
                paths@[i as int]@,
            ) =~= seq![root@] + (path_symbols(all.take(i as int)) + symbols_of(
                paths@[i as int]@,
            )));
        }
        push_symbols(&mut list, &paths[i]);
        i += 1;
    }
    assert(all.take(i as int) =~= all);
    push_symbols(&mut list, callees);
    if paths.len() > 0 {
        without_repeats(&list)
    } else {
        list
    }
}

fn push_inventory(out: &mut String, symbols: &[String])
    ensures
        final(out)@ == old(out)@ + inventory_lines(texts(symbols@)),
{
    let ghost before = out@;
    let ghost all = texts(symbols@);
    let mut i: usize = 0;
    assert(before + inventory_lines(all.take(0)) =~= before);
    while i < symbols.len()
        invariant
            i <= symbols@.len(),
            all == texts(symbols@),
            out@ == before + inventory_lines(all.take(i as int)),
        decreases symbols@.len() - i,
    {
        let ghost d = inventory_lines(all.take(i as int));
        proof {
            assert(all.take(i + 1).drop_last() =~= all.take(i as int));
            assert(all.take(i + 1).last() == symbols@[i as int]@);
        }
        out.append("- `");
        out.append(symbols[i].as_str());
        out.append("`\n");
        assert(out@ =~= before + (d + "- `"@ + symbols@[i as int]@ + "`\n"@));
        i += 1;
    }
    assert(all.take(i as int) =~= all);
}

/// The root source as texts: file and text.
pub open spec fn root_source_texts(s: Option<(String, String)>) -> Option<(Seq<char>, Seq<char>)> {
    match s {
        Some(p) => Some((p.0@, p.1@)),
        None => None,
    }
}

fn root_part(root: &str, root_source: &Option<(String, String)>) -> (r: String)
    ensures
        r@ == root_section(root@, root_source_texts(*root_source)),
{
    let mut r = "# Call-flow explanation request: `".to_string();
    r.append(root);
    r.append("`\n\n## Root symbol — `");
    r.append(root);
    r.append("`\n");
    let ghost head = r@;
    match root_source {
        Some(p) => {
            r.append("Source from `");
            r.append(p.0.as_str());
            r.append("`:\n```\n");
            r.append(p.1.as_str());
            r.append("\n```\n\n");
            assert(r@ =~= head + ("Source from `"@ + p.0@ + "`:\n```\n"@ + p.1@ + "\n```\n\n"@));
        },
        None => {
            r.append("_(source not available)_\n\n");
        },
    }
    r
}

fn caller_part(sources: &[Source], root: &str, paths: &[Vec<&CallGraphNode>]) -> (r: String)
    ensures
        r@ == caller_section(sources@, root@, path_lists(paths@)),
{
    assert(path_lists(paths@).len() == paths@.len());
    if paths.len() == 0 {
        return String::new();
    }
    let mut r = "## Caller paths (".to_string();
    r.append(decimal_text(paths.len() as u64).as_str());
    r.append(" total)\n\n");
    push_paths(&mut r, sources, root, paths);
    r
}

fn callee_part(sources: &[Source], root: &str, callees: &[&CallGraphNode]) -> (r: String)
    ensures
        r@ == callee_section(sources@, root@, callees@),
{
    if callees.len() == 0 {
        return String::new();
    }
    let mut r = "## Callees of `".to_string();
    r.append(root);
    r.append("` (");
    r.append(decimal_text(callees.len() as u64).as_str());
    r.append(" total)\n\n");
    push_nodes(&mut r, sources, callees);
    r
}

fn inventory_part(root: &str, paths: &[Vec<&CallGraphNode>], callees: &[&CallGraphNode]) -> (r:
    String)
    ensures
        r@ == inventory_section(root@, path_lists(paths@), callees@),
{
    assert(path_lists(paths@).len() == paths@.len());
    if paths.len() == 0 && callees.len() == 0 {
        return String::new();
    }
    let symbols = list_symbols(root, paths, callees);
    let mut r = SYMBOL_INVENTORY_HEADING.to_string();
    push_inventory(&mut r, &symbols);
    r.append("\n");
    r
}

/// The prompt that asks for an explanation of a symbol, given the source of
/// its definition and the sources that were fetched.
pub fn build_prompt(
    ctx: &SymbolContext,
    root_source: &Option<(String, String)>,
    sources: &[Source],
) -> (r: String)
    ensures
        r@ == prompt_text(
            ctx.symbol@,
            root_source_texts(*root_source),
            caller_routes(ctx.callers_by_depth@),
            flat(ctx.callees_by_depth@),
            sources@,
        ),
{
    let root = ctx.symbol.as_str();
    let paths = reconstruct_caller_paths(&ctx.callers_by_depth);
    let callees = flatten(&ctx.callees_by_depth);
    let mut out = root_part(root, root_source);
    out.append(caller_part(sources, root, &paths).as_str());
    out.append(callee_part(sources, root, &callees).as_str());
    out.append(inventory_part(root, &paths, &callees).as_str());
    out
}

/// The context of a symbol leads to an explanation, or ends the matter.
pub enum ExplainStart {
    /// The input could mean several symbols, or means one that stands alone.
    Answer(ExplainResult),
    /// Fetch sources and ask the model.
    Ask(SymbolContext),
}

/// What is said of a symbol that stands alone.
pub open spec fn isolated_text(symbol: Seq<char>) -> Seq<char> {
    "No callers or callees found for '"@ + symbol
        + "'. The symbol may be isolated or has not been indexed yet."@
}

/// Decides whether the model is asked about a symbol: not where the input
/// could mean several, and not where the symbol stands alone.
pub fn begin_explain(symbol: &str, ctx: SymbolContext, is_regex: bool) -> (r: ExplainStart)
    ensures
        ctx.root_symbols@.len() > 1 ==> (r matches ExplainStart::Answer(a) && {
            &&& a.root_symbol@ == symbol@
            &&& a.explanation@.len() == 0
            &&& a.total_affected == 0 && a.max_depth_reached == 0
            &&& a.symbol_sources@.len() == 0
            &&& a.ambiguous_candidates == ctx.root_symbols
            &&& a.is_regex == is_regex
        }),
        ctx.root_symbols@.len() <= 1 && ctx.total_callers == 0 && ctx.total_callees == 0 ==> (
        r matches ExplainStart::Answer(a) && {
            &&& a.root_symbol@ == symbol@
            &&& a.explanation@ == isolated_text(symbol@)
            &&& a.total_affected == 0 && a.max_depth_reached == 0
            &&& a.symbol_sources@.len() == 0
            &&& a.ambiguous_candidates@.len() == 0
            &&& a.is_regex == is_regex
        }),
        ctx.root_symbols@.len() <= 1 && (ctx.total_callers > 0 || ctx.total_callees > 0) ==> r == (
        ExplainStart::Ask(ctx)),
{
    if ctx.root_symbols.len() > 1 {
        return ExplainStart::Answer(
            ExplainResult {
                root_symbol: symbol.to_string(),
                explanation: String::new(),
                total_affected: 0,
                max_depth_reached: 0,
                symbol_sources: Vec::new(),
                ambiguous_candidates: ctx.root_symbols,
                is_regex,
            },
        );
    }
    if ctx.total_callers == 0 && ctx.total_callees == 0 {
        let mut text = "No callers or callees found for '".to_string();
        text.append(symbol);
        text.append("'. The symbol may be isolated or has not been indexed yet.");
        return ExplainStart::Answer(
            ExplainResult {
                root_symbol: symbol.to_string(),
                explanation: text,
                total_affected: 0,
                max_depth_reached: 0,
                symbol_sources: Vec::new(),
                ambiguous_candidates: Vec::new(),
                is_regex,
            },
        );
    }
    ExplainStart::Ask(ctx)
}

/// The repository that the root is looked up in: that of the first direct
/// caller, or none in particular.
pub fn root_repository(ctx: &SymbolContext) -> (r: &str)
    ensures
        r@ == if ctx.callers_by_depth@.len() > 0 && ctx.callers_by_depth@[0]@.len() > 0 {
            ctx.callers_by_depth@[0]@[0].repository_id@
        } else {
            ""@
        },
{
    if ctx.callers_by_depth.len() > 0 && ctx.callers_by_depth[0].len() > 0 {
        ctx.callers_by_depth[0][0].repository_id.as_str()
    } else {
        ""
    }
}

/// Makes the result of the model's answer. A failed call is an error.
pub fn finish_explain(
    ctx: SymbolContext,
    answer: Result<String, String>,
    symbol_sources: Vec<Source>,
    is_regex: bool,
) -> (r: Result<ExplainResult, DomainError>)
    requires
        ctx.total_callers + ctx.total_callees <= usize::MAX,
    ensures
        r is Ok == answer is Ok,
        r matches Ok(e) ==> {
            &&& e.root_symbol == ctx.symbol
            &&& e.explanation@ == answer_markdown(answer->Ok_0@)
            &&& e.total_affected == ctx.total_callers + ctx.total_callees
            &&& e.max_depth_reached == if ctx.max_caller_depth >= ctx.max_callee_depth {
                ctx.max_caller_depth
            } else {
                ctx.max_callee_depth
            }
            &&& e.symbol_sources == symbol_sources
            &&& e.ambiguous_candidates@.len() == 0
            &&& e.is_regex == is_regex
        },
        r matches Err(e) ==> e is Internal && e->Internal_0@ == "LLM call failed during explain: "@
            + answer->Err_0@,
{
    match answer {
        Ok(text) => {
            let deeper: usize = if ctx.max_caller_depth >= ctx.max_callee_depth {
                ctx.max_caller_depth
            } else {
                ctx.max_callee_depth
            };
            Ok(
                ExplainResult {
                    root_symbol: ctx.symbol,
                    explanation: xml_to_markdown(text.as_str()),
                    total_affected: ctx.total_callers + ctx.total_callees,
                    max_depth_reached: deeper,
                    symbol_sources,
                    ambiguous_candidates: Vec::new(),
                    is_regex,
                },
            )
        },
        Err(why) => {
            let mut message = "LLM call failed during explain: ".to_string();
            message.append(why.as_str());
            Err(DomainError::Internal(message))
        },
    }
}

/// Each node of the route was reached through the next, one hop nearer to the
/// symbol, and none stands twice on it.
pub open spec fn is_linked(nodes: Seq<&CallGraphNode>, route: Seq<usize>) -> bool {
    &&& valid_route(nodes, route)
    &&& route.no_duplicates()
    &&& forall|i: int, j: int|
        0 <= i && j == i + 1 && j < route.len() ==> {
            let a = nodes[(#[trigger] route[i]) as int];
            let b = nodes[(#[trigger] route[j]) as int];
            opt_text(a.via_symbol) == Some(b.symbol@) && b.depth == if a.depth > 0 {
                a.depth - 1
            } else {
                0
            }
        }
}

proof fn lemma_parents_at(
    nodes: Seq<&CallGraphNode>,
    depth: int,
    symbol: Seq<char>,
    route: Seq<usize>,
)
    requires
        nodes.len() <= usize::MAX,
    ensures
        forall|i: int|
            0 <= i < parents_at(nodes, depth, symbol, route).len() ==> {
                let p = #[trigger] parents_at(nodes, depth, symbol, route)[i];
                p < nodes.len() && nodes[p as int].depth == depth && nodes[p as int].symbol@
                    == symbol && !route.contains(p)
            },
    decreases nodes.len(),
{
    if nodes.len() > 0 {
        let d = nodes.drop_last();
        lemma_parents_at(d, depth, symbol, route);
        let all = parents_at(nodes, depth, symbol, route);
        let before = parents_at(d, depth, symbol, route);
        assert forall|i: int| 0 <= i < all.len() implies {
            let p = #[trigger] all[i];
            p < nodes.len() && nodes[p as int].depth == depth && nodes[p as int].symbol@ == symbol
                && !route.contains(p)
        } by {
            if i < before.len() {
                assert(all[i] == before[i]);
                assert(d[before[i] as int] == nodes[before[i] as int]);
            }
        }
    }
}

/// The route goes on from the shorter one, and is linked.
spec fn goes_on(nodes: Seq<&CallGraphNode>, route: Seq<usize>, longer: Seq<usize>) -> bool {
    &&& is_linked(nodes, longer)
    &&& route.len() <= longer.len()
    &&& longer.take(route.len() as int) == route
}

proof fn lemma_routes_on(nodes: Seq<&CallGraphNode>, route: Seq<usize>)
    requires
        nodes.len() <= usize::MAX,
        route.len() >= 1,
        is_linked(nodes, route),
    ensures
        forall|i: int|
            0 <= i < routes_on(nodes, route).len() ==> goes_on(
                nodes,
                route,
                #[trigger] routes_on(nodes, route)[i],
            ),
        routes_on(nodes, route).len() >= 1,
    decreases nodes.len() + 1 - route.len(), 1int, 0nat,
{
    let next = next_places(nodes, route);
    assert(route.take(route.len() as int) =~= route);
    if route.len() > nodes.len() || next.len() == 0 {
    } else {
        lemma_routes_over(nodes, route, next.len());
    }
}

proof fn lemma_routes_over(nodes: Seq<&CallGraphNode>, route: Seq<usize>, k: nat)
    requires
        nodes.len() <= usize::MAX,
        1 <= route.len() <= nodes.len(),
        is_linked(nodes, route),
        k <= next_places(nodes, route).len(),
    ensures
        ({
            let all = routes_over(nodes, route, next_places(nodes, route), k);
            &&& forall|i: int| 0 <= i < all.len() ==> goes_on(nodes, route, #[trigger] all[i])
            &&& k > 0 ==> all.len() >= 1
        }),
    decreases nodes.len() + 1 - route.len(), 0int, k,
{
    let next = next_places(nodes, route);
    if k > 0 {
        let last = nodes[route.last() as int];
        let depth = if last.depth > 0 {
            last.depth - 1
        } else {
            0
        };
        lemma_parents_at(nodes, depth, last.via_symbol->Some_0@, route);
        let p = next[k - 1];
        let longer = route.push(p);
        assert(is_linked(nodes, longer)) by {
            assert forall|i: int, j: int| 0 <= i && j == i + 1 && j < longer.len() implies {
                let a = nodes[(#[trigger] longer[i]) as int];
                let b = nodes[(#[trigger] longer[j]) as int];
                opt_text(a.via_symbol) == Some(b.symbol@) && b.depth == if a.depth > 0 {
                    a.depth - 1
                } else {
                    0
                }
            } by {
                if j < route.len() {
                    assert(longer[i] == route[i] && longer[j] == route[j]);
                } else {
                    assert(longer[i] == route.last() && longer[j] == p);
                }
            }
        }
        lemma_routes_on(nodes, longer);
        lemma_routes_over(nodes, route, (k - 1) as nat);
        let first = routes_on(nodes, longer);
        let rest = routes_over(nodes, route, next, (k - 1) as nat);
        let all = routes_over(nodes, route, next, k);
        assert(all == first + rest);
        assert forall|i: int| 0 <= i < all.len() implies goes_on(
            nodes,
            route,
            #[trigger] all[i],
        ) by {
            if i < first.len() {
                assert(all[i] == first[i]);
                let r = first[i];
                assert(goes_on(nodes, longer, r));
                assert(r.take(route.len() as int) =~= longer.take(route.len() as int));
                assert(longer.take(route.len() as int) =~= route);
            } else {
                assert(all[i] == rest[i - first.len()]);
            }
        }
    }
}

/// The route begins at an outermost caller and follows links.
pub open spec fn is_caller_route(nodes: Seq<&CallGraphNode>, route: Seq<usize>) -> bool {
    &&& route.len() >= 1
    &&& is_linked(nodes, route)
    &&& !leads_on(nodes, nodes[route[0] as int].symbol@)
}

proof fn lemma_leaf_places(nodes: Seq<&CallGraphNode>, n: nat)
    requires
        n <= nodes.len() <= usize::MAX,
    ensures
        forall|i: int|
            0 <= i < leaf_places(nodes, n).len() ==> {
                let p = #[trigger] leaf_places(nodes, n)[i];
                p < nodes.len() && !leads_on(nodes, nodes[p as int].symbol@)
            },
    decreases n,
{
    if n > 0 {
        lemma_leaf_places(nodes, (n - 1) as nat);
    }
}

/// Every caller path begins at a caller that nobody was reached through, and
/// each node on it was reached through the next.
pub proof fn lemma_caller_routes(nodes: Seq<&CallGraphNode>)
    requires
        nodes.len() <= usize::MAX,
    ensures
        forall|i: int|
            0 <= i < all_routes(nodes).len() ==> is_caller_route(
                nodes,
                #[trigger] all_routes(nodes)[i],
            ),
{
    lemma_leaf_places(nodes, nodes.len());
    lemma_routes_of_leaves(
        nodes,
        leaf_places(nodes, nodes.len()),
        leaf_places(nodes, nodes.len()).len(),
    );
}

proof fn lemma_routes_of_leaves(nodes: Seq<&CallGraphNode>, leaves: Seq<usize>, k: nat)
    requires
        nodes.len() <= usize::MAX,
        k <= leaves.len(),
        forall|i: int|
            0 <= i < leaves.len() ==> (#[trigger] leaves[i]) < nodes.len() && !leads_on(
                nodes,
                nodes[leaves[i] as int].symbol@,
            ),
    ensures
        forall|i: int|
            0 <= i < routes_of_leaves(nodes, leaves, k).len() ==> is_caller_route(
                nodes,
                #[trigger] routes_of_leaves(nodes, leaves, k)[i],
            ),
    decreases k,
{
    if k > 0 {
        lemma_routes_of_leaves(nodes, leaves, (k - 1) as nat);
        let start = seq![leaves[k - 1]];
        assert(is_linked(nodes, start));
        lemma_routes_on(nodes, start);
        let before = routes_of_leaves(nodes, leaves, (k - 1) as nat);
        let more = routes_on(nodes, start);
        let all = routes_of_leaves(nodes, leaves, k);
        assert forall|i: int| 0 <= i < all.len() implies is_caller_route(
            nodes,
            #[trigger] all[i],
        ) by {
            if i < before.len() {
                assert(all[i] == before[i]);
            } else {
                let r = more[i - before.len()];
                assert(all[i] == r);
                assert(goes_on(nodes, start, r));
                assert(r.take(1)[0] == r[0]);
                assert(start[0] == r[0]);
            }
        }
    }
}

} // verus!
