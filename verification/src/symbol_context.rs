//! The surroundings of a symbol: what calls it and what it calls.

use vstd::prelude::*;
use crate::call_graph_traversal::{
    CallGraphNode, all_paths, chain_from, chains, deepest, depth_summary, flat, flatten, leaf_nodes,
    outermost, path_lists, total_len, trace_path,
};
use crate::collections::TextMap;
use crate::text::{has_text, texts};

verus! {

/// What calls a symbol and what it calls, by depth.
#[derive(Debug)]
pub struct SymbolContext {
    /// What the symbol is called; for display only.
    pub symbol: String,
    /// The symbols that the walks started from.
    pub root_symbols: Vec<String>,
    /// Callers by depth.
    pub callers_by_depth: Vec<Vec<CallGraphNode>>,
    /// Number of callers.
    pub total_callers: usize,
    /// Deepest level of callers.
    pub max_caller_depth: usize,
    /// Callees by depth.
    pub callees_by_depth: Vec<Vec<CallGraphNode>>,
    /// Number of callees.
    pub total_callees: usize,
    /// Deepest level of callees.
    pub max_callee_depth: usize,
    /// Whether the symbol is in the call graph at all.
    pub resolved: bool,
}

/// The symbol that a callee hangs from: the one that led to it, or the label.
pub open spec fn hangs_from(node: CallGraphNode, label: Seq<char>) -> Seq<char> {
    match node.via_symbol {
        Some(via) => via@,
        None => label,
    }
}

/// The callees that hang from `parent`.
pub open spec fn children_of<'a>(
    nodes: Seq<&'a CallGraphNode>,
    label: Seq<char>,
    parent: Seq<char>,
) -> Seq<&'a CallGraphNode>
    decreases nodes.len(),
{
    if nodes.len() == 0 {
        nodes
    } else {
        let d = children_of(nodes.drop_last(), label, parent);
        if hangs_from(*nodes.last(), label) == parent {
            d.push(nodes.last())
        } else {
            d
        }
    }
}

/// The nodes of the first level.
pub open spec fn first_level<'a>(by_depth: Seq<Vec<CallGraphNode>>) -> Seq<&'a CallGraphNode> {
    if by_depth.len() == 0 {
        Seq::empty()
    } else {
        flat(by_depth.take(1))
    }
}

/// The callees that a renderer finds under `parent`. Where the symbol is a
/// label for several roots, the callees of the roots stand under the label.
pub open spec fn children_shown<'a>(c: SymbolContext, parent: Seq<char>) -> Seq<&'a CallGraphNode> {
    let direct = first_level(c.callees_by_depth@);
    if parent == c.symbol@ && !texts(c.root_symbols@).contains(c.symbol@) && direct.len() > 0 {
        direct
    } else {
        children_of(flat(c.callees_by_depth@), c.symbol@, parent)
    }
}

impl SymbolContext {
    /// The context of two finished walks.
    pub fn of_walks(
        symbol: String,
        root_symbols: Vec<String>,
        resolved: bool,
        callers_by_depth: Vec<Vec<CallGraphNode>>,
        callees_by_depth: Vec<Vec<CallGraphNode>>,
    ) -> (r: SymbolContext)
        requires
            total_len(callers_by_depth@) <= usize::MAX,
            total_len(callees_by_depth@) <= usize::MAX,
        ensures
            r.symbol == symbol,
            r.root_symbols == root_symbols,
            r.resolved == resolved,
            r.callers_by_depth == callers_by_depth,
            r.total_callers == total_len(callers_by_depth@),
            r.max_caller_depth == deepest(callers_by_depth@),
            r.callees_by_depth == callees_by_depth,
            r.total_callees == total_len(callees_by_depth@),
            r.max_callee_depth == deepest(callees_by_depth@),
    {
        let (total_callers, max_caller_depth) = depth_summary(&callers_by_depth);
        let (total_callees, max_callee_depth) = depth_summary(&callees_by_depth);
        SymbolContext {
            symbol,
            root_symbols,
            callers_by_depth,
            total_callers,
            max_caller_depth,
            callees_by_depth,
            total_callees,
            max_callee_depth,
            resolved,
        }
    }

    /// The callers that nothing else calls.
    pub fn caller_leaves(&self) -> (r: Vec<&CallGraphNode>)
        ensures
            r@ == outermost(flat(self.callers_by_depth@), flat(self.callers_by_depth@)),
    {
        leaf_nodes(&flatten(&self.callers_by_depth))
    }

    /// The chain of callers of `leaf`, the leaf first.
    pub fn path_for_leaf<'a>(&'a self, leaf: &'a CallGraphNode) -> (r: Vec<&'a CallGraphNode>)
        ensures
            r@ == chain_from(flat(self.callers_by_depth@), leaf),
    {
        trace_path(leaf, &flatten(&self.callers_by_depth))
    }

    /// Every chain of callers, one for each leaf, the leaf first.
    pub fn caller_chains(&self) -> (r: Vec<Vec<&CallGraphNode>>)
        ensures
            path_lists(r@) == chains(flat(self.callers_by_depth@)),
    {
        all_paths(&flatten(&self.callers_by_depth))
    }

    /// The callees by the symbol that they hang from.
    pub fn callee_children(&self) -> (r: TextMap<Vec<&CallGraphNode>>)
        ensures
            forall|k: Seq<char>| #[trigger]
                r@.contains_key(k) <==> children_shown(*self, k).len() > 0,
            forall|k: Seq<char>| #[trigger]
                r@.contains_key(k) ==> r@[k]@ == children_shown(*self, k),
    {
        let nodes = flatten(&self.callees_by_depth);
        let ghost all = nodes@;
        let ghost label = self.symbol@;
        let mut map: TextMap<Vec<&CallGraphNode>> = TextMap::new();
        let mut i: usize = 0;
        while i < nodes.len()
            invariant
                i <= nodes@.len(),
                all == nodes@,
                label == self.symbol@,
                forall|k: Seq<char>| #[trigger]
                    map@.contains_key(k) <==> children_of(all.take(i as int), label, k).len() > 0,
                forall|k: Seq<char>| #[trigger]
                    map@.contains_key(k) ==> map@[k]@ == children_of(
                        all.take(i as int),
                        label,
                        k,
                    ),
            decreases nodes@.len() - i,
        {
            let ghost before = map@;
            proof {
                assert(all.take(i + 1).drop_last() =~= all.take(i as int));
                assert(all.take(i + 1).last() == all[i as int]);
            }
            let key = match &nodes[i].via_symbol {
                Some(via) => via.clone(),
                None => self.symbol.clone(),
            };
            let ghost key_text = key@;
            let mut list = match map.remove(key.as_str()) {
                Some(v) => v,
                None => Vec::new(),
            };
            let ghost start = list@;
            proof {
                assert(start =~= children_of(all.take(i as int), label, key_text));
            }
            list.push(nodes[i]);
            map.insert(key, list);
            proof {
                assert forall|k: Seq<char>| #[trigger]
                    map@.contains_key(k) <==> children_of(all.take(i + 1), label, k).len()
                        > 0 by {
                    if k != key_text {
                        assert(map@.contains_key(k) == before.contains_key(k));
                    }
                }
                assert forall|k: Seq<char>| #[trigger] map@.contains_key(k) implies map@[k]@
                    == children_of(all.take(i + 1), label, k) by {
                    if k != key_text {
                        assert(before.contains_key(k));
                    }
                }
            }
            i += 1;
        }
        assert(all.take(i as int) =~= all);
        let is_label = !has_text(&self.root_symbols, self.symbol.as_str());
        if is_label && self.callees_by_depth.len() > 0 {
            let first = vstd::slice::slice_subrange(self.callees_by_depth.as_slice(), 0, 1);
            assert(first@ =~= self.callees_by_depth@.take(1));
            let direct = flatten(first);
            if direct.len() > 0 {
                map.insert(self.symbol.clone(), direct);
            }
        }
        map
    }
}

} // verus!
