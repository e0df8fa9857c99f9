//! The blast radius of a symbol: everything that calls it, directly or not.

use vstd::prelude::*;
use crate::call_graph::CallGraphQuery;
use crate::call_graph_traversal::{
    CallGraphNode, all_paths, chain_from, chains, deepest, depth_summary, flat, flatten, leaf_nodes,
    outermost, path_lists, total_len, trace_path,
};

verus! {

/// The blast radius of a symbol.
#[derive(Debug)]
pub struct ImpactAnalysis {
    /// What the analysed symbol is called; for display only.
    pub root_symbol: String,
    /// The symbols that the walk started from.
    pub root_symbols: Vec<String>,
    /// Number of symbols affected.
    pub total_affected: usize,
    /// Deepest level that has any.
    pub max_depth_reached: usize,
    /// Affected symbols by depth: those at place 0 call the symbol directly.
    pub by_depth: Vec<Vec<CallGraphNode>>,
}

/// The query of an analysis.
pub fn analysis_query(repository_id: Option<String>, is_regex: bool) -> (r: CallGraphQuery)
    ensures
        r == (CallGraphQuery {
            repository_id,
            language: None,
            reference_kind: None,
            limit: None,
            use_regex: is_regex,
        }),
{
    let mut query = CallGraphQuery::new();
    if let Some(id) = repository_id {
        query = query.with_repository(id);
    }
    if is_regex {
        query = query.with_regex();
    }
    query
}

impl ImpactAnalysis {
    /// The analysis of a finished walk to the callers of the roots.
    pub fn of_walk(
        root_symbol: String,
        root_symbols: Vec<String>,
        by_depth: Vec<Vec<CallGraphNode>>,
    ) -> (r: ImpactAnalysis)
        requires
            total_len(by_depth@) <= usize::MAX,
        ensures
            r.root_symbol == root_symbol,
            r.root_symbols == root_symbols,
            r.by_depth == by_depth,
            r.total_affected == total_len(by_depth@),
            r.max_depth_reached == deepest(by_depth@),
    {
        let (total_affected, max_depth_reached) = depth_summary(&by_depth);
        ImpactAnalysis { root_symbol, root_symbols, total_affected, max_depth_reached, by_depth }
    }

    /// The furthest callers: the entry points of the call chains.
    pub fn leaf_nodes(&self) -> (r: Vec<&CallGraphNode>)
        ensures
            r@ == outermost(flat(self.by_depth@), flat(self.by_depth@)),
    {
        leaf_nodes(&flatten(&self.by_depth))
    }

    /// The call chain of `leaf`, the leaf first.
    pub fn path_for_leaf<'a>(&'a self, leaf: &'a CallGraphNode) -> (r: Vec<&'a CallGraphNode>)
        ensures
            r@ == chain_from(flat(self.by_depth@), leaf),
    {
        trace_path(leaf, &flatten(&self.by_depth))
    }

    /// Every call chain, one for each leaf, the leaf first.
    pub fn call_chains(&self) -> (r: Vec<Vec<&CallGraphNode>>)
        ensures
            path_lists(r@) == chains(flat(self.by_depth@)),
    {
        all_paths(&flatten(&self.by_depth))
    }
}

} // verus!
