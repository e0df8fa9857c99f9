//! One list of memory items and filesystem nodes, searched or browsed.

use vstd::prelude::*;
use crate::fusion::{Keyed, Scored, concat, fuse, fused, views};
use crate::memory::MemoryItem;
use crate::order::{Ranked, arrange, arranged};
use crate::rrf::at_most;
use crate::text::same_text;

verus! {

/// The node that is read first.
pub const MEMORY_ROOT_URI: &'static str = "memory://memory";

/// How many candidates each leg of a node search retrieves.
pub const NODE_CANDIDATES_PER_LEG: usize = 20;

/// What a node of the virtual filesystem is.
#[derive(Debug, Clone, Copy, PartialEq, Eq, Structural)]
pub enum NodeKind {
    Memory,
    Session,
    Resource,
}

/// A node of the virtual filesystem.
#[derive(Debug)]
pub struct MemoryNode {
    pub uri: String,
    pub kind: NodeKind,
    pub content: String,
    pub updated_at: i64,
}

/// An entry of the list.
#[derive(Debug)]
pub enum MemoryEntry {
    Item { item: MemoryItem, score: u128 },
    Node { node: MemoryNode, score: u128 },
}

/// The rank of a kind: the rollup, then sessions, then resources.
pub open spec fn kind_rank(kind: NodeKind) -> u8 {
    match kind {
        NodeKind::Memory => 0,
        NodeKind::Session => 1,
        NodeKind::Resource => 2,
    }
}

/// The rank of a kind in the browsing view.
pub fn node_kind_rank(kind: NodeKind) -> (r: u8)
    ensures
        r == kind_rank(kind),
{
    match kind {
        NodeKind::Memory => 0,
        NodeKind::Session => 1,
        NodeKind::Resource => 2,
    }
}

impl NodeKind {
    /// The name of the kind.
    pub open spec fn text(self) -> Seq<char> {
        match self {
            NodeKind::Memory => "memory"@,
            NodeKind::Session => "session"@,
            NodeKind::Resource => "resource"@,
        }
    }

    /// The name of the kind.
    pub fn as_str(&self) -> (r: &'static str)
        ensures
            r@ == self.text(),
    {
        match self {
            NodeKind::Memory => "memory",
            NodeKind::Session => "session",
            NodeKind::Resource => "resource",
        }
    }
}

impl MemoryEntry {
    /// The score of the entry.
    pub open spec fn points(self) -> u128 {
        match self {
            MemoryEntry::Item { score, .. } => score,
            MemoryEntry::Node { score, .. } => score,
        }
    }

    pub fn score(&self) -> (r: u128)
        ensures
            r == self.points(),
    {
        match self {
            MemoryEntry::Item { score, .. } => *score,
            MemoryEntry::Node { score, .. } => *score,
        }
    }

    /// Short label of the kind.
    pub fn kind_label(&self) -> (r: String)
        ensures
            r@ == match *self {
                MemoryEntry::Item { item, .. } => item.kind.text(),
                MemoryEntry::Node { node, .. } => node.kind.text(),
            },
    {
        match self {
            MemoryEntry::Item { item, .. } => item.kind.as_str().to_string(),
            MemoryEntry::Node { node, .. } => node.kind.as_str().to_string(),
        }
    }

    /// The name of the item or the URI of the node.
    pub fn label(&self) -> (r: String)
        ensures
            r@ == match *self {
                MemoryEntry::Item { item, .. } => item.name@,
                MemoryEntry::Node { node, .. } => node.uri@,
            },
    {
        match self {
            MemoryEntry::Item { item, .. } => item.name.clone(),
            MemoryEntry::Node { node, .. } => node.uri.clone(),
        }
    }
}

impl Ranked for MemoryEntry {
    /// Higher scores come first.
    open spec fn ranks_before(self, other: Self) -> bool {
        self.points() > other.points()
    }

    fn goes_before(&self, other: &Self) -> (r: bool) {
        self.score() > other.score()
    }

    proof fn rank_laws(a: Self, b: Self, c: Self) {
    }
}

impl Keyed for MemoryNode {
    /// Nodes are told apart by their URIs.
    open spec fn key(self) -> Seq<char> {
        self.uri@
    }

    fn key_text(&self) -> (r: &str) {
        self.uri.as_str()
    }
}

impl Ranked for MemoryNode {
    /// By kind, the root node first, then the most recent.
    open spec fn ranks_before(self, other: Self) -> bool {
        let a = kind_rank(self.kind);
        let b = kind_rank(other.kind);
        let root_a = self.uri@ == MEMORY_ROOT_URI@;
        let root_b = other.uri@ == MEMORY_ROOT_URI@;
        ||| a < b
        ||| a == b && root_a && !root_b
        ||| a == b && root_a == root_b && self.updated_at > other.updated_at
    }

    fn goes_before(&self, other: &Self) -> (r: bool) {
        let a: u8 = node_kind_rank(self.kind);
        let b: u8 = node_kind_rank(other.kind);
        if a != b {
            return a < b;
        }
        let root_a = same_text(self.uri.as_str(), MEMORY_ROOT_URI);
        let root_b = same_text(other.uri.as_str(), MEMORY_ROOT_URI);
        if root_a != root_b {
            return root_a;
        }
        self.updated_at > other.updated_at
    }

    proof fn rank_laws(a: Self, b: Self, c: Self) {
    }
}

/// Items with scores, as entries.
pub open spec fn item_entries(s: Seq<(MemoryItem, u128)>) -> Seq<MemoryEntry> {
    Seq::new(s.len(), |i: int| MemoryEntry::Item { item: s[i].0, score: s[i].1 })
}

/// Scored nodes, as entries.
pub open spec fn node_entries(s: Seq<Scored<MemoryNode>>) -> Seq<MemoryEntry> {
    Seq::new(s.len(), |i: int| MemoryEntry::Node { node: s[i].item, score: s[i].score })
}

/// The nodes that the two legs of a search found, fused, best first, at most
/// `limit`.
pub fn fuse_nodes(semantic: Vec<MemoryNode>, keyword: Vec<MemoryNode>, limit: usize) -> (r: Vec<
    Scored<MemoryNode>,
>)
    requires
        semantic@.len() + keyword@.len() <= usize::MAX,
    ensures
        r@ == at_most(arranged(fused(seq![semantic@, keyword@])), limit as int),
{
    let ghost pair = seq![semantic@, keyword@];
    let mut lists: Vec<Vec<MemoryNode>> = Vec::new();
    lists.push(semantic);
    lists.push(keyword);
    proof {
        assert(views(lists@) =~= pair);
        let one = pair.drop_last();
        assert(one =~= seq![semantic@]);
        assert(one.drop_last() =~= Seq::<Seq<MemoryNode>>::empty());
        assert(concat(one.drop_last()) =~= Seq::<MemoryNode>::empty());
        assert(concat(one) =~= semantic@);
    }
    let mut r = arrange(fuse(lists));
    r.truncate(limit);
    r
}

/// One list of found items and nodes, best first, at most `limit`.
pub fn merge_found(
    items: Vec<(MemoryItem, u128)>,
    nodes: Vec<Scored<MemoryNode>>,
    limit: usize,
) -> (r: Vec<MemoryEntry>)
    ensures
        r@ == at_most(arranged(item_entries(items@) + node_entries(nodes@)), limit as int),
{
    let ghost is = items@;
    let ghost ns = nodes@;
    let mut entries: Vec<MemoryEntry> = Vec::new();
    for pair in it: items
        invariant
            it.seq() == is,
            entries@ == item_entries(is).take(it.index() as int),
    {
        proof {
            let i = it.index() as int;
            assert(item_entries(is).take(i + 1) =~= item_entries(is).take(i).push(
                MemoryEntry::Item { item: pair.0, score: pair.1 },
            ));
        }
        entries.push(MemoryEntry::Item { item: pair.0, score: pair.1 });
    }
    assert(item_entries(is).take(is.len() as int) =~= item_entries(is));
    assert(item_entries(is) + node_entries(ns).take(0) =~= item_entries(is));
    for e in it: nodes
        invariant
            it.seq() == ns,
            entries@ == item_entries(is) + node_entries(ns).take(it.index() as int),
    {
        proof {
            let i = it.index() as int;
            let x = MemoryEntry::Node { node: e.item, score: e.score };
            assert(node_entries(ns).take(i + 1) =~= node_entries(ns).take(i).push(x));
            assert(item_entries(is) + node_entries(ns).take(i).push(x) =~= (item_entries(is)
                + node_entries(ns).take(i)).push(x));
        }
        entries.push(MemoryEntry::Node { node: e.item, score: e.score });
    }
    assert(node_entries(ns).take(ns.len() as int) =~= node_entries(ns));
    let mut r = arrange(entries);
    r.truncate(limit);
    r
}

/// Nodes as entries without a score.
pub open spec fn plain_nodes(s: Seq<MemoryNode>) -> Seq<MemoryEntry> {
    Seq::new(s.len(), |i: int| MemoryEntry::Node { node: s[i], score: 0 })
}

/// Items as entries without a score.
pub open spec fn plain_items(s: Seq<MemoryItem>) -> Seq<MemoryEntry> {
    Seq::new(s.len(), |i: int| MemoryEntry::Item { item: s[i], score: 0 })
}

/// The view of the whole store: the nodes in their order, then the items; at
/// most `limit` entries.
pub fn browse(items: Vec<MemoryItem>, nodes: Vec<MemoryNode>, limit: usize) -> (r: Vec<MemoryEntry>)
    ensures
        r@ == at_most(plain_nodes(arranged(nodes@)) + plain_items(items@), limit as int),
{
    let sorted = arrange(nodes);
    let ghost ns = sorted@;
    let ghost is = items@;
    let mut entries: Vec<MemoryEntry> = Vec::new();
    for node in it: sorted
        invariant
            it.seq() == ns,
            entries@ == plain_nodes(ns).take(it.index() as int),
    {
        proof {
            let i = it.index() as int;
            assert(plain_nodes(ns).take(i + 1) =~= plain_nodes(ns).take(i).push(
                MemoryEntry::Node { node, score: 0 },
            ));
        }
        entries.push(MemoryEntry::Node { node, score: 0 });
    }
    assert(plain_nodes(ns).take(ns.len() as int) =~= plain_nodes(ns));
    assert(plain_nodes(ns) + plain_items(is).take(0) =~= plain_nodes(ns));
    for item in it: items
        invariant
            it.seq() == is,
            entries@ == plain_nodes(ns) + plain_items(is).take(it.index() as int),
    {
        proof {
            let i = it.index() as int;
            let x = MemoryEntry::Item { item, score: 0 };
            assert(plain_items(is).take(i + 1) =~= plain_items(is).take(i).push(x));
            assert(plain_nodes(ns) + plain_items(is).take(i).push(x) =~= (plain_nodes(ns)
                + plain_items(is).take(i)).push(x));
        }
        entries.push(MemoryEntry::Item { item, score: 0 });
    }
    assert(plain_items(is).take(is.len() as int) =~= plain_items(is));
    entries.truncate(limit);
    entries
}

} // verus!
