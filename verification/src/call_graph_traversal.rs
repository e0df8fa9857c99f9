//! Walks over the call graph: breadth first from the roots of a query, and back
//! from what was reached.

use vstd::prelude::*;
use vstd::string::*;
use crate::collections::TextSet;
use crate::domain::SymbolReference;
use crate::patterns::{build_fuzzy_pattern, fuzzy_pattern};
use crate::text::{copy_opt, decimal, decimal_text, opt_text, same_text, texts};

verus! {

/// Stands for a caller outside any named symbol.
pub const ANONYMOUS_SYMBOL: &'static str = "<anonymous>";

/// Most symbols that a short name may resolve to.
pub const RESOLVE_SYMBOLS_LIMIT: u32 = 100;

/// One symbol reached from the roots, with the reference that reached it.
#[derive(Debug)]
pub struct CallGraphNode {
    /// The symbol, or [`ANONYMOUS_SYMBOL`].
    pub symbol: String,
    /// Hops from a root.
    pub depth: usize,
    /// File of the reference.
    pub file_path: String,
    /// Line of the reference.
    pub line: u32,
    /// Kind of the reference.
    pub reference_kind: String,
    /// Repository of the reference.
    pub repository_id: String,
    /// Name of the symbol where it was imported under another.
    pub import_alias: Option<String>,
    /// The symbol that led here.
    pub via_symbol: Option<String>,
}

/// Which way a walk goes.
#[derive(Debug, Clone, Copy, PartialEq, Eq, Structural)]
pub enum Direction {
    /// To the callers of a symbol.
    Callers,
    /// To what a symbol calls.
    Callees,
}

/// What a node says.
pub struct NodeView {
    pub symbol: Seq<char>,
    pub depth: nat,
    pub file_path: Seq<char>,
    pub line: u32,
    pub reference_kind: Seq<char>,
    pub repository_id: Seq<char>,
    pub import_alias: Option<Seq<char>>,
    pub via_symbol: Option<Seq<char>>,
}

impl View for CallGraphNode {
    type V = NodeView;

    open spec fn view(&self) -> NodeView {
        NodeView {
            symbol: self.symbol@,
            depth: self.depth as nat,
            file_path: self.file_path@,
            line: self.line,
            reference_kind: self.reference_kind@,
            repository_id: self.repository_id@,
            import_alias: opt_text(self.import_alias),
            via_symbol: opt_text(self.via_symbol),
        }
    }
}

/// What nodes say.
pub open spec fn node_views(s: Seq<CallGraphNode>) -> Seq<NodeView> {
    Seq::new(s.len(), |i: int| s[i]@)
}

/// What nodes by depth say.
pub open spec fn level_views(s: Seq<Vec<CallGraphNode>>) -> Seq<Seq<NodeView>> {
    Seq::new(s.len(), |i: int| node_views(s[i]@))
}

/// A symbol to be looked up, with its depth.
pub struct Pending {
    pub symbol: String,
    pub depth: usize,
}

/// What pending symbols say.
pub open spec fn pending_views(s: Seq<Pending>) -> Seq<(Seq<char>, nat)> {
    Seq::new(s.len(), |i: int| (s[i].symbol@, s[i].depth as nat))
}

/// Where a walk stands.
pub struct WalkView {
    /// The keys of all that was reached, and the roots.
    pub visited: Set<Seq<char>>,
    /// The symbols that are or were to be looked up, with their depths.
    pub queue: Seq<(Seq<char>, nat)>,
    /// How many of them were looked up.
    pub head: nat,
    /// What was reached, by depth.
    pub levels: Seq<Seq<NodeView>>,
}

/// The symbol that a reference leads to; none for code outside any symbol.
pub open spec fn next_symbol(direction: Direction, r: SymbolReference) -> Option<Seq<char>> {
    match direction {
        Direction::Callers => opt_text(r.caller_symbol),
        Direction::Callees => Some(r.callee_symbol@),
    }
}

/// What a reached thing is told apart by: its name, or for code outside any
/// symbol its file.
pub open spec fn visit_key(direction: Direction, r: SymbolReference) -> Seq<char> {
    match next_symbol(direction, r) {
        Some(name) => name,
        None => "anon:"@ + r.repository_id@ + ":"@ + r.caller_file_path@,
    }
}

/// The node that a reference makes.
pub open spec fn node_of(
    direction: Direction,
    r: SymbolReference,
    from: Seq<char>,
    depth: nat,
) -> NodeView {
    NodeView {
        symbol: match next_symbol(direction, r) {
            Some(name) => name,
            None => ANONYMOUS_SYMBOL@,
        },
        depth,
        file_path: r.reference_file_path@,
        line: r.reference_line,
        reference_kind: r.reference_kind.name(),
        repository_id: r.repository_id@,
        import_alias: opt_text(r.import_alias),
        via_symbol: Some(from),
    }
}

/// The walk past one reference out of `from`.
pub open spec fn visited_one(
    w: WalkView,
    direction: Direction,
    r: SymbolReference,
    from: Seq<char>,
    depth: nat,
) -> WalkView {
    let key = visit_key(direction, r);
    if w.visited.contains(key) {
        w
    } else {
        WalkView {
            visited: w.visited.insert(key),
            queue: match next_symbol(direction, r) {
                Some(name) => w.queue.push((name, depth)),
                None => w.queue,
            },
            levels: w.levels.update(
                depth - 1,
                w.levels[depth - 1].push(node_of(direction, r, from, depth)),
            ),
            ..w
        }
    }
}

/// The walk past references out of `from`.
pub open spec fn visited_all(
    w: WalkView,
    direction: Direction,
    refs: Seq<SymbolReference>,
    from: Seq<char>,
    depth: nat,
) -> WalkView
    decreases refs.len(),
{
    if refs.len() == 0 {
        w
    } else {
        visited_one(
            visited_all(w, direction, refs.drop_last(), from, depth),
            direction,
            refs.last(),
            from,
            depth,
        )
    }
}

/// The levels with empty ones behind, up to `n`.
pub open spec fn widened(levels: Seq<Seq<NodeView>>, n: nat) -> Seq<Seq<NodeView>> {
    if levels.len() >= n {
        levels
    } else {
        levels + Seq::new((n - levels.len()) as nat, |i: int| Seq::<NodeView>::empty())
    }
}

/// The walk once the references of the next symbol are known.
pub open spec fn stepped(w: WalkView, direction: Direction, refs: Seq<SymbolReference>) -> WalkView {
    let (from, depth) = w.queue[w.head as int];
    let passed = WalkView { head: w.head + 1, ..w };
    if refs.len() == 0 {
        passed
    } else {
        visited_all(
            WalkView { levels: widened(w.levels, depth + 1), ..passed },
            direction,
            refs,
            from,
            depth + 1,
        )
    }
}

/// The start of a walk from `roots`.
pub open spec fn at_roots(roots: Seq<Seq<char>>) -> WalkView
    decreases roots.len(),
{
    if roots.len() == 0 {
        WalkView {
            visited: Set::empty(),
            queue: Seq::empty(),
            head: 0,
            levels: Seq::empty(),
        }
    } else {
        let w = at_roots(roots.drop_last());
        if w.visited.contains(roots.last()) {
            w
        } else {
            WalkView {
                visited: w.visited.insert(roots.last()),
                queue: w.queue.push((roots.last(), 0)),
                ..w
            }
        }
    }
}

/// A breadth-first walk.
pub struct Walk {
    pub direction: Direction,
    pub visited: TextSet,
    pub queue: Vec<Pending>,
    pub head: usize,
    pub by_depth: Vec<Vec<CallGraphNode>>,
}

impl View for Walk {
    type V = WalkView;

    open spec fn view(&self) -> WalkView {
        WalkView {
            visited: self.visited@,
            queue: pending_views(self.queue@),
            head: self.head as nat,
            levels: level_views(self.by_depth@),
        }
    }
}

impl Walk {
    /// No symbol is deeper than its place in the queue.
    pub open spec fn wf(self) -> bool {
        &&& self.head <= self.queue@.len()
        &&& forall|i: int| 0 <= i < self.queue@.len() ==> (#[trigger] self.queue@[i]).depth <= i
    }

    /// Begins a walk at `roots`.
    pub fn start(roots: &[String], direction: Direction) -> (r: Walk)
        ensures
            r.wf(),
            r.direction == direction,
            r@ == at_roots(texts(roots@)),
    {
        let ghost all = texts(roots@);
        let mut w = Walk {
            direction,
            visited: TextSet::new(),
            queue: Vec::new(),
            head: 0,
            by_depth: Vec::new(),
        };
        let mut i: usize = 0;
        proof {
            assert(pending_views(w.queue@) =~= Seq::empty());
            assert(level_views(w.by_depth@) =~= Seq::empty());
        }
        while i < roots.len()
            invariant
                i <= roots@.len(),
                all == texts(roots@),
                w.wf(),
                w.direction == direction,
                w@ == at_roots(all.take(i as int)),
            decreases roots@.len() - i,
        {
            let ghost before = w;
            proof {
                assert(all.take(i + 1).drop_last() =~= all.take(i as int));
                assert(all.take(i + 1).last() == roots@[i as int]@);
            }
            if !w.visited.contains(roots[i].as_str()) {
                let _ = w.visited.insert(roots[i].clone());
                w.queue.push(Pending { symbol: roots[i].clone(), depth: 0 });
                proof {
                    assert(pending_views(w.queue@) =~= pending_views(before.queue@).push(
                        (roots@[i as int]@, 0),
                    ));
                }
            }
            i += 1;
        }
        assert(all.take(i as int) =~= all);
        w
    }

    /// The symbol to look up next.
    pub fn next(&self) -> (r: Option<&str>)
        ensures
            r is Some == (self.head < self.queue@.len()),
            r matches Some(s) ==> s@ == self@.queue[self.head as int].0,
    {
        if self.head < self.queue.len() {
            Some(self.queue[self.head].symbol.as_str())
        } else {
            None
        }
    }

    /// Takes the references of the symbol that was to be looked up.
    pub fn found(&mut self, refs: &[SymbolReference])
        requires
            old(self).wf(),
            old(self).head < old(self).queue@.len(),
        ensures
            final(self).wf(),
            final(self).direction == old(self).direction,
            final(self)@ == stepped(old(self)@, old(self).direction, refs@),
    {
        let ghost start = self@;
        let ghost direction = self.direction;
        let queued: usize = self.queue.len();
        assert(queued == self.queue@.len());
        let from = self.queue[self.head].symbol.clone();
        let depth: usize = self.queue[self.head].depth + 1;
        let ghost place = self.head as int;
        assert(depth <= place + 1);
        self.head = self.head + 1;
        if refs.len() == 0 {
            return;
        }
        let ghost levels = start.levels;
        let ghost queue = self.queue@;
        let ghost vis = self.visited@;
        proof {
            assert(widened(levels, levels.len()) =~= levels);
        }
        while self.by_depth.len() < depth
            invariant
                self.wf(),
                self.direction == direction,
                self.queue@ == queue,
                self.visited@ == vis,
                self.head == place + 1,
                levels == start.levels,
                self@.levels == widened(levels, self.by_depth@.len()),
                self.by_depth@.len() >= levels.len(),
                self.by_depth@.len() == levels.len() || self.by_depth@.len() <= depth,
            decreases depth - self.by_depth@.len(),
        {
            let ghost before = self.by_depth@;
            let empty: Vec<CallGraphNode> = Vec::new();
            assert(node_views(empty@) =~= Seq::<NodeView>::empty());
            let ghost none = empty;
            self.by_depth.push(empty);
            proof {
                let n = before.len();
                assert(level_views(before) == widened(levels, n));
                assert(self.by_depth@ =~= before.push(none));
                assert(level_views(before.push(none)) =~= level_views(before).push(
                    node_views(none@),
                ));
                assert(widened(levels, n + 1) =~= widened(levels, n).push(
                    Seq::<NodeView>::empty(),
                ));
            }
        }
        assert(self@.levels =~= widened(levels, depth as nat));
        let ghost base = WalkView {
            levels: widened(start.levels, depth as nat),
            head: start.head + 1,
            ..start
        };
        let mut i: usize = 0;
        while i < refs.len()
            invariant
                i <= refs@.len(),
                self.wf(),
                self.direction == direction,
                self.by_depth@.len() >= depth,
                depth >= 1,
                depth <= place + 1,
                self.queue@.len() >= place + 1,
                self.head == place + 1,
                self@ == visited_all(
                    base,
                    direction,
                    refs@.take(i as int),
                    from@,
                    depth as nat,
                ),
            decreases refs@.len() - i,
        {
            let r = &refs[i];
            proof {
                assert(refs@.take(i + 1).drop_last() =~= refs@.take(i as int));
                assert(refs@.take(i + 1).last() == refs@[i as int]);
            }
            self.visit(r, &from, depth);
            i += 1;
        }
        assert(refs@.take(i as int) =~= refs@);
    }

    /// Goes past one reference out of `from`.
    fn visit(&mut self, r: &SymbolReference, from: &String, depth: usize)
        requires
            old(self).wf(),
            1 <= depth <= old(self).by_depth@.len(),
            depth <= old(self).queue@.len(),
        ensures
            final(self).wf(),
            final(self).direction == old(self).direction,
            final(self).head == old(self).head,
            final(self).by_depth@.len() == old(self).by_depth@.len(),
            final(self).queue@.len() >= old(self).queue@.len(),
            final(self)@ == visited_one(
                old(self)@,
                old(self).direction,
                *r,
                from@,
                depth as nat,
            ),
    {
        let ghost start = *self;
        let name = match self.direction {
            Direction::Callers => copy_opt(&r.caller_symbol),
            Direction::Callees => Some(r.callee_symbol.clone()),
        };
        let key = match &name {
            Some(n) => n.clone(),
            None => {
                let mut k = "anon:".to_string();
                k.append(r.repository_id.as_str());
                k.append(":");
                k.append(r.caller_file_path.as_str());
                k
            },
        };
        assert(key@ == visit_key(self.direction, *r));
        if !self.visited.insert(key) {
            assert(self.visited@ =~= start.visited@);
            return;
        }
        let symbol = match &name {
            Some(n) => n.clone(),
            None => ANONYMOUS_SYMBOL.to_string(),
        };
        let node = CallGraphNode {
            symbol,
            depth,
            file_path: r.reference_file_path.clone(),
            line: r.reference_line,
            reference_kind: r.reference_kind.as_str().to_string(),
            repository_id: r.repository_id.clone(),
            import_alias: copy_opt(&r.import_alias),
            via_symbol: Some(from.clone()),
        };
        let ghost v = node@;
        let at: usize = depth - 1;
        self.by_depth[at].push(node);
        proof {
            let old_level = start.by_depth@[at as int]@;
            assert(node_views(self.by_depth@[at as int]@) =~= node_views(old_level).push(v));
            assert(level_views(self.by_depth@) =~= level_views(start.by_depth@).update(
                at as int,
                node_views(old_level).push(v),
            ));
        }
        if let Some(n) = name {
            let ghost t = n@;
            self.queue.push(Pending { symbol: n, depth });
            assert(pending_views(self.queue@) =~= pending_views(start.queue@).push(
                (t, depth as nat),
            ));
        }
    }

    /// What was reached, by depth.
    pub fn finish(self) -> (r: Vec<Vec<CallGraphNode>>)
        ensures
            level_views(r@) == self@.levels,
    {
        self.by_depth
    }
}

/// The total length of lists.
pub open spec fn total_len(s: Seq<Vec<CallGraphNode>>) -> nat
    decreases s.len(),
{
    if s.len() == 0 {
        0
    } else {
        total_len(s.drop_last()) + s.last()@.len()
    }
}

/// The number of the last list that is not empty, counted from one, or 0.
pub open spec fn deepest(s: Seq<Vec<CallGraphNode>>) -> nat
    decreases s.len(),
{
    if s.len() == 0 {
        0
    } else if s.last()@.len() > 0 {
        s.len()
    } else {
        deepest(s.drop_last())
    }
}

/// The number of nodes, and the deepest level that has any.
pub fn depth_summary(by_depth: &[Vec<CallGraphNode>]) -> (r: (usize, usize))
    requires
        total_len(by_depth@) <= usize::MAX,
    ensures
        r.0 == total_len(by_depth@),
        r.1 == deepest(by_depth@),
{
    let mut total: usize = 0;
    let mut deep: usize = 0;
    let mut i: usize = 0;
    while i < by_depth.len()
        invariant
            i <= by_depth@.len(),
            total_len(by_depth@) <= usize::MAX,
            total == total_len(by_depth@.take(i as int)),
            deep == deepest(by_depth@.take(i as int)),
        decreases by_depth@.len() - i,
    {
        proof {
            assert(by_depth@.take(i + 1).drop_last() =~= by_depth@.take(i as int));
            assert(by_depth@.take(i + 1).last() == by_depth@[i as int]);
            lemma_total_len(by_depth@, i + 1);
        }
        total = total + by_depth[i].len();
        if by_depth[i].len() > 0 {
            deep = i + 1;
        }
        i += 1;
    }
    assert(by_depth@.take(i as int) =~= by_depth@);
    (total, deep)
}

proof fn lemma_total_len(s: Seq<Vec<CallGraphNode>>, n: int)
    requires
        0 <= n <= s.len(),
    ensures
        total_len(s.take(n)) <= total_len(s),
    decreases s.len(),
{
    if n < s.len() {
        lemma_total_len(s.drop_last(), n);
        assert(s.drop_last().take(n) =~= s.take(n));
    } else {
        assert(s.take(n) =~= s);
    }
}

/// What a symbol resolved to, cut to the limit, and whether it was cut.
pub fn cap_resolved(resolved: Vec<String>) -> (r: (Vec<String>, bool))
    ensures
        r.1 == (resolved@.len() > RESOLVE_SYMBOLS_LIMIT),
        r.0@ == if r.1 {
            resolved@.take(RESOLVE_SYMBOLS_LIMIT as int)
        } else {
            resolved@
        },
{
    let truncated = resolved.len() > RESOLVE_SYMBOLS_LIMIT as usize;
    let mut kept = resolved;
    if truncated {
        kept.truncate(RESOLVE_SYMBOLS_LIMIT as usize);
    }
    (kept, truncated)
}

/// The pattern to try where a symbol matched nothing as it stands: any name
/// that holds it, whatever its separators. A regular expression is taken at
/// its word and not tried again.
pub fn retry_pattern(symbol: &str, resolved: &[String], is_regex: bool) -> (r: Option<String>)
    ensures
        r is Some == (resolved@.len() == 0 && !is_regex),
        r matches Some(p) ==> p@ == ".*"@ + fuzzy_pattern(symbol@) + ".*"@,
{
    if resolved.len() > 0 || is_regex {
        return None;
    }
    let mut p = ".*".to_string();
    p.append(build_fuzzy_pattern(symbol).as_str());
    p.append(".*");
    Some(p)
}

/// What a query is called that resolved to several symbols.
pub open spec fn label_text(
    symbol: Seq<char>,
    resolved: Seq<Seq<char>>,
    truncated: bool,
) -> Seq<char> {
    if resolved.len() == 1 {
        resolved[0]
    } else if truncated {
        symbol + " ("@ + decimal(resolved.len()) + "+ symbols, capped at "@ + decimal(
            RESOLVE_SYMBOLS_LIMIT as nat,
        ) + ")"@
    } else {
        symbol + " ("@ + decimal(resolved.len()) + " symbols)"@
    }
}

/// What a query is called: the one symbol it resolved to, or how many.
pub fn display_label(symbol: &str, resolved: &[String], truncated: bool) -> (r: String)
    ensures
        r@ == label_text(symbol@, texts(resolved@), truncated),
{
    assert(texts(resolved@).len() == resolved@.len());
    if resolved.len() == 1 {
        return resolved[0].clone();
    }
    let mut r = symbol.to_string();
    r.append(" (");
    r.append(decimal_text(resolved.len() as u64).as_str());
    if truncated {
        r.append("+ symbols, capped at ");
        r.append(decimal_text(RESOLVE_SYMBOLS_LIMIT as u64).as_str());
        r.append(")");
    } else {
        r.append(" symbols)");
    }
    r
}

/// Where a walk starts, given what the symbol resolved to.
pub open spec fn roots_for(symbol: Seq<char>, resolved: Seq<Seq<char>>) -> Seq<Seq<char>> {
    if resolved.len() == 0 {
        seq![symbol]
    } else {
        resolved
    }
}

/// The roots of a walk, the label of the query, and whether anything matched.
/// Where nothing did, the symbol itself is the root.
pub fn choose_roots(symbol: &str, resolved: Vec<String>, truncated: bool) -> (r: (
    Vec<String>,
    String,
    bool,
))
    ensures
        r.2 == (resolved@.len() > 0),
        texts(r.0@) == if r.2 {
            texts(resolved@)
        } else {
            seq![symbol@]
        },
        r.1@ == if r.2 {
            label_text(symbol@, texts(resolved@), truncated)
        } else {
            symbol@
        },
        texts(r.0@) == roots_for(symbol@, texts(resolved@)),
{
    if resolved.len() == 0 {
        let mut roots: Vec<String> = Vec::new();
        roots.push(symbol.to_string());
        assert(texts(roots@) =~= seq![symbol@]);
        return (roots, symbol.to_string(), false);
    }
    let label = display_label(symbol, &resolved, truncated);
    (resolved, label, true)
}

/// Some node was reached through the symbol.
pub open spec fn leads_on(nodes: Seq<&CallGraphNode>, symbol: Seq<char>) -> bool {
    exists|i: int| 0 <= i < nodes.len() && opt_text((#[trigger] nodes[i]).via_symbol) == Some(symbol)
}

/// Those of `part` through which no node was reached.
pub open spec fn outermost<'a>(
    nodes: Seq<&'a CallGraphNode>,
    part: Seq<&'a CallGraphNode>,
) -> Seq<&'a CallGraphNode>
    decreases part.len(),
{
    if part.len() == 0 {
        part
    } else {
        let d = outermost(nodes, part.drop_last());
        if leads_on(nodes, part.last().symbol@) {
            d
        } else {
            d.push(part.last())
        }
    }
}

/// The outermost nodes of a walk: those through which no other was reached.
pub fn leaf_nodes<'a>(nodes: &[&'a CallGraphNode]) -> (r: Vec<&'a CallGraphNode>)
    ensures
        r@ == outermost(nodes@, nodes@),
{
    let mut vias = TextSet::new();
    let mut k: usize = 0;
    while k < nodes.len()
        invariant
            k <= nodes@.len(),
            forall|s: Seq<char>| #[trigger]
                vias@.contains(s) <==> exists|i: int|
                    0 <= i < k && opt_text((#[trigger] nodes@[i]).via_symbol) == Some(s),
        decreases nodes@.len() - k,
    {
        let ghost before = vias@;
        if let Some(via) = &nodes[k].via_symbol {
            let _ = vias.insert(via.clone());
        }
        proof {
            assert forall|s: Seq<char>| #[trigger]
                vias@.contains(s) <==> exists|i: int|
                    0 <= i < k + 1 && opt_text((#[trigger] nodes@[i]).via_symbol) == Some(s) by {
                if before.contains(s) {
                    let i = choose|i: int|
                        0 <= i < k && opt_text((#[trigger] nodes@[i]).via_symbol) == Some(s);
                    assert(opt_text(nodes@[i].via_symbol) == Some(s));
                }
                if vias@.contains(s) && !before.contains(s) {
                    assert(opt_text(nodes@[k as int].via_symbol) == Some(s));
                }
            }
        }
        k += 1;
    }
    let mut r: Vec<&'a CallGraphNode> = Vec::new();
    let mut i: usize = 0;
    while i < nodes.len()
        invariant
            i <= nodes@.len(),
            forall|s: Seq<char>| #[trigger] vias@.contains(s) <==> leads_on(nodes@, s),
            r@ == outermost(nodes@, nodes@.take(i as int)),
        decreases nodes@.len() - i,
    {
        proof {
            assert(nodes@.take(i + 1).drop_last() =~= nodes@.take(i as int));
            assert(nodes@.take(i + 1).last() == nodes@[i as int]);
        }
        if !vias.contains(nodes[i].symbol.as_str()) {
            r.push(nodes[i]);
        }
        i += 1;
    }
    assert(nodes@.take(i as int) =~= nodes@);
    r
}

/// The place of the first node of that depth and symbol, or -1.
pub open spec fn node_at(nodes: Seq<&CallGraphNode>, depth: int, symbol: Seq<char>) -> int
    decreases nodes.len(),
{
    if nodes.len() == 0 {
        -1
    } else {
        let d = node_at(nodes.drop_last(), depth, symbol);
        if d < 0 && nodes.last().depth == depth && nodes.last().symbol@ == symbol {
            nodes.len() - 1
        } else {
            d
        }
    }
}

proof fn lemma_node_at(nodes: Seq<&CallGraphNode>, depth: int, symbol: Seq<char>)
    ensures
        -1 <= node_at(nodes, depth, symbol) < nodes.len(),
        node_at(nodes, depth, symbol) >= 0 ==> nodes[node_at(nodes, depth, symbol)].depth == depth
            && nodes[node_at(nodes, depth, symbol)].symbol@ == symbol,
    decreases nodes.len(),
{
    if nodes.len() > 0 {
        lemma_node_at(nodes.drop_last(), depth, symbol);
    }
}

/// The place of the node that a node was reached through, or -1 where it was
/// reached from a root.
pub open spec fn parent_of(nodes: Seq<&CallGraphNode>, node: CallGraphNode) -> int {
    if node.via_symbol is Some && node.depth >= 2 {
        node_at(nodes, node.depth - 1, node.via_symbol->0@)
    } else {
        -1
    }
}

/// The chain from a node back to the one next to a root, the node first.
pub open spec fn chain_from<'a>(
    nodes: Seq<&'a CallGraphNode>,
    node: &'a CallGraphNode,
) -> Seq<&'a CallGraphNode>
    decreases node.depth,
    via chain_from_ends
{
    let p = parent_of(nodes, *node);
    if p < 0 {
        seq![node]
    } else {
        seq![node] + chain_from(nodes, nodes[p])
    }
}

#[via_fn]
proof fn chain_from_ends<'a>(nodes: Seq<&'a CallGraphNode>, node: &'a CallGraphNode) {
    if node.via_symbol is Some && node.depth >= 2 {
        lemma_node_at(nodes, node.depth - 1, node.via_symbol->0@);
    }
}

/// Each step of a chain goes from a node to the one it was reached through,
/// one hop nearer to a root.
pub proof fn lemma_chain_from<'a>(nodes: Seq<&'a CallGraphNode>, node: &'a CallGraphNode)
    ensures
        chain_from(nodes, node).len() >= 1,
        chain_from(nodes, node)[0] == node,
        forall|i: int|
            0 <= i < chain_from(nodes, node).len() - 1 ==> {
                let a = #[trigger] chain_from(nodes, node)[i];
                let b = chain_from(nodes, node)[i + 1];
                opt_text(a.via_symbol) == Some(b.symbol@) && b.depth == a.depth - 1
            },
        parent_of(nodes, *chain_from(nodes, node).last()) < 0,
    decreases node.depth,
{
    let p = parent_of(nodes, *node);
    if p >= 0 {
        lemma_node_at(nodes, node.depth - 1, node.via_symbol->0@);
        lemma_chain_from(nodes, nodes[p]);
        let c = chain_from(nodes, node);
        let rest = chain_from(nodes, nodes[p]);
        assert forall|i: int| 0 <= i < c.len() - 1 implies {
            let a = #[trigger] c[i];
            let b = c[i + 1];
            opt_text(a.via_symbol) == Some(b.symbol@) && b.depth == a.depth - 1
        } by {
            assert(c[i + 1] == rest[i]);
            if i > 0 {
                assert(c[i] == rest[i - 1]);
            }
        }
        assert(c.last() == rest.last());
    }
}

/// Where the first node of that depth and symbol stands.
fn find_node(nodes: &[&CallGraphNode], depth: usize, symbol: &str) -> (r: Option<usize>)
    ensures
        r matches Some(i) ==> i == node_at(nodes@, depth as int, symbol@) && i < nodes@.len(),
        r is None ==> node_at(nodes@, depth as int, symbol@) < 0,
{
    let mut found: Option<usize> = None;
    let mut i: usize = 0;
    while i < nodes.len()
        invariant
            i <= nodes@.len(),
            found matches Some(k) ==> k < i && k == node_at(
                nodes@.take(i as int),
                depth as int,
                symbol@,
            ),
            found is None ==> node_at(nodes@.take(i as int), depth as int, symbol@) < 0,
        decreases nodes@.len() - i,
    {
        proof {
            assert(nodes@.take(i + 1).drop_last() =~= nodes@.take(i as int));
            assert(nodes@.take(i + 1).last() == nodes@[i as int]);
        }
        if found.is_none() && nodes[i].depth == depth && same_text(
            nodes[i].symbol.as_str(),
            symbol,
        ) {
            found = Some(i);
        }
        i += 1;
    }
    assert(nodes@.take(i as int) =~= nodes@);
    found
}

/// Walks from `leaf` back toward the root of the query; the leaf stands first.
pub fn trace_path<'a>(leaf: &'a CallGraphNode, nodes: &[&'a CallGraphNode]) -> (r: Vec<
    &'a CallGraphNode,
>)
    ensures
        r@ == chain_from(nodes@, leaf),
{
    let mut path: Vec<&'a CallGraphNode> = Vec::new();
    let mut current: &'a CallGraphNode = leaf;
    path.push(leaf);
    let ghost mut done: Seq<&'a CallGraphNode> = Seq::empty();
    proof {
        assert(done + chain_from(nodes@, leaf) =~= chain_from(nodes@, leaf));
        assert(path@ =~= done.push(leaf));
    }
    loop
        invariant
            path@ == done.push(current),
            done + chain_from(nodes@, current) == chain_from(nodes@, leaf),
        decreases current.depth,
    {
        let parent = match &current.via_symbol {
            Some(via) => if current.depth >= 2 {
                find_node(nodes, current.depth - 1, via.as_str())
            } else {
                None
            },
            None => None,
        };
        match parent {
            Some(p) => {
                proof {
                    lemma_node_at(nodes@, current.depth - 1, current.via_symbol->0@);
                    let c = chain_from(nodes@, current);
                    let rest = chain_from(nodes@, nodes@[p as int]);
                    assert(c == seq![current] + rest);
                    assert(done + (seq![current] + rest) =~= done.push(current) + rest);
                    done = done.push(current);
                }
                path.push(nodes[p]);
                current = nodes[p];
            },
            None => {
                assert(chain_from(nodes@, current) == seq![current]);
                assert(done + seq![current] =~= done.push(current));
                return path;
            },
        }
    }
}

/// The views of paths.
pub open spec fn path_lists<'a>(v: Seq<Vec<&'a CallGraphNode>>) -> Seq<Seq<&'a CallGraphNode>> {
    Seq::new(v.len(), |i: int| v[i]@)
}

/// One chain for each of the outermost nodes.
pub open spec fn chains<'a>(nodes: Seq<&'a CallGraphNode>) -> Seq<Seq<&'a CallGraphNode>> {
    let leaves = outermost(nodes, nodes);
    Seq::new(leaves.len(), |i: int| chain_from(nodes, leaves[i]))
}

/// One chain for each leaf, the leaf first.
pub fn all_paths<'a>(nodes: &[&'a CallGraphNode]) -> (r: Vec<Vec<&'a CallGraphNode>>)
    ensures
        path_lists(r@) == chains(nodes@),
{
    let leaves = leaf_nodes(nodes);
    let mut r: Vec<Vec<&'a CallGraphNode>> = Vec::new();
    let mut i: usize = 0;
    while i < leaves.len()
        invariant
            i <= leaves@.len(),
            leaves@ == outermost(nodes@, nodes@),
            r@.len() == i,
            forall|k: int| 0 <= k < i ==> #[trigger] path_lists(r@)[k] == chains(nodes@)[k],
        decreases leaves@.len() - i,
    {
        let ghost before = r@;
        let path = trace_path(leaves[i], nodes);
        r.push(path);
        proof {
            assert forall|k: int| 0 <= k < i + 1 implies #[trigger] path_lists(r@)[k] == chains(
                nodes@,
            )[k] by {
                if k < i {
                    assert(path_lists(before)[k] == chains(nodes@)[k]);
                }
            }
        }
        i += 1;
    }
    assert(path_lists(r@) =~= chains(nodes@));
    r
}

/// The nodes of all levels, level by level.
pub open spec fn flat<'a>(by_depth: Seq<Vec<CallGraphNode>>) -> Seq<&'a CallGraphNode>
    decreases by_depth.len(),
{
    if by_depth.len() == 0 {
        Seq::empty()
    } else {
        let d = flat(by_depth.drop_last());
        let v = by_depth.last()@;
        d + Seq::new(v.len(), |i: int| &v[i])
    }
}

/// References to the nodes of all levels, level by level.
pub fn flatten<'a>(by_depth: &'a [Vec<CallGraphNode>]) -> (r: Vec<&'a CallGraphNode>)
    ensures
        r@ == flat(by_depth@),
{
    let mut r: Vec<&'a CallGraphNode> = Vec::new();
    let mut i: usize = 0;
    while i < by_depth.len()
        invariant
            i <= by_depth@.len(),
            r@ == flat(by_depth@.take(i as int)),
        decreases by_depth@.len() - i,
    {
        let level = &by_depth[i];
        let ghost before = r@;
        let ghost want: Seq<&'a CallGraphNode> = Seq::new(level@.len(), |k: int| &level@[k]);
        proof {
            assert(by_depth@.take(i + 1).drop_last() =~= by_depth@.take(i as int));
            assert(by_depth@.take(i + 1).last() == by_depth@[i as int]);
        }
        let mut j: usize = 0;
        assert(before + want.take(0) =~= before);
        while j < level.len()
            invariant
                j <= level@.len(),
                want.len() == level@.len(),
                forall|k: int| 0 <= k < want.len() ==> want[k] == &level@[k],
                r@ == before + want.take(j as int),
            decreases level@.len() - j,
        {
            proof {
                assert(want.take(j + 1) =~= want.take(j as int).push(&level@[j as int]));
                assert((before + want.take(j as int)).push(&level@[j as int]) =~= before
                    + want.take(j as int).push(&level@[j as int]));
            }
            r.push(&level[j]);
            j += 1;
        }
        assert(want.take(j as int) =~= want);
        i += 1;
    }
    assert(by_depth@.take(i as int) =~= by_depth@);
    r
}

} // verus!
