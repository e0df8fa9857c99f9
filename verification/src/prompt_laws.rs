//! What a model is shown, and what is read from its answer.

use vstd::prelude::*;
use crate::call_graph_traversal::CallGraphNode;
use crate::claim_dream_prompt::claim_lines;
use crate::claim_ingestion_prompt::{prior_lines, prior_section, said, spoken};
use crate::claims::{Claim, SessionMessage};
use crate::explain::{
    Source, callee_section, caller_section, inventory, inventory_section, node_block, node_blocks,
    path_block, path_blocks, path_symbols, prompt_text, root_section, source_block, source_text,
    symbols_of,
};
use crate::json::text_field;
use crate::markdown::{
    fence_open, find_star, is_fence, plain_line, plain_lines, shown_from, tag_content, unpaired,
};
use crate::memory::MemoryItem;
use crate::memory_dream_prompt::{cluster_entries, cluster_entry, listing_entries, listing_entry};
use crate::memory_extraction::{name_chars, snake_case};
use crate::order::lemma_distinct;
use crate::text::{
    contains_text, decimal, find_text, is_space, join, lacks, lemma_find_from, occurs_at, opt_text,
    starts_with, trim, trim_start,
};
use crate::text_laws::lemma_parts_occur;

verus! {

proof fn lemma_holds(s: Seq<char>, x: Seq<char>, front: Seq<char>, back: Seq<char>)
    requires
        s == front + x + back,
    ensures
        contains_text(s, x),
{
    lemma_parts_occur(front, x, back);
}

proof fn lemma_still_holds(a: Seq<char>, b: Seq<char>, x: Seq<char>)
    ensures
        contains_text(a, x) || contains_text(b, x) ==> contains_text(a + b, x),
{
    lemma_find_from(a, x, 0);
    lemma_find_from(b, x, 0);
    lemma_find_from(a + b, x, 0);
    let n = x.len() as int;
    if contains_text(a, x) {
        let i = find_text(a, x);
        assert(occurs_at(a, x, i));
        assert((a + b).subrange(i, i + n) =~= a.subrange(i, i + n));
        assert(occurs_at(a + b, x, i));
    } else if contains_text(b, x) {
        let i = find_text(b, x);
        assert(occurs_at(b, x, i));
        let j = a.len() + i;
        assert((a + b).subrange(j, j + n) =~= b.subrange(i, i + n));
        assert(occurs_at(a + b, x, j));
    }
}

/// Every prior claim is shown with its id and its statement.
pub proof fn lemma_prior_is_shown(prior: Seq<Claim>, k: int)
    requires
        0 <= k < prior.len(),
    ensures
        contains_text(prior_section(prior), prior[k].id@ + " — "@ + prior[k].statement@ + "\n"@),
{
    let x = prior[k].id@ + " — "@ + prior[k].statement@ + "\n"@;
    lemma_prior_line(prior, k);
    lemma_still_holds("PRIOR CLAIMS (id — statement):\n"@, prior_lines(prior), x);
    lemma_still_holds("PRIOR CLAIMS (id — statement):\n"@ + prior_lines(prior), "\n"@, x);
}

proof fn lemma_prior_line(prior: Seq<Claim>, k: int)
    requires
        0 <= k < prior.len(),
    ensures
        contains_text(prior_lines(prior), prior[k].id@ + " — "@ + prior[k].statement@ + "\n"@),
    decreases prior.len(),
{
    let x = prior[k].id@ + " — "@ + prior[k].statement@ + "\n"@;
    let d = prior.drop_last();
    let last = prior.last();
    let line = "- "@ + last.id@ + " — "@ + last.statement@ + "\n"@;
    assert(prior_lines(prior) =~= prior_lines(d) + line);
    if k < d.len() {
        assert(d[k] == prior[k]);
        lemma_prior_line(d, k);
        lemma_still_holds(prior_lines(d), line, x);
    } else {
        let front = prior_lines(d) + "- "@;
        assert(prior_lines(prior) =~= front + x + Seq::<char>::empty());
        lemma_holds(prior_lines(prior), x, front, Seq::empty());
    }
}

/// Every claim of a cluster is shown by its statement.
pub proof fn lemma_cluster_is_shown(cluster: Seq<Claim>, k: int)
    requires
        0 <= k < cluster.len(),
    ensures
        contains_text(claim_lines(cluster), "- "@ + cluster[k].statement@ + "\n"@),
    decreases cluster.len(),
{
    let x = "- "@ + cluster[k].statement@ + "\n"@;
    let d = cluster.drop_last();
    let line = "- "@ + cluster.last().statement@ + "\n"@;
    assert(claim_lines(cluster) =~= claim_lines(d) + line);
    if k < d.len() {
        assert(d[k] == cluster[k]);
        lemma_cluster_is_shown(d, k);
        lemma_still_holds(claim_lines(d), line, x);
    } else {
        lemma_holds(claim_lines(cluster), x, claim_lines(d), Seq::empty());
    }
}

/// Every item of a cluster is shown by its kind, its name and, as far as the limit
/// goes, its content.
pub proof fn lemma_items_are_shown(items: Seq<MemoryItem>, k: int)
    requires
        0 <= k < items.len(),
    ensures
        contains_text(
            cluster_entries(items),
            "### ["@ + items[k].kind.text() + "] "@ + items[k].name@ + "\n"@,
        ),
        items[k].content@.len() <= 2_000 ==> contains_text(
            cluster_entries(items),
            items[k].content@,
        ),
        contains_text(
            listing_entries(items),
            "- ["@ + items[k].kind.text() + "] "@ + items[k].name@ + " (scope: "@,
        ),
    decreases items.len(),
{
    let a = "### ["@ + items[k].kind.text() + "] "@ + items[k].name@ + "\n"@;
    let b = items[k].content@;
    let c = "- ["@ + items[k].kind.text() + "] "@ + items[k].name@ + " (scope: "@;
    let d = items.drop_last();
    let entry = cluster_entry(items.last());
    let row = listing_entry(items.last());
    if k < d.len() {
        assert(d[k] == items[k]);
        lemma_items_are_shown(d, k);
    } else {
        lemma_entry_shows(items[k]);
    }
    lemma_still_holds(cluster_entries(d), entry, a);
    lemma_still_holds(cluster_entries(d), entry, b);
    lemma_still_holds(listing_entries(d), row, c);
}

proof fn lemma_entry_shows(item: MemoryItem)
    ensures
        contains_text(
            cluster_entry(item),
            "### ["@ + item.kind.text() + "] "@ + item.name@ + "\n"@,
        ),
        item.content@.len() <= 2_000 ==> contains_text(cluster_entry(item), item.content@),
        contains_text(
            listing_entry(item),
            "- ["@ + item.kind.text() + "] "@ + item.name@ + " (scope: "@,
        ),
{
    reveal_strlit("\n- scope: ");
    reveal_strlit("\n");
    let s = cluster_entry(item);
    let a = "### ["@ + item.kind.text() + "] "@ + item.name@ + "\n"@;
    assert(s.take(a.len() as int) =~= a);
    assert(s =~= Seq::<char>::empty() + a + s.skip(a.len() as int));
    lemma_holds(s, a, Seq::empty(), s.skip(a.len() as int));
    if item.content@.len() <= 2_000 {
        let end = s.len() - "\n\n"@.len();
        let start = end - item.content@.len();
        assert(s.subrange(start, end) =~= item.content@);
        assert(s =~= s.take(start) + item.content@ + s.skip(end));
        lemma_holds(s, item.content@, s.take(start), s.skip(end));
    }
    let l = listing_entry(item);
    let c = "- ["@ + item.kind.text() + "] "@ + item.name@ + " (scope: "@;
    assert(l.take(c.len() as int) =~= c);
    assert(l =~= Seq::<char>::empty() + c + l.skip(c.len() as int));
    lemma_holds(l, c, Seq::empty(), l.skip(c.len() as int));
}

/// The transcript has one line for each message that is more than space: who
/// spoke, and what.
pub proof fn lemma_transcript_lines(messages: Seq<SessionMessage>, k: int)
    requires
        0 <= k < messages.len(),
    ensures
        trim(messages[k].content@).len() > 0 ==> spoken(messages).contains(
            messages[k].role@ + ": "@ + messages[k].content@,
        ),
        messages[k].role@ != "system"@ ==> said(messages).contains(messages[k].content@),
    decreases messages.len(),
{
    let d = messages.drop_last();
    let x = messages[k].role@ + ": "@ + messages[k].content@;
    let y = messages[k].content@;
    if k < d.len() {
        assert(d[k] == messages[k]);
        lemma_transcript_lines(d, k);
        if spoken(d).contains(x) {
            let i = choose|i: int| 0 <= i < spoken(d).len() && spoken(d)[i] == x;
            assert(spoken(messages)[i] == x);
        }
        if said(d).contains(y) {
            let i = choose|i: int| 0 <= i < said(d).len() && said(d)[i] == y;
            assert(said(messages)[i] == y);
        }
    } else {
        if trim(y).len() > 0 {
            assert(spoken(messages)[spoken(d).len() as int] == x);
        }
        if messages[k].role@ != "system"@ {
            assert(said(messages)[said(d).len() as int] == y);
        }
    }
}

/// What a system message says is not what the conversation is searched by, unless
/// another says it too.
pub proof fn lemma_system_is_unsaid(messages: Seq<SessionMessage>, x: Seq<char>)
    requires
        forall|k: int|
            0 <= k < messages.len() && (#[trigger] messages[k]).content@ == x
                ==> messages[k].role@ == "system"@,
    ensures
        !said(messages).contains(x),
    decreases messages.len(),
{
    if messages.len() > 0 {
        let d = messages.drop_last();
        assert forall|k: int| 0 <= k < d.len() && (#[trigger] d[k]).content@ == x implies d[k].role@
            == "system"@ by {
            assert(d[k] == messages[k]);
        }
        lemma_system_is_unsaid(d, x);
        if said(messages).contains(x) {
            let i = choose|i: int| 0 <= i < said(messages).len() && said(messages)[i] == x;
            if i < said(d).len() {
                assert(said(d)[i] == x);
            } else {
                assert(messages[messages.len() - 1].content@ == x);
            }
        }
    }
}

/// A name of letters, digits and single marks between them is its own normal
/// form, cut to sixty-four characters.
pub proof fn lemma_snake_case(s: Seq<char>)
    requires
        s.len() > 0,
        forall|i: int|
            0 <= i < s.len() ==> (crate::unicode::alphanumeric_char(#[trigger] s[i]) || s[i] == '_')
                && !is_space(s[i]) && s[i] != '-',
        s[0] != '_',
        s.last() != '_',
    ensures
        snake_case(s) == Some(
            if s.len() <= 64 {
                s
            } else {
                s.take(64)
            },
        ),
{
    lemma_name_stays(s);
}

proof fn lemma_name_stays(s: Seq<char>)
    requires
        forall|i: int|
            0 <= i < s.len() ==> (crate::unicode::alphanumeric_char(#[trigger] s[i]) || s[i] == '_')
                && !is_space(s[i]) && s[i] != '-',
    ensures
        name_chars(s) == s,
    decreases s.len(),
{
    if s.len() > 0 {
        let d = s.drop_last();
        assert forall|i: int| 0 <= i < d.len() implies (crate::unicode::alphanumeric_char(
            #[trigger] d[i],
        ) || d[i] == '_') && !is_space(d[i]) && d[i] != '-' by {
            assert(d[i] == s[i]);
        }
        lemma_name_stays(d);
        let c = s[s.len() - 1];
        assert(crate::unicode::alphanumeric_char(c) || c == '_');
        assert(d.push(s.last()) =~= s);
    }
}

/// The text of a symbol is that of its source in the same file.
pub proof fn lemma_source_is_found(sources: Seq<Source>, p: int)
    requires
        0 <= p < sources.len(),
        forall|i: int|
            p < i < sources.len() ==> !((#[trigger] sources[i]).0@ == sources[p].0@ && sources[i].2@
                == sources[p].2@),
    ensures
        source_text(sources, sources[p].0@, sources[p].2@) == opt_text(sources[p].4),
    decreases sources.len(),
{
    let d = sources.drop_last();
    if p < d.len() {
        assert(d[p] == sources[p]);
        assert forall|i: int| p < i < d.len() implies !((#[trigger] d[i]).0@ == d[p].0@ && d[i].2@
            == d[p].2@) by {
            assert(d[i] == sources[i]);
        }
        lemma_source_is_found(d, p);
        let last = sources[sources.len() - 1];
        assert(!(last.0@ == sources[p].0@ && last.2@ == sources[p].2@));
    }
}

/// How a node is shown: by its symbol, file and line, and its source.
pub open spec fn shows_node(text: Seq<char>, sources: Seq<Source>, n: CallGraphNode) -> bool {
    &&& contains_text(
        text,
        "#### `"@ + n.symbol@ + "` — `"@ + n.file_path@ + ":"@ + decimal(n.line as nat) + "`\n"@,
    )
    &&& source_text(sources, n.symbol@, n.file_path@) matches Some(src) ==> contains_text(text, src)
}

proof fn lemma_shows_more(a: Seq<char>, b: Seq<char>, sources: Seq<Source>, n: CallGraphNode)
    ensures
        shows_node(a, sources, n) || shows_node(b, sources, n) ==> shows_node(a + b, sources, n),
{
    let x = "#### `"@ + n.symbol@ + "` — `"@ + n.file_path@ + ":"@ + decimal(n.line as nat)
        + "`\n"@;
    lemma_still_holds(a, b, x);
    if let Some(src) = source_text(sources, n.symbol@, n.file_path@) {
        lemma_still_holds(a, b, src);
    }
}

proof fn lemma_node_block_shows(sources: Seq<Source>, n: CallGraphNode)
    ensures
        shows_node(node_block(sources, n), sources, n),
{
    let x = "#### `"@ + n.symbol@ + "` — `"@ + n.file_path@ + ":"@ + decimal(n.line as nat)
        + "`\n"@;
    let block = source_block(source_text(sources, n.symbol@, n.file_path@));
    let s = node_block(sources, n);
    assert(s =~= Seq::<char>::empty() + x + (block + "\n\n"@));
    lemma_holds(s, x, Seq::empty(), block + "\n\n"@);
    if let Some(src) = source_text(sources, n.symbol@, n.file_path@) {
        assert(s =~= (x + "```\n"@) + src + ("\n```"@ + "\n\n"@));
        lemma_holds(s, src, x + "```\n"@, "\n```"@ + "\n\n"@);
    }
}

proof fn lemma_node_blocks_show(sources: Seq<Source>, nodes: Seq<&CallGraphNode>, k: int)
    requires
        0 <= k < nodes.len(),
    ensures
        shows_node(node_blocks(sources, nodes), sources, *nodes[k]),
    decreases nodes.len(),
{
    let d = nodes.drop_last();
    if k < d.len() {
        assert(d[k] == nodes[k]);
        lemma_node_blocks_show(sources, d, k);
    } else {
        lemma_node_block_shows(sources, *nodes[k]);
    }
    lemma_shows_more(
        node_blocks(sources, d),
        node_block(sources, *nodes.last()),
        sources,
        *nodes[k],
    );
}

proof fn lemma_path_blocks_show(
    sources: Seq<Source>,
    root: Seq<char>,
    paths: Seq<Seq<&CallGraphNode>>,
    i: int,
    k: int,
)
    requires
        0 <= i < paths.len(),
        0 <= k < paths[i].len(),
    ensures
        shows_node(path_blocks(sources, root, paths), sources, *paths[i][k]),
    decreases paths.len(),
{
    let d = paths.drop_last();
    let last = path_block(sources, root, paths.last(), paths.len());
    if i < d.len() {
        assert(d[i] == paths[i]);
        lemma_path_blocks_show(sources, root, d, i, k);
    } else {
        lemma_node_blocks_show(sources, paths[i], k);
        let head = "### Path "@ + decimal(paths.len()) + " — `"@ + join(
            symbols_of(paths.last()).push(root),
            " → "@,
        ) + "`\n\n"@;
        lemma_shows_more(head, node_blocks(sources, paths.last()), sources, *paths[i][k]);
    }
    lemma_shows_more(path_blocks(sources, root, d), last, sources, *paths[i][k]);
}

/// The request for an explanation shows every caller on every path and every
/// callee, with its source where there is one.
pub proof fn lemma_request_shows_all(
    root: Seq<char>,
    root_source: Option<(Seq<char>, Seq<char>)>,
    paths: Seq<Seq<&CallGraphNode>>,
    callees: Seq<&CallGraphNode>,
    sources: Seq<Source>,
    i: int,
    k: int,
)
    ensures
        0 <= i < paths.len() && 0 <= k < paths[i].len() ==> shows_node(
            prompt_text(root, root_source, paths, callees, sources),
            sources,
            *paths[i][k],
        ),
        0 <= k < callees.len() ==> shows_node(
            prompt_text(root, root_source, paths, callees, sources),
            sources,
            *callees[k],
        ),
        root_source matches Some((file, text)) ==> contains_text(
            prompt_text(root, root_source, paths, callees, sources),
            text,
        ),
{
    let a = root_section(root, root_source);
    let b = caller_section(sources, root, paths);
    let c = callee_section(sources, root, callees);
    let d = inventory_section(root, paths, callees);
    if 0 <= i < paths.len() && 0 <= k < paths[i].len() {
        let n = *paths[i][k];
        lemma_path_blocks_show(sources, root, paths, i, k);
        let head = "## Caller paths ("@ + decimal(paths.len()) + " total)\n\n"@;
        lemma_shows_more(head, path_blocks(sources, root, paths), sources, n);
        lemma_shows_more(a, b, sources, n);
        lemma_shows_more(a + b, c, sources, n);
        lemma_shows_more(a + b + c, d, sources, n);
    }
    if 0 <= k < callees.len() {
        let n = *callees[k];
        lemma_node_blocks_show(sources, callees, k);
        let head = "## Callees of `"@ + root + "` ("@ + decimal(callees.len()) + " total)\n\n"@;
        lemma_shows_more(head, node_blocks(sources, callees), sources, n);
        lemma_shows_more(a + b, c, sources, n);
        lemma_shows_more(a + b + c, d, sources, n);
    }
    if let Some((file, text)) = root_source {
        let head = "# Call-flow explanation request: `"@ + root + "`\n\n## Root symbol — `"@ + root
            + "`\n"@;
        let front = head + "Source from `"@ + file + "`:\n```\n"@;
        assert(a =~= front + text + "\n```\n\n"@);
        lemma_holds(a, text, front, "\n```\n\n"@);
        lemma_still_holds(a, b, text);
        lemma_still_holds(a + b, c, text);
        lemma_still_holds(a + b + c, d, text);
    }
}

/// The symbols listed are the root, those on the paths and the callees.
pub proof fn lemma_inventory(
    root: Seq<char>,
    paths: Seq<Seq<&CallGraphNode>>,
    callees: Seq<&CallGraphNode>,
    i: int,
    k: int,
)
    ensures
        inventory(root, paths, callees).contains(root),
        0 <= k < callees.len() ==> inventory(root, paths, callees).contains(callees[k].symbol@),
        0 <= i < paths.len() && 0 <= k < paths[i].len() ==> inventory(
            root,
            paths,
            callees,
        ).contains(paths[i][k].symbol@),
        paths.len() > 0 ==> inventory(root, paths, callees).no_duplicates(),
{
    let a = seq![root];
    let b = path_symbols(paths);
    let c = symbols_of(callees);
    let all = a + b + c;
    lemma_distinct(all);
    assert(all[0] == root);
    assert(all.contains(root));
    if 0 <= k < callees.len() {
        assert(all[a.len() + b.len() + k] == callees[k].symbol@);
        assert(all.contains(callees[k].symbol@));
    }
    if 0 <= i < paths.len() && 0 <= k < paths[i].len() {
        lemma_path_symbols(paths, i, k);
        let x = paths[i][k].symbol@;
        let m = choose|m: int| 0 <= m < b.len() && b[m] == x;
        assert(all[1 + m] == x);
        assert(all.contains(x));
    }
}

proof fn lemma_path_symbols(paths: Seq<Seq<&CallGraphNode>>, i: int, k: int)
    requires
        0 <= i < paths.len(),
        0 <= k < paths[i].len(),
    ensures
        path_symbols(paths).contains(paths[i][k].symbol@),
    decreases paths.len(),
{
    let d = paths.drop_last();
    let x = paths[i][k].symbol@;
    let before = path_symbols(d);
    let all = path_symbols(paths);
    if i < d.len() {
        assert(d[i] == paths[i]);
        lemma_path_symbols(d, i, k);
        let m = choose|m: int| 0 <= m < before.len() && before[m] == x;
        assert(all[m] == x);
    } else {
        assert(all[before.len() + k] == x);
    }
}

/// A field of an object is the first of its name.
pub proof fn lemma_first_field(fields: Seq<(Seq<char>, Option<Seq<char>>)>, p: int)
    requires
        0 <= p < fields.len(),
        forall|i: int| 0 <= i < p ==> (#[trigger] fields[i]).0 != fields[p].0,
    ensures
        text_field(fields, fields[p].0) == fields[p].1,
    decreases fields.len(),
{
    if p > 0 {
        let d = fields.skip(1);
        assert(fields[0].0 != fields[p].0);
        assert(d[p - 1] == fields[p]);
        assert forall|i: int| 0 <= i < p - 1 implies (#[trigger] d[i]).0 != d[p - 1].0 by {
            assert(d[i] == fields[i + 1]);
        }
        lemma_first_field(d, p - 1);
    }
}

proof fn lemma_first_at(front: Seq<char>, x: Seq<char>, back: Seq<char>)
    requires
        x.len() > 0,
        lacks(front, x[0]),
    ensures
        find_text(front + x + back, x) == front.len(),
{
    let s = front + x + back;
    let n = front.len() as int;
    lemma_find_from(s, x, 0);
    assert(s.subrange(n, n + x.len()) =~= x);
    assert(occurs_at(s, x, n));
    let f = find_text(s, x);
    if f < n {
        assert(s.subrange(f, f + x.len())[0] == s[f]);
        assert(s[f] == front[f]);
    }
}

/// What stands between a tag and its end is the content of the section.
pub proof fn lemma_tag_content(
    front: Seq<char>,
    tag: Seq<char>,
    content: Seq<char>,
    back: Seq<char>,
)
    requires
        lacks(front, '<'),
        lacks(content, '<'),
    ensures
        tag_content(front + ("<"@ + tag + ">"@) + (content + ("</"@ + tag + ">"@) + back), tag)
            == Some(content),
{
    reveal_strlit("<");
    reveal_strlit("</");
    let open = "<"@ + tag + ">"@;
    let close = "</"@ + tag + ">"@;
    let rest = content + close + back;
    let s = front + open + rest;
    assert(open[0] == '<' && close[0] == '<');
    lemma_first_at(front, open, rest);
    assert(s.skip((front.len() + open.len()) as int) =~= rest);
    lemma_first_at(content, close, back);
    assert(rest.take(content.len() as int) =~= content);
}

/// A text without a tag has no such section.
pub proof fn lemma_no_tag(s: Seq<char>, tag: Seq<char>)
    requires
        lacks(s, '<'),
    ensures
        tag_content(s, tag) is None,
{
    reveal_strlit("<");
    let open = "<"@ + tag + ">"@;
    assert(open[0] == '<');
    lemma_find_from(s, open, 0);
    let f = find_text(s, open);
    if f >= 0 {
        assert(s.subrange(f, f + open.len())[0] == s[f]);
    }
}

/// The line starts a fence, or ends one.
pub open spec fn fences() -> spec_fn(Seq<char>) -> bool {
    |line: Seq<char>| starts_with(trim_start(line), "```"@)
}

/// A line between fences stays as it is, and so do the fences.
pub proof fn lemma_fenced_lines_stay(ls: Seq<Seq<char>>, line: Seq<char>)
    requires
        crate::picks::count_where(ls, fences()) % 2 == 1 || fences()(line),
    ensures
        plain_lines(ls.push(line)) == plain_lines(ls) + line + seq!['\n'],
{
    lemma_fence_open(ls);
    assert(ls.push(line).drop_last() =~= ls);
}

proof fn lemma_fence_open(ls: Seq<Seq<char>>)
    ensures
        fence_open(ls) == (crate::picks::count_where(ls, fences()) % 2 == 1),
    decreases ls.len(),
{
    if ls.len() > 0 {
        lemma_fence_open(ls.drop_last());
        assert(fences()(ls.last()) == is_fence(ls.last()));
    }
}

proof fn lemma_all_shown(s: Seq<char>, i: int)
    requires
        lacks(s, '`'),
        0 <= i <= s.len(),
    ensures
        shown_from(s, i) == s.skip(i),
    decreases s.len() - i,
{
    if i < s.len() {
        lemma_all_shown(s, i + 1);
        assert(seq![s[i]] + s.skip(i + 1) =~= s.skip(i));
    } else {
        assert(s.skip(i) =~= Seq::<char>::empty());
    }
}

/// Bold text is shown plain.
pub proof fn lemma_bold_is_plain(a: Seq<char>, b: Seq<char>, c: Seq<char>)
    requires
        lacks(a, '*') && lacks(b, '*') && lacks(c, '*'),
        lacks(a, '`') && lacks(b, '`') && lacks(c, '`'),
    ensures
        plain_line(a + "**"@ + (b + "**"@ + c)) == a + b + c,
{
    reveal_strlit("**");
    let m = "**"@;
    let rest = b + m + c;
    let s = a + m + rest;
    assert(lacks(s, '`')) by {
        assert forall|i: int| 0 <= i < s.len() implies s[i] != '`' by {
            let n = a.len() as int;
            let k = b.len() as int;
            if i < n {
                assert(s[i] == a[i]);
            } else if i < n + 2 {
                assert(s[i] == m[i - n]);
            } else if i < n + 2 + k {
                assert(s[i] == b[i - n - 2]);
            } else if i < n + 4 + k {
                assert(s[i] == m[i - n - 2 - k]);
            } else {
                assert(s[i] == c[i - n - 4 - k]);
            }
        }
    }
    lemma_all_shown(s, 0);
    assert(s.skip(0) =~= s);
    lemma_first_at(a, m, rest);
    assert(s.skip((a.len() + 2) as int) =~= rest);
    lemma_first_at(b, m, c);
    let next = a.len() + 4 + b.len();
    assert(s.skip(next as int) =~= c);
    lemma_find_from(c, m, 0);
    let f = find_text(c, m);
    if f >= 0 {
        assert(c.subrange(f, f + 2)[0] == c[f]);
    }
    assert(unpaired(c, c, m) == c);
    assert(s.take(a.len() as int) =~= a);
    assert(s.subrange((a.len() + 2) as int, (a.len() + 2 + b.len()) as int) =~= b);
    let t = a + b + c;
    assert(unpaired(s, s, m) =~= t);
    assert(!t.contains('*')) by {
        if t.contains('*') {
            let i = choose|i: int| 0 <= i < t.len() && t[i] == '*';
            if i < a.len() {
                assert(a[i] == '*');
            } else if i < a.len() + b.len() {
                assert(b[i - a.len()] == '*');
            } else {
                assert(c[i - a.len() - b.len()] == '*');
            }
        }
    }
    lemma_no_star(t, 0);
    assert(t.skip(0) =~= t);
}

proof fn lemma_no_star(s: Seq<char>, from: int)
    requires
        !s.contains('*'),
        0 <= from,
    ensures
        find_star(s, true, from) == -1,
        find_star(s, false, from) == -1,
    decreases s.len() - from,
{
    if from < s.len() {
        assert(s[from] != '*') by {
            if s[from] == '*' {
                assert(s.contains('*'));
            }
        }
        lemma_no_star(s, from + 1);
    }
}

} // verus!
