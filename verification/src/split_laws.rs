//! What the groups of a split owe to the edges between the files.

use vstd::prelude::*;
use crate::domain::{FileEdge, FileGraph, FileGraphRepo};
use crate::order::{
    Ranked, arranged, lemma_arranged, lemma_arranged_contains, lemma_distinct, lemma_sorted,
    sorted_texts,
};
use crate::picks::{gives, lemma_picks, lemma_picks_once, picks, picks_once};
use crate::split_analysis::{
    SplitAnalysis, SplitGroup, SplitGroupView, all_fingerprints, consumer_texts, consumers_of,
    count_in_target, files_with, fingerprint, fingerprints_of, group_id, group_of, group_views,
    groups_of, in_target, internal_files, is_analysis, is_consumer, is_inbound, is_internal,
    known_consumers, public_files, repo_at, repo_label, repo_labels, supporting, used_only_by,
};
use crate::text::{join, lacks, texts};

verus! {

/// Another repository uses the file of the target.
pub open spec fn is_used_from(
    edges: Seq<FileEdge>,
    target: Seq<char>,
    file: Seq<char>,
    from: Seq<char>,
) -> bool {
    exists|i: int|
        0 <= i < edges.len() && (#[trigger] edges[i]).to_repo_id@ == target && edges[i].to_file@
            == file && edges[i].from_repo_id@ == from && from != target
}

/// Some other repository uses the file of the target.
pub open spec fn is_used_outside(edges: Seq<FileEdge>, target: Seq<char>, file: Seq<char>) -> bool {
    exists|i: int|
        0 <= i < edges.len() && (#[trigger] edges[i]).to_repo_id@ == target && edges[i].to_file@
            == file && edges[i].from_repo_id@ != target
}

/// The target uses the file itself.
pub open spec fn is_used_inside(edges: Seq<FileEdge>, target: Seq<char>, file: Seq<char>) -> bool {
    exists|i: int|
        0 <= i < edges.len() && (#[trigger] edges[i]).to_repo_id@ == target && edges[i].to_file@
            == file && edges[i].from_repo_id@ == target
}

spec fn inbound_file(target: Seq<char>) -> spec_fn(FileEdge) -> Option<Seq<char>> {
    |e: FileEdge|
        if is_inbound(e, target) {
            Some(e.to_file@)
        } else {
            None
        }
}

spec fn internal_file(target: Seq<char>) -> spec_fn(FileEdge) -> Option<Seq<char>> {
    |e: FileEdge|
        if is_internal(e, target) {
            Some(e.to_file@)
        } else {
            None
        }
}

spec fn consumer_to(target: Seq<char>, file: Seq<char>) -> spec_fn(FileEdge) -> Option<Seq<char>> {
    |e: FileEdge|
        if is_inbound(e, target) && e.to_file@ == file {
            Some(e.from_repo_id@)
        } else {
            None
        }
}

proof fn lemma_as_picks(edges: Seq<FileEdge>, target: Seq<char>, file: Seq<char>)
    ensures
        public_files(edges, target) == picks_once(edges, inbound_file(target)),
        internal_files(edges, target) == picks_once(edges, internal_file(target)),
        consumers_of(edges, target, file) == picks_once(edges, consumer_to(target, file)),
    decreases edges.len(),
{
    if edges.len() > 0 {
        lemma_as_picks(edges.drop_last(), target, file);
    }
}

proof fn lemma_used(edges: Seq<FileEdge>, target: Seq<char>, file: Seq<char>, from: Seq<char>)
    ensures
        public_files(edges, target).contains(file) <==> is_used_outside(edges, target, file),
        internal_files(edges, target).contains(file) <==> is_used_inside(edges, target, file),
        consumers_of(edges, target, file).contains(from) <==> is_used_from(
            edges,
            target,
            file,
            from,
        ),
        public_files(edges, target).no_duplicates(),
{
    lemma_as_picks(edges, target, file);
    let a = inbound_file(target);
    let b = internal_file(target);
    let c = consumer_to(target, file);
    lemma_picks_once(edges, a);
    lemma_picks_once(edges, b);
    lemma_picks_once(edges, c);
    assert(picks_once(edges, a).contains(file) <==> gives(edges, a, file));
    assert(picks_once(edges, b).contains(file) <==> gives(edges, b, file));
    assert(picks_once(edges, c).contains(from) <==> gives(edges, c, from));
    if is_used_outside(edges, target, file) {
        let i = choose|i: int|
            0 <= i < edges.len() && (#[trigger] edges[i]).to_repo_id@ == target && edges[i].to_file@
                == file && edges[i].from_repo_id@ != target;
        assert(a(edges[i]) == Some(file));
    }
    if is_used_inside(edges, target, file) {
        let i = choose|i: int|
            0 <= i < edges.len() && (#[trigger] edges[i]).to_repo_id@ == target && edges[i].to_file@
                == file && edges[i].from_repo_id@ == target;
        assert(b(edges[i]) == Some(file));
    }
    if is_used_from(edges, target, file, from) {
        let i = choose|i: int|
            0 <= i < edges.len() && (#[trigger] edges[i]).to_repo_id@ == target && edges[i].to_file@
                == file && edges[i].from_repo_id@ == from && from != target;
        assert(c(edges[i]) == Some(from));
    }
}

proof fn lemma_files_with(
    edges: Seq<FileEdge>,
    target: Seq<char>,
    files: Seq<Seq<char>>,
    print: Seq<Seq<char>>,
    f: Seq<char>,
)
    ensures
        files_with(edges, target, files, print).contains(f) <==> files.contains(f) && fingerprint(
            edges,
            target,
            f,
        ) == print,
    decreases files.len(),
{
    if files.len() > 0 {
        let d = files.drop_last();
        lemma_files_with(edges, target, d, print, f);
        let before = files_with(edges, target, d, print);
        let all = files_with(edges, target, files, print);
        if before.contains(f) {
            let k = choose|k: int| 0 <= k < before.len() && before[k] == f;
            assert(all[k] == f);
            let m = choose|m: int| 0 <= m < d.len() && d[m] == f;
            assert(files[m] == f);
        } else if all.contains(f) {
            let k = choose|k: int| 0 <= k < all.len() && all[k] == f;
            if k < before.len() {
                assert(before[k] == f);
            }
            assert(files[files.len() - 1] == f);
        }
        if files.contains(f) && fingerprint(edges, target, f) == print {
            let m = choose|m: int| 0 <= m < files.len() && files[m] == f;
            if m < d.len() {
                assert(d[m] == f);
            } else {
                assert(all[before.len() as int] == f);
            }
        }
    }
}

proof fn lemma_supporting(
    edges: Seq<FileEdge>,
    target: Seq<char>,
    files: Seq<Seq<char>>,
    group: Seq<Seq<char>>,
    f: Seq<char>,
)
    ensures
        supporting(edges, target, files, group).contains(f) <==> files.contains(f)
            && !public_files(edges, target).contains(f) && used_only_by(edges, target, f, group),
    decreases files.len(),
{
    if files.len() > 0 {
        let d = files.drop_last();
        lemma_supporting(edges, target, d, group, f);
        let before = supporting(edges, target, d, group);
        let all = supporting(edges, target, files, group);
        if before.contains(f) {
            let k = choose|k: int| 0 <= k < before.len() && before[k] == f;
            assert(all[k] == f);
            let m = choose|m: int| 0 <= m < d.len() && d[m] == f;
            assert(files[m] == f);
        } else if all.contains(f) {
            let k = choose|k: int| 0 <= k < all.len() && all[k] == f;
            if k < before.len() {
                assert(before[k] == f);
            }
            assert(files[files.len() - 1] == f);
        }
        if files.contains(f) && !public_files(edges, target).contains(f) && used_only_by(
            edges,
            target,
            f,
            group,
        ) {
            let m = choose|m: int| 0 <= m < files.len() && files[m] == f;
            if m < d.len() {
                assert(d[m] == f);
            } else {
                assert(all[before.len() as int] == f);
            }
        }
    }
}

/// The groups are the ones of the fingerprints.
proof fn lemma_group_present(a: SplitAnalysis, graph: FileGraph, target: Seq<char>)
    requires
        is_analysis(a, graph, target),
    ensures
        a.groups@.len() == all_fingerprints(graph.edges@, target).len(),
        forall|g: int|
            0 <= g < a.groups@.len() ==> has_print(graph, target, (#[trigger] a.groups@[g])@),
        forall|k: int|
            0 <= k < all_fingerprints(graph.edges@, target).len() ==> has_group(
                a,
                group_of(graph, target, #[trigger] all_fingerprints(graph.edges@, target)[k]),
            ),
{
    let prints = all_fingerprints(graph.edges@, target);
    let unsorted = choose|unsorted: Seq<SplitGroup>| #[trigger]
        group_views(unsorted) == groups_of(graph, target) && a.groups@ == arranged(unsorted);
    lemma_arranged(unsorted);
    lemma_arranged_contains(unsorted);
    assert(group_views(unsorted).len() == unsorted.len());
    assert forall|g: int| 0 <= g < a.groups@.len() implies has_print(
        graph,
        target,
        (#[trigger] a.groups@[g])@,
    ) by {
        assert(arranged(unsorted).contains(a.groups@[g]));
        let k = choose|k: int| 0 <= k < unsorted.len() && unsorted[k] == a.groups@[g];
        assert(group_views(unsorted)[k] == a.groups@[g]@);
        assert(a.groups@[g]@ == group_of(graph, target, prints[k]));
    }
    assert forall|k: int| 0 <= k < prints.len() implies has_group(
        a,
        group_of(graph, target, #[trigger] prints[k]),
    ) by {
        assert(group_views(unsorted)[k] == group_of(graph, target, prints[k]));
        assert(unsorted.contains(unsorted[k]));
        assert(arranged(unsorted).contains(unsorted[k]));
        let g = choose|g: int| 0 <= g < a.groups@.len() && a.groups@[g] == unsorted[k];
        assert(a.groups@[g]@ == group_of(graph, target, prints[k]));
    }
}

spec fn has_print(graph: FileGraph, target: Seq<char>, v: SplitGroupView) -> bool {
    exists|k: int|
        0 <= k < all_fingerprints(graph.edges@, target).len() && v == group_of(
            graph,
            target,
            #[trigger] all_fingerprints(graph.edges@, target)[k],
        )
}

spec fn has_group(a: SplitAnalysis, v: SplitGroupView) -> bool {
    exists|g: int| 0 <= g < a.groups@.len() && (#[trigger] a.groups@[g])@ == v
}

/// The files of a group are used from outside, and by the consumers of the group
/// exactly: a repository is a consumer of the group if and only if it uses the
/// file.
pub proof fn lemma_group_files_share_consumers(
    a: SplitAnalysis,
    graph: FileGraph,
    target: Seq<char>,
    g: int,
    f: Seq<char>,
    from: Seq<char>,
)
    requires
        is_analysis(a, graph, target),
        0 <= g < a.groups@.len(),
        texts(a.groups@[g].public_files@).contains(f),
    ensures
        is_used_outside(graph.edges@, target, f),
        texts(a.groups@[g].consumers@).contains(from) <==> is_used_from(
            graph.edges@,
            target,
            f,
            from,
        ),
{
    lemma_group_present(a, graph, target);
    let edges = graph.edges@;
    let prints = all_fingerprints(edges, target);
    assert(has_print(graph, target, a.groups@[g]@));
    let k = choose|k: int|
        0 <= k < prints.len() && a.groups@[g]@ == group_of(graph, target, #[trigger] prints[k]);
    let files = files_with(edges, target, public_files(edges, target), prints[k]);
    assert(a.groups@[g]@.public_files == sorted_texts(files));
    assert(a.groups@[g]@.consumers == prints[k]);
    lemma_sorted(files);
    lemma_files_with(edges, target, public_files(edges, target), prints[k], f);
    lemma_used(edges, target, f, from);
    lemma_sorted(consumers_of(edges, target, f));
}

/// Every file that is used from outside stands in a group.
pub proof fn lemma_used_files_are_grouped(
    a: SplitAnalysis,
    graph: FileGraph,
    target: Seq<char>,
    f: Seq<char>,
)
    requires
        is_analysis(a, graph, target),
        is_used_outside(graph.edges@, target, f),
    ensures
        exists|g: int|
            0 <= g < a.groups@.len() && texts((#[trigger] a.groups@[g]).public_files@).contains(f),
{
    lemma_group_present(a, graph, target);
    let edges = graph.edges@;
    let files = public_files(edges, target);
    lemma_used(edges, target, f, f);
    let i = choose|i: int| 0 <= i < files.len() && files[i] == f;
    let all = fingerprints_of(edges, target, files);
    let print = fingerprint(edges, target, f);
    assert(all[i] == print);
    assert(all.contains(print));
    lemma_distinct(all);
    let prints = all_fingerprints(edges, target);
    let k = choose|k: int| 0 <= k < prints.len() && prints[k] == print;
    assert(has_group(a, group_of(graph, target, prints[k])));
    let g = choose|g: int|
        0 <= g < a.groups@.len() && (#[trigger] a.groups@[g])@ == group_of(
            graph,
            target,
            prints[k],
        );
    lemma_files_with(edges, target, files, print, f);
    lemma_sorted(files_with(edges, target, files, print));
    assert(a.groups@[g]@.public_files == texts(a.groups@[g].public_files@));
}

/// A file supports a group if and only if the target itself uses it, nothing
/// outside does, and whatever uses it is a public file of the group.
pub proof fn lemma_support_files(
    a: SplitAnalysis,
    graph: FileGraph,
    target: Seq<char>,
    g: int,
    f: Seq<char>,
)
    requires
        is_analysis(a, graph, target),
        0 <= g < a.groups@.len(),
    ensures
        texts(a.groups@[g].support_files@).contains(f) <==> is_used_inside(graph.edges@, target, f)
            && !is_used_outside(graph.edges@, target, f) && forall|i: int|
            0 <= i < graph.edges@.len() && (#[trigger] graph.edges@[i]).to_repo_id@ == target
                && graph.edges@[i].from_repo_id@ == target && graph.edges@[i].to_file@ == f
                ==> texts(a.groups@[g].public_files@).contains(graph.edges@[i].from_file@),
{
    lemma_group_present(a, graph, target);
    let edges = graph.edges@;
    let prints = all_fingerprints(edges, target);
    assert(has_print(graph, target, a.groups@[g]@));
    let k = choose|k: int|
        0 <= k < prints.len() && a.groups@[g]@ == group_of(graph, target, #[trigger] prints[k]);
    let group = a.groups@[g]@.public_files;
    let files = internal_files(edges, target);
    lemma_used(edges, target, f, f);
    lemma_supporting(edges, target, files, group, f);
    lemma_sorted(supporting(edges, target, files, group));
    assert(a.groups@[g]@.support_files == texts(a.groups@[g].support_files@));
    assert(group == texts(a.groups@[g].public_files@));
    if used_only_by(edges, target, f, group) {
        assert forall|i: int|
            0 <= i < edges.len() && (#[trigger] edges[i]).to_repo_id@ == target
                && edges[i].from_repo_id@ == target && edges[i].to_file@ == f implies
        group.contains(edges[i].from_file@) by {
            assert(is_internal(edges[i], target));
        }
    }
}

/// The counts of an analysis: the files that are used from outside, and the
/// files of the graph at an end of an edge in the target.
pub proof fn lemma_split_counts(a: SplitAnalysis, graph: FileGraph, target: Seq<char>)
    requires
        is_analysis(a, graph, target),
    ensures
        exists|files: Seq<Seq<char>>| #[trigger]
            files.no_duplicates() && files.len() == a.externally_visible_count && forall|
                f: Seq<char>,
            | #[trigger] files.contains(f) <==> is_used_outside(graph.edges@, target, f),
        a.total_files_in_target == graph.files@.filter(belongs_to(graph.edges@, target)).len(),
{
    let edges = graph.edges@;
    let files = public_files(edges, target);
    lemma_used(edges, target, Seq::empty(), Seq::empty());
    assert forall|f: Seq<char>| #[trigger] files.contains(f) <==> is_used_outside(
        edges,
        target,
        f,
    ) by {
        lemma_used(edges, target, f, f);
    }
    assert(files.no_duplicates() && files.len() == a.externally_visible_count);
    lemma_count_in_target(edges, target, graph.files@);
}

/// The file is at an end of an edge, on the side of the target.
pub open spec fn belongs_to(edges: Seq<FileEdge>, target: Seq<char>) -> spec_fn(String) -> bool {
    |f: String|
        exists|i: int|
            0 <= i < edges.len() && ((#[trigger] edges[i]).from_repo_id@ == target
                && edges[i].from_file@ == f@ || edges[i].to_repo_id@ == target && edges[i].to_file@
                == f@)
}

proof fn lemma_count_in_target(edges: Seq<FileEdge>, target: Seq<char>, files: Seq<String>)
    ensures
        count_in_target(edges, target, files) == files.filter(belongs_to(edges, target)).len(),
    decreases files.len(),
{
    let p = belongs_to(edges, target);
    if files.len() > 0 {
        let d = files.drop_last();
        lemma_count_in_target(edges, target, d);
        assert(d.push(files.last()) =~= files);
        d.lemma_filter_push(files.last(), p);
        let f = files.last();
        if in_target(edges, target, f@) {
            let i = choose|i: int|
                0 <= i < edges.len() && ((#[trigger] edges[i]).from_file@ == f@
                    && edges[i].from_repo_id@ == target || edges[i].to_file@ == f@
                    && edges[i].to_repo_id@ == target);
            assert(edges[i].from_repo_id@ == target || edges[i].to_repo_id@ == target);
            assert(p(f));
        }
        if p(f) {
            let i = choose|i: int|
                0 <= i < edges.len() && ((#[trigger] edges[i]).from_repo_id@ == target
                    && edges[i].from_file@ == f@ || edges[i].to_repo_id@ == target
                    && edges[i].to_file@ == f@);
            assert(in_target(edges, target, f@));
        }
    } else {
        reveal(Seq::filter);
    }
}

/// A repository of the graph is listed as a consumer if and only if a file of it
/// uses a file of the target from outside.
pub proof fn lemma_consumers_listed(
    a: SplitAnalysis,
    graph: FileGraph,
    target: Seq<char>,
    r: FileGraphRepo,
)
    requires
        is_analysis(a, graph, target),
        graph.repositories@.contains(r),
    ensures
        (exists|i: int|
            0 <= i < graph.edges@.len() && (#[trigger] graph.edges@[i]).to_repo_id@ == target
                && graph.edges@[i].from_repo_id@ == r.id@ && r.id@ != target) ==> exists|k: int|
            0 <= k < a.consumers@.len() && (#[trigger] a.consumers@[k]).id@ == r.id@
                && a.consumers@[k].name@ == r.name@ && a.consumers@[k].path@ == r.path@,
        forall|k: int|
            0 <= k < a.consumers@.len() ==> exists|i: int|
                0 <= i < graph.edges@.len() && (#[trigger] graph.edges@[i]).to_repo_id@ == target
                    && graph.edges@[i].from_repo_id@ == (#[trigger] a.consumers@[k]).id@
                    && a.consumers@[k].id@ != target,
{
    let edges = graph.edges@;
    let repos = graph.repositories@;
    let f = consuming(edges, target);
    lemma_known_consumers(edges, target, repos);
    lemma_picks(repos, f);
    let all = picks(repos, f);
    let ct = consumer_texts(a.consumers@);
    if exists|i: int|
        0 <= i < edges.len() && (#[trigger] edges[i]).to_repo_id@ == target
            && edges[i].from_repo_id@ == r.id@ && r.id@ != target {
        let i = choose|i: int|
            0 <= i < edges.len() && (#[trigger] edges[i]).to_repo_id@ == target
                && edges[i].from_repo_id@ == r.id@ && r.id@ != target;
        assert(is_inbound(edges[i], target));
        let m = choose|m: int| 0 <= m < repos.len() && repos[m] == r;
        let x = (r.id@, r.name@, r.path@);
        assert(f(repos[m]) == Some(x));
        assert(gives(repos, f, x));
        assert(all.contains(x));
        let k = choose|k: int| 0 <= k < all.len() && all[k] == x;
        assert(ct[k] == x);
        assert(a.consumers@[k].id@ == r.id@);
    }
    assert forall|k: int| 0 <= k < a.consumers@.len() implies exists|i: int|
        0 <= i < edges.len() && (#[trigger] edges[i]).to_repo_id@ == target
            && edges[i].from_repo_id@ == (#[trigger] a.consumers@[k]).id@ && a.consumers@[k].id@
            != target by {
        assert(ct[k] == (a.consumers@[k].id@, a.consumers@[k].name@, a.consumers@[k].path@));
        assert(all.contains(ct[k]));
        assert(gives(repos, f, ct[k]));
        let m = choose|m: int| 0 <= m < repos.len() && f(#[trigger] repos[m]) == Some(ct[k]);
        let i = choose|i: int|
            0 <= i < edges.len() && is_inbound(#[trigger] edges[i], target)
                && edges[i].from_repo_id@ == repos[m].id@;
        assert(edges[i].to_repo_id@ == target);
    }
}

spec fn consuming(edges: Seq<FileEdge>, target: Seq<char>) -> spec_fn(FileGraphRepo) -> Option<
    (Seq<char>, Seq<char>, Seq<char>),
> {
    |r: FileGraphRepo|
        if is_consumer(edges, target, r.id@) {
            Some((r.id@, r.name@, r.path@))
        } else {
            None
        }
}

proof fn lemma_known_consumers(
    edges: Seq<FileEdge>,
    target: Seq<char>,
    repos: Seq<FileGraphRepo>,
)
    ensures
        known_consumers(edges, target, repos) == picks(repos, consuming(edges, target)),
    decreases repos.len(),
{
    if repos.len() > 0 {
        lemma_known_consumers(edges, target, repos.drop_last());
    }
}

proof fn lemma_repo_at(repos: Seq<FileGraphRepo>, p: int)
    requires
        0 <= p < repos.len(),
        forall|i: int, j: int|
            0 <= i < j < repos.len() ==> (#[trigger] repos[i]).id@ != (#[trigger] repos[j]).id@,
    ensures
        repo_at(repos, repos[p].id@) == p,
    decreases repos.len(),
{
    let d = repos.drop_last();
    let id = repos[p].id@;
    if p < d.len() {
        assert(d[p] == repos[p]);
        lemma_repo_at(d, p);
    } else {
        assert forall|i: int| 0 <= i < d.len() implies (#[trigger] d[i]).id@ != id by {
            assert(d[i] == repos[i]);
        }
        lemma_repo_absent(d, id);
    }
}

proof fn lemma_repo_absent(repos: Seq<FileGraphRepo>, id: Seq<char>)
    requires
        forall|i: int| 0 <= i < repos.len() ==> (#[trigger] repos[i]).id@ != id,
    ensures
        repo_at(repos, id) == -1,
    decreases repos.len(),
{
    if repos.len() > 0 {
        let d = repos.drop_last();
        assert forall|i: int| 0 <= i < d.len() implies (#[trigger] d[i]).id@ != id by {
            assert(d[i] == repos[i]);
        }
        lemma_repo_absent(d, id);
        assert(repos[repos.len() - 1].id@ != id);
    }
}

/// A group goes by the names of its consumers, and its id by their ids, without
/// what could not stand in a file name.
pub proof fn lemma_group_names(graph: FileGraph, target: Seq<char>, at: Seq<usize>)
    requires
        forall|i: int, j: int|
            0 <= i < j < graph.repositories@.len() ==> (#[trigger] graph.repositories@[i]).id@ != (
            #[trigger] graph.repositories@[j]).id@,
        forall|k: int| 0 <= k < at.len() ==> (#[trigger] at[k]) < graph.repositories@.len(),
    ensures
        ({
            let repos = graph.repositories@;
            let ids = Seq::new(at.len(), |k: int| repos[at[k] as int].id@);
            let names = Seq::new(at.len(), |k: int| repos[at[k] as int].name@);
            let g = group_of(graph, target, ids);
            &&& g.label == join(names, ", "@)
            &&& g.consumers == ids
            &&& lacks(g.id, '/') && lacks(g.id, '.')
            &&& lacks(join(ids, "+"@), '/') && lacks(join(ids, "+"@), '.') ==> g.id == join(
                ids,
                "+"@,
            )
        }),
{
    let repos = graph.repositories@;
    let ids = Seq::new(at.len(), |k: int| repos[at[k] as int].id@);
    let names = Seq::new(at.len(), |k: int| repos[at[k] as int].name@);
    assert forall|k: int| 0 <= k < at.len() implies repo_label(repos, #[trigger] ids[k])
        == names[k] by {
        lemma_repo_at(repos, at[k] as int);
    }
    assert(repo_labels(repos, ids) =~= names);
    let s = join(ids, "+"@);
    if lacks(s, '/') && lacks(s, '.') {
        assert(group_id(ids) =~= s);
    }
}

/// The group with more public files comes first.
pub proof fn lemma_groups_by_size(groups: Seq<SplitGroup>, i: int, j: int)
    requires
        0 <= i < j < groups.len(),
    ensures
        arranged(groups)[i].public_files@.len() >= arranged(groups)[j].public_files@.len(),
{
    lemma_arranged(groups);
    assert(!arranged(groups)[j].ranks_before(arranged(groups)[i]));
}

} // verus!
