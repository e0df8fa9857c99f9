//! The file graph of a whole namespace, where equal paths of two repositories
//! are two files.

use vstd::prelude::*;
use crate::domain::{FileEdge, FileGraph, FileGraphRepo};
use crate::file_relationship::{EdgeView, Ends, edge_views, end_files, files_of};
use crate::order::distinct;
use crate::split_analysis::{find_repo, repo_label};
use crate::text::texts;

verus! {

/// A file of a namespace: the name of its repository, a colon and its path.
pub open spec fn qualified(repos: Seq<FileGraphRepo>, id: Seq<char>, path: Seq<char>) -> Seq<char> {
    repo_label(repos, id) + ":"@ + path
}

/// The edge with both its files qualified.
pub open spec fn qualified_edge(repos: Seq<FileGraphRepo>, e: EdgeView) -> EdgeView {
    EdgeView {
        ends: Ends {
            from_file: qualified(repos, e.ends.from_repo_id, e.ends.from_file),
            to_file: qualified(repos, e.ends.to_repo_id, e.ends.to_file),
            ..e.ends
        },
        ..e
    }
}

/// The edges with all their files qualified.
pub open spec fn qualified_edges(repos: Seq<FileGraphRepo>, edges: Seq<EdgeView>) -> Seq<EdgeView> {
    Seq::new(edges.len(), |i: int| qualified_edge(repos, edges[i]))
}

/// Files of two repositories never share a qualified name, and neither do two
/// files of one, as long as no repository has a colon in its name.
pub proof fn lemma_qualified_apart(
    repos: Seq<FileGraphRepo>,
    id: Seq<char>,
    path: Seq<char>,
    other_id: Seq<char>,
    other_path: Seq<char>,
)
    requires
        !repo_label(repos, id).contains(':'),
        !repo_label(repos, other_id).contains(':'),
    ensures
        qualified(repos, id, path) == qualified(repos, other_id, other_path) <==> repo_label(
            repos,
            id,
        ) == repo_label(repos, other_id) && path == other_path,
{
    let a = repo_label(repos, id);
    let b = repo_label(repos, other_id);
    let x = qualified(repos, id, path);
    let y = qualified(repos, other_id, other_path);
    reveal_strlit(":");
    if x == y {
        assert(x[a.len() as int] == ':');
        assert(y[b.len() as int] == ':');
        if a.len() < b.len() {
            assert(y[a.len() as int] == b[a.len() as int]);
            assert(b.contains(':'));
        }
        if b.len() < a.len() {
            assert(x[b.len() as int] == a[b.len() as int]);
            assert(a.contains(':'));
        }
        assert(a =~= x.take(a.len() as int));
        assert(b =~= y.take(b.len() as int));
        assert(path =~= x.skip(a.len() as int + 1));
        assert(other_path =~= y.skip(b.len() as int + 1));
    }
}

fn qualify(repos: &[FileGraphRepo], id: &str, path: &str) -> (r: String)
    ensures
        r@ == qualified(repos@, id@, path@),
{
    let mut name = match find_repo(repos, id) {
        Some(i) => repos[i].name.clone(),
        None => id.to_string(),
    };
    name.append(":");
    name.append(path);
    name
}

/// Qualifies the files of the graph of a namespace with the names of their
/// repositories.
pub fn qualify_namespace_graph(graph: FileGraph) -> (r: FileGraph)
    ensures
        r.repositories == graph.repositories,
        edge_views(r.edges@) == qualified_edges(graph.repositories@, edge_views(graph.edges@)),
        texts(r.files@) == distinct(end_files(edge_views(r.edges@))),
{
    let repositories = graph.repositories;
    let all = graph.edges;
    let ghost want = qualified_edges(repositories@, edge_views(all@));
    let mut edges: Vec<FileEdge> = Vec::new();
    for e in it: all
        invariant
            it.seq() == all@,
            want == qualified_edges(repositories@, edge_views(all@)),
            edges@.len() == it.index(),
            forall|k: int| 0 <= k < edges@.len() ==> (#[trigger] edges@[k])@ == want[k],
    {
        let from_file = qualify(&repositories, e.from_repo_id.as_str(), e.from_file.as_str());
        let to_file = qualify(&repositories, e.to_repo_id.as_str(), e.to_file.as_str());
        assert(edge_views(all@)[it.index() as int] == e@);
        edges.push(
            FileEdge {
                from_file,
                from_repo_id: e.from_repo_id,
                to_file,
                to_repo_id: e.to_repo_id,
                weight: e.weight,
                reference_kinds: e.reference_kinds,
                symbols: e.symbols,
            },
        );
    }
    assert(edge_views(edges@) =~= want);
    let files = files_of(&edges);
    FileGraph { repositories, files, edges }
}

} // verus!
