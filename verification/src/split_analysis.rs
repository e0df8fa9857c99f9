//! Where a large repository comes apart: which of its files other repositories
//! use, grouped by who uses them.

use vstd::prelude::*;
use vstd::string::*;
use crate::domain::{DomainError, FileEdge, FileGraph, FileGraphRepo, Repository};
use crate::order::{
    Ranked, arrange, arranged, distinct, lemma_distinct, lemma_text_order, sort_texts, sorted_texts,
    text_less, text_lt,
};
use crate::text::{
    chars_of, copy_all, has_text, join, join_texts, replace_char, same_text, string_of, texts,
    with_replaced,
};

verus! {

/// A repository that uses the analysed one.
#[derive(Debug)]
pub struct ConsumerRepo {
    pub id: String,
    pub name: String,
    pub path: String,
}

/// Files that the same repositories use, and that could leave together.
#[derive(Debug)]
pub struct SplitGroup {
    pub id: String,
    pub label: String,
    /// The repositories that use the files, sorted.
    pub consumers: Vec<String>,
    /// The files that they use, sorted.
    pub public_files: Vec<String>,
    /// The files that only those files use, sorted.
    pub support_files: Vec<String>,
}

/// The analysis of one repository.
#[derive(Debug)]
pub struct SplitAnalysis {
    pub target_repo_id: String,
    pub target_repo_name: String,
    pub target_repo_path: String,
    pub groups: Vec<SplitGroup>,
    pub consumers: Vec<ConsumerRepo>,
    pub total_files_in_target: usize,
    pub externally_visible_count: usize,
}

/// What a group says.
pub struct SplitGroupView {
    pub id: Seq<char>,
    pub label: Seq<char>,
    pub consumers: Seq<Seq<char>>,
    pub public_files: Seq<Seq<char>>,
    pub support_files: Seq<Seq<char>>,
}

impl View for SplitGroup {
    type V = SplitGroupView;

    open spec fn view(&self) -> SplitGroupView {
        SplitGroupView {
            id: self.id@,
            label: self.label@,
            consumers: texts(self.consumers@),
            public_files: texts(self.public_files@),
            support_files: texts(self.support_files@),
        }
    }
}

/// What groups say.
pub open spec fn group_views(s: Seq<SplitGroup>) -> Seq<SplitGroupView> {
    Seq::new(s.len(), |i: int| s[i]@)
}

impl Ranked for SplitGroup {
    /// Most public files first, then by id.
    open spec fn ranks_before(self, other: Self) -> bool {
        ||| self.public_files@.len() > other.public_files@.len()
        ||| self.public_files@.len() == other.public_files@.len() && text_lt(self.id@, other.id@)
    }

    fn goes_before(&self, other: &Self) -> (r: bool) {
        if self.public_files.len() != other.public_files.len() {
            self.public_files.len() > other.public_files.len()
        } else {
            text_less(self.id.as_str(), other.id.as_str())
        }
    }

    proof fn rank_laws(a: Self, b: Self, c: Self) {
        lemma_text_order(a.id@, b.id@, c.id@);
    }
}

/// The edge comes into the target from another repository.
pub open spec fn is_inbound(e: FileEdge, target: Seq<char>) -> bool {
    e.to_repo_id@ == target && e.from_repo_id@ != target
}

/// The edge stays within the target.
pub open spec fn is_internal(e: FileEdge, target: Seq<char>) -> bool {
    e.to_repo_id@ == target && e.from_repo_id@ == target
}

/// The files of the target that other repositories use, each once.
pub open spec fn public_files(edges: Seq<FileEdge>, target: Seq<char>) -> Seq<Seq<char>>
    decreases edges.len(),
{
    if edges.len() == 0 {
        Seq::empty()
    } else {
        let d = public_files(edges.drop_last(), target);
        let e = edges.last();
        if is_inbound(e, target) && !d.contains(e.to_file@) {
            d.push(e.to_file@)
        } else {
            d
        }
    }
}

/// The repositories that use `file`, each once.
pub open spec fn consumers_of(
    edges: Seq<FileEdge>,
    target: Seq<char>,
    file: Seq<char>,
) -> Seq<Seq<char>>
    decreases edges.len(),
{
    if edges.len() == 0 {
        Seq::empty()
    } else {
        let d = consumers_of(edges.drop_last(), target, file);
        let e = edges.last();
        if is_inbound(e, target) && e.to_file@ == file && !d.contains(e.from_repo_id@) {
            d.push(e.from_repo_id@)
        } else {
            d
        }
    }
}

/// The repositories that use `file`, sorted.
pub open spec fn fingerprint(
    edges: Seq<FileEdge>,
    target: Seq<char>,
    file: Seq<char>,
) -> Seq<Seq<char>> {
    sorted_texts(consumers_of(edges, target, file))
}

/// The fingerprints of files, in the order of the files.
pub open spec fn fingerprints_of(
    edges: Seq<FileEdge>,
    target: Seq<char>,
    files: Seq<Seq<char>>,
) -> Seq<Seq<Seq<char>>> {
    Seq::new(files.len(), |i: int| fingerprint(edges, target, files[i]))
}

/// Those of `files` that have the fingerprint `print`.
pub open spec fn files_with(
    edges: Seq<FileEdge>,
    target: Seq<char>,
    files: Seq<Seq<char>>,
    print: Seq<Seq<char>>,
) -> Seq<Seq<char>>
    decreases files.len(),
{
    if files.len() == 0 {
        files
    } else {
        let d = files_with(edges, target, files.drop_last(), print);
        if fingerprint(edges, target, files.last()) == print {
            d.push(files.last())
        } else {
            d
        }
    }
}

/// The files of the target that its own files use, each once.
pub open spec fn internal_files(edges: Seq<FileEdge>, target: Seq<char>) -> Seq<Seq<char>>
    decreases edges.len(),
{
    if edges.len() == 0 {
        Seq::empty()
    } else {
        let d = internal_files(edges.drop_last(), target);
        let e = edges.last();
        if is_internal(e, target) && !d.contains(e.to_file@) {
            d.push(e.to_file@)
        } else {
            d
        }
    }
}

/// Within the target only files of the group use `file`.
pub open spec fn used_only_by(
    edges: Seq<FileEdge>,
    target: Seq<char>,
    file: Seq<char>,
    group: Seq<Seq<char>>,
) -> bool {
    forall|i: int|
        0 <= i < edges.len() && is_internal(#[trigger] edges[i], target) && edges[i].to_file@
            == file ==> group.contains(edges[i].from_file@)
}

/// Those of `files` that no other repository uses and that within the target
/// only the group uses.
pub open spec fn supporting(
    edges: Seq<FileEdge>,
    target: Seq<char>,
    files: Seq<Seq<char>>,
    group: Seq<Seq<char>>,
) -> Seq<Seq<char>>
    decreases files.len(),
{
    if files.len() == 0 {
        files
    } else {
        let d = supporting(edges, target, files.drop_last(), group);
        let f = files.last();
        if !public_files(edges, target).contains(f) && used_only_by(edges, target, f, group) {
            d.push(f)
        } else {
            d
        }
    }
}

/// The place of the repository known as `id`, or -1.
pub open spec fn repo_at(repos: Seq<FileGraphRepo>, id: Seq<char>) -> int
    decreases repos.len(),
{
    if repos.len() == 0 {
        -1
    } else {
        let d = repo_at(repos.drop_last(), id);
        if d < 0 && repos.last().id@ == id {
            repos.len() - 1
        } else {
            d
        }
    }
}

/// The name of a repository, or its id where it is not known.
pub open spec fn repo_label(repos: Seq<FileGraphRepo>, id: Seq<char>) -> Seq<char> {
    if repo_at(repos, id) >= 0 {
        repos[repo_at(repos, id)].name@
    } else {
        id
    }
}

/// The id of a group: its consumers with `+` between them, `/` and `.` made
/// `_`.
pub open spec fn group_id(consumers: Seq<Seq<char>>) -> Seq<char> {
    replace_char(replace_char(join(consumers, "+"@), '/', '_'), '.', '_')
}

/// The labels of repositories.
pub open spec fn repo_labels(repos: Seq<FileGraphRepo>, ids: Seq<Seq<char>>) -> Seq<Seq<char>> {
    Seq::new(ids.len(), |i: int| repo_label(repos, ids[i]))
}

/// The group of the files with the fingerprint `print`.
pub open spec fn group_of(graph: FileGraph, target: Seq<char>, print: Seq<Seq<char>>) ->
    SplitGroupView {
    let edges = graph.edges@;
    let files = sorted_texts(files_with(edges, target, public_files(edges, target), print));
    SplitGroupView {
        id: group_id(print),
        label: join(repo_labels(graph.repositories@, print), ", "@),
        consumers: print,
        public_files: files,
        support_files: sorted_texts(
            supporting(edges, target, internal_files(edges, target), files),
        ),
    }
}

/// The different fingerprints of the target's public files.
pub open spec fn all_fingerprints(edges: Seq<FileEdge>, target: Seq<char>) -> Seq<Seq<Seq<char>>> {
    distinct(fingerprints_of(edges, target, public_files(edges, target)))
}

/// The groups of the target, one for each fingerprint.
pub open spec fn groups_of(graph: FileGraph, target: Seq<char>) -> Seq<SplitGroupView> {
    let prints = all_fingerprints(graph.edges@, target);
    Seq::new(prints.len(), |i: int| group_of(graph, target, prints[i]))
}

/// The repository uses a file of the target.
pub open spec fn is_consumer(edges: Seq<FileEdge>, target: Seq<char>, id: Seq<char>) -> bool {
    exists|i: int|
        0 <= i < edges.len() && is_inbound(#[trigger] edges[i], target) && edges[i].from_repo_id@
            == id
}

/// The known repositories that use a file of the target.
pub open spec fn known_consumers(
    edges: Seq<FileEdge>,
    target: Seq<char>,
    repos: Seq<FileGraphRepo>,
) -> Seq<(Seq<char>, Seq<char>, Seq<char>)>
    decreases repos.len(),
{
    if repos.len() == 0 {
        Seq::empty()
    } else {
        let d = known_consumers(edges, target, repos.drop_last());
        let r = repos.last();
        if is_consumer(edges, target, r.id@) {
            d.push((r.id@, r.name@, r.path@))
        } else {
            d
        }
    }
}

/// What consumers say: id, name and path.
pub open spec fn consumer_texts(s: Seq<ConsumerRepo>) -> Seq<(Seq<char>, Seq<char>, Seq<char>)> {
    Seq::new(s.len(), |i: int| (s[i].id@, s[i].name@, s[i].path@))
}

/// An edge shows that the file belongs to the target.
pub open spec fn in_target(edges: Seq<FileEdge>, target: Seq<char>, file: Seq<char>) -> bool {
    exists|i: int|
        0 <= i < edges.len() && ((#[trigger] edges[i]).from_file@ == file
            && edges[i].from_repo_id@ == target || edges[i].to_file@ == file
            && edges[i].to_repo_id@ == target)
}

/// How many of the files belong to the target.
pub open spec fn count_in_target(
    edges: Seq<FileEdge>,
    target: Seq<char>,
    files: Seq<String>,
) -> nat
    decreases files.len(),
{
    if files.len() == 0 {
        0
    } else {
        count_in_target(edges, target, files.drop_last()) + if in_target(
            edges,
            target,
            files.last()@,
        ) {
            1nat
        } else {
            0
        }
    }
}

/// The analysis is the one of the target in the graph.
pub open spec fn is_analysis(a: SplitAnalysis, graph: FileGraph, target: Seq<char>) -> bool {
    let repo = graph.repositories@[repo_at(graph.repositories@, target)];
    &&& a.target_repo_id@ == target
    &&& a.target_repo_name@ == repo.name@
    &&& a.target_repo_path@ == repo.path@
    &&& exists|unsorted: Seq<SplitGroup>| #[trigger]
        group_views(unsorted) == groups_of(graph, target) && a.groups@ == arranged(unsorted)
    &&& consumer_texts(a.consumers@) == known_consumers(
        graph.edges@,
        target,
        graph.repositories@,
    )
    &&& a.total_files_in_target == count_in_target(graph.edges@, target, graph.files@)
    &&& a.externally_visible_count == public_files(graph.edges@, target).len()
}

fn inbound(e: &FileEdge, target: &str) -> (r: bool)
    ensures
        r == is_inbound(*e, target@),
{
    same_text(e.to_repo_id.as_str(), target) && !same_text(e.from_repo_id.as_str(), target)
}

fn internal(e: &FileEdge, target: &str) -> (r: bool)
    ensures
        r == is_internal(*e, target@),
{
    same_text(e.to_repo_id.as_str(), target) && same_text(e.from_repo_id.as_str(), target)
}

fn find_public_files(edges: &[FileEdge], target: &str) -> (r: Vec<String>)
    ensures
        texts(r@) == public_files(edges@, target@),
{
    let mut r: Vec<String> = Vec::new();
    let mut i: usize = 0;
    assert(texts(r@) =~= public_files(edges@.take(0), target@));
    while i < edges.len()
        invariant
            i <= edges@.len(),
            texts(r@) == public_files(edges@.take(i as int), target@),
        decreases edges@.len() - i,
    {
        let ghost before = r@;
        let e = &edges[i];
        proof {
            assert(edges@.take(i + 1).drop_last() =~= edges@.take(i as int));
            assert(edges@.take(i + 1).last() == edges@[i as int]);
        }
        if inbound(e, target) && !has_text(&r, e.to_file.as_str()) {
            r.push(e.to_file.clone());
            assert(texts(r@) =~= texts(before).push(e.to_file@));
        }
        i += 1;
    }
    assert(edges@.take(i as int) =~= edges@);
    r
}

fn find_internal_files(edges: &[FileEdge], target: &str) -> (r: Vec<String>)
    ensures
        texts(r@) == internal_files(edges@, target@),
{
    let mut r: Vec<String> = Vec::new();
    let mut i: usize = 0;
    assert(texts(r@) =~= internal_files(edges@.take(0), target@));
    while i < edges.len()
        invariant
            i <= edges@.len(),
            texts(r@) == internal_files(edges@.take(i as int), target@),
        decreases edges@.len() - i,
    {
        let ghost before = r@;
        let e = &edges[i];
        proof {
            assert(edges@.take(i + 1).drop_last() =~= edges@.take(i as int));
            assert(edges@.take(i + 1).last() == edges@[i as int]);
        }
        if internal(e, target) && !has_text(&r, e.to_file.as_str()) {
            r.push(e.to_file.clone());
            assert(texts(r@) =~= texts(before).push(e.to_file@));
        }
        i += 1;
    }
    assert(edges@.take(i as int) =~= edges@);
    r
}

fn find_fingerprint(edges: &[FileEdge], target: &str, file: &str) -> (r: Vec<String>)
    ensures
        texts(r@) == fingerprint(edges@, target@, file@),
{
    let mut r: Vec<String> = Vec::new();
    let mut i: usize = 0;
    assert(texts(r@) =~= consumers_of(edges@.take(0), target@, file@));
    while i < edges.len()
        invariant
            i <= edges@.len(),
            texts(r@) == consumers_of(edges@.take(i as int), target@, file@),
        decreases edges@.len() - i,
    {
        let ghost before = r@;
        let e = &edges[i];
        proof {
            assert(edges@.take(i + 1).drop_last() =~= edges@.take(i as int));
            assert(edges@.take(i + 1).last() == edges@[i as int]);
        }
        if inbound(e, target) && same_text(e.to_file.as_str(), file) && !has_text(
            &r,
            e.from_repo_id.as_str(),
        ) {
            r.push(e.from_repo_id.clone());
            assert(texts(r@) =~= texts(before).push(e.from_repo_id@));
        }
        i += 1;
    }
    assert(edges@.take(i as int) =~= edges@);
    sort_texts(r)
}

/// Whether two lists hold the same texts.
fn same_texts(a: &[String], b: &[String]) -> (r: bool)
    ensures
        r == (texts(a@) == texts(b@)),
{
    if a.len() != b.len() {
        assert(texts(a@).len() != texts(b@).len());
        return false;
    }
    let mut i: usize = 0;
    while i < a.len()
        invariant
            i <= a@.len(),
            a@.len() == b@.len(),
            forall|k: int| 0 <= k < i ==> texts(a@)[k] == texts(b@)[k],
        decreases a@.len() - i,
    {
        if !same_text(a[i].as_str(), b[i].as_str()) {
            assert(texts(a@)[i as int] != texts(b@)[i as int]);
            return false;
        }
        i += 1;
    }
    assert(texts(a@) =~= texts(b@));
    true
}

/// The views of lists of strings.
pub open spec fn lists_of(v: Seq<Vec<String>>) -> Seq<Seq<Seq<char>>> {
    Seq::new(v.len(), |i: int| texts(v[i]@))
}

/// The fingerprints of the files, and the different ones among them.
fn find_fingerprints(edges: &[FileEdge], target: &str, files: &[String]) -> (r: (
    Vec<Vec<String>>,
    Vec<Vec<String>>,
))
    ensures
        lists_of(r.0@) == fingerprints_of(edges@, target@, texts(files@)),
        lists_of(r.1@) == distinct(fingerprints_of(edges@, target@, texts(files@))),
{
    let ghost all = fingerprints_of(edges@, target@, texts(files@));
    let mut prints: Vec<Vec<String>> = Vec::new();
    let mut different: Vec<Vec<String>> = Vec::new();
    let mut i: usize = 0;
    assert(lists_of(prints@) =~= all.take(0));
    assert(lists_of(different@) =~= distinct(all.take(0)));
    while i < files.len()
        invariant
            i <= files@.len(),
            all == fingerprints_of(edges@, target@, texts(files@)),
            lists_of(prints@) == all.take(i as int),
            lists_of(different@) == distinct(all.take(i as int)),
        decreases files@.len() - i,
    {
        let print = find_fingerprint(edges, target, files[i].as_str());
        let ghost before = different@;
        let ghost prints_before = prints@;
        proof {
            assert(texts(files@)[i as int] == files@[i as int]@);
            assert(all.take(i + 1).drop_last() =~= all.take(i as int));
            assert(all.take(i + 1).last() == texts(print@));
        }
        let mut known = false;
        let mut k: usize = 0;
        while k < different.len()
            invariant
                k <= different@.len(),
                known == exists|m: int| 0 <= m < k && #[trigger] lists_of(different@)[m] == texts(print@),
            decreases different@.len() - k,
        {
            assert(lists_of(different@)[k as int] == texts(different@[k as int]@));
            if same_texts(&different[k], &print) {
                known = true;
            }
            k += 1;
        }
        proof {
            assert(known == lists_of(different@).contains(texts(print@)));
        }
        if !known {
            different.push(copy_all(&print));
            assert(lists_of(different@) =~= lists_of(before).push(texts(print@)));
        }
        let ghost p = print@;
        prints.push(print);
        proof {
            assert(lists_of(prints@) =~= lists_of(prints_before).push(texts(p)));
            assert(all.take(i + 1) =~= all.take(i as int).push(texts(p)));
        }
        i += 1;
    }
    assert(all.take(i as int) =~= all);
    (prints, different)
}

/// Those of `files` whose fingerprint is `print`, sorted.
fn pick_files(
    edges: &[FileEdge],
    target: &str,
    files: &[String],
    prints: &[Vec<String>],
    print: &[String],
) -> (r: Vec<String>)
    requires
        lists_of(prints@) == fingerprints_of(edges@, target@, texts(files@)),
    ensures
        texts(r@) == sorted_texts(files_with(edges@, target@, texts(files@), texts(print@))),
{
    let ghost all = texts(files@);
    let ghost wanted = texts(print@);
    let mut r: Vec<String> = Vec::new();
    let mut i: usize = 0;
    assert(texts(r@) =~= files_with(edges@, target@, all.take(0), wanted));
    assert(lists_of(prints@).len() == all.len());
    while i < files.len()
        invariant
            i <= files@.len(),
            prints@.len() == files@.len(),
            all == texts(files@),
            wanted == texts(print@),
            lists_of(prints@) == fingerprints_of(edges@, target@, all),
            texts(r@) == files_with(edges@, target@, all.take(i as int), wanted),
        decreases files@.len() - i,
    {
        let ghost before = r@;
        proof {
            assert(all.take(i + 1).drop_last() =~= all.take(i as int));
            assert(all.take(i + 1).last() == files@[i as int]@);
            assert(lists_of(prints@)[i as int] == texts(prints@[i as int]@));
        }
        if same_texts(&prints[i], print) {
            r.push(files[i].clone());
            assert(texts(r@) =~= texts(before).push(files@[i as int]@));
        }
        i += 1;
    }
    assert(all.take(i as int) =~= all);
    sort_texts(r)
}

fn find_support(
    edges: &[FileEdge],
    target: &str,
    candidates: &[String],
    public: &[String],
    group: &[String],
) -> (r: Vec<String>)
    requires
        texts(public@) == public_files(edges@, target@),
    ensures
        texts(r@) == sorted_texts(
            supporting(edges@, target@, texts(candidates@), texts(group@)),
        ),
{
    let ghost all = texts(candidates@);
    let ghost g = texts(group@);
    let mut r: Vec<String> = Vec::new();
    let mut i: usize = 0;
    assert(texts(r@) =~= supporting(edges@, target@, all.take(0), g));
    while i < candidates.len()
        invariant
            i <= candidates@.len(),
            all == texts(candidates@),
            g == texts(group@),
            texts(public@) == public_files(edges@, target@),
            texts(r@) == supporting(edges@, target@, all.take(i as int), g),
        decreases candidates@.len() - i,
    {
        let ghost before = r@;
        let file = &candidates[i];
        proof {
            assert(all.take(i + 1).drop_last() =~= all.take(i as int));
            assert(all.take(i + 1).last() == file@);
        }
        let mut only = true;
        let mut k: usize = 0;
        while k < edges.len()
            invariant
                k <= edges@.len(),
                g == texts(group@),
                only == forall|m: int|
                    0 <= m < k && is_internal(#[trigger] edges@[m], target@) && edges@[m].to_file@
                        == file@ ==> g.contains(edges@[m].from_file@),
            decreases edges@.len() - k,
        {
            let e = &edges[k];
            if internal(e, target) && same_text(e.to_file.as_str(), file.as_str()) && !has_text(
                group,
                e.from_file.as_str(),
            ) {
                assert(is_internal(edges@[k as int], target@));
                only = false;
            }
            k += 1;
        }
        assert(only == used_only_by(edges@, target@, file@, g));
        if only && !has_text(public, file.as_str()) {
            r.push(file.clone());
            assert(texts(r@) =~= texts(before).push(file@));
        }
        i += 1;
    }
    assert(all.take(i as int) =~= all);
    sort_texts(r)
}

pub(crate) fn find_repo(repos: &[FileGraphRepo], id: &str) -> (r: Option<usize>)
    ensures
        r matches Some(i) ==> i == repo_at(repos@, id@) && i < repos@.len(),
        r is None ==> repo_at(repos@, id@) < 0,
{
    let mut found: Option<usize> = None;
    let mut i: usize = 0;
    while i < repos.len()
        invariant
            i <= repos@.len(),
            found matches Some(k) ==> k < i && k == repo_at(repos@.take(i as int), id@),
            found is None ==> repo_at(repos@.take(i as int), id@) < 0,
        decreases repos@.len() - i,
    {
        proof {
            assert(repos@.take(i + 1).drop_last() =~= repos@.take(i as int));
            assert(repos@.take(i + 1).last() == repos@[i as int]);
        }
        if found.is_none() && same_text(repos[i].id.as_str(), id) {
            found = Some(i);
        }
        i += 1;
    }
    assert(repos@.take(i as int) =~= repos@);
    found
}

fn make_label(repos: &[FileGraphRepo], consumers: &[String]) -> (r: String)
    ensures
        r@ == join(repo_labels(repos@, texts(consumers@)), ", "@),
{
    let ghost want = repo_labels(repos@, texts(consumers@));
    let mut labels: Vec<String> = Vec::new();
    let mut i: usize = 0;
    while i < consumers.len()
        invariant
            i <= consumers@.len(),
            want == repo_labels(repos@, texts(consumers@)),
            texts(labels@) == want.take(i as int),
        decreases consumers@.len() - i,
    {
        let ghost before = labels@;
        let label = match find_repo(repos, consumers[i].as_str()) {
            Some(k) => repos[k].name.clone(),
            None => consumers[i].clone(),
        };
        let ghost l = label@;
        labels.push(label);
        proof {
            assert(texts(consumers@)[i as int] == consumers@[i as int]@);
            assert(texts(labels@) =~= texts(before).push(l));
            assert(want.take(i + 1) =~= want.take(i as int).push(l));
        }
        i += 1;
    }
    assert(want.take(i as int) =~= want);
    join_texts(&labels, ", ")
}

fn make_group_id(consumers: &[String]) -> (r: String)
    ensures
        r@ == group_id(texts(consumers@)),
{
    let joined = chars_of(join_texts(consumers, "+").as_str());
    string_of(&with_replaced(&with_replaced(&joined, '/', '_'), '.', '_'))
}

fn find_consumers(graph: &FileGraph, target: &str) -> (r: Vec<ConsumerRepo>)
    ensures
        consumer_texts(r@) == known_consumers(graph.edges@, target@, graph.repositories@),
{
    let repos = &graph.repositories;
    let edges = &graph.edges;
    let mut r: Vec<ConsumerRepo> = Vec::new();
    let mut i: usize = 0;
    assert(consumer_texts(r@) =~= known_consumers(edges@, target@, repos@.take(0)));
    while i < repos.len()
        invariant
            i <= repos@.len(),
            consumer_texts(r@) == known_consumers(edges@, target@, repos@.take(i as int)),
        decreases repos@.len() - i,
    {
        let ghost before = r@;
        let repo = &repos[i];
        proof {
            assert(repos@.take(i + 1).drop_last() =~= repos@.take(i as int));
            assert(repos@.take(i + 1).last() == repos@[i as int]);
        }
        let mut uses = false;
        let mut k: usize = 0;
        while k < edges.len()
            invariant
                k <= edges@.len(),
                uses == exists|m: int|
                    0 <= m < k && is_inbound(#[trigger] edges@[m], target@)
                        && edges@[m].from_repo_id@ == repo.id@,
            decreases edges@.len() - k,
        {
            if inbound(&edges[k], target) && same_text(
                edges[k].from_repo_id.as_str(),
                repo.id.as_str(),
            ) {
                uses = true;
            }
            k += 1;
        }
        assert(uses == is_consumer(edges@, target@, repo.id@));
        if uses {
            r.push(
                ConsumerRepo {
                    id: repo.id.clone(),
                    name: repo.name.clone(),
                    path: repo.path.clone(),
                },
            );
            assert(consumer_texts(r@) =~= consumer_texts(before).push(
                (repo.id@, repo.name@, repo.path@),
            ));
        }
        i += 1;
    }
    assert(repos@.take(i as int) =~= repos@);
    r
}

fn count_files(graph: &FileGraph, target: &str) -> (r: usize)
    ensures
        r == count_in_target(graph.edges@, target@, graph.files@),
{
    let files = &graph.files;
    let edges = &graph.edges;
    let mut n: usize = 0;
    let mut i: usize = 0;
    while i < files.len()
        invariant
            i <= files@.len(),
            n <= i,
            n == count_in_target(edges@, target@, files@.take(i as int)),
        decreases files@.len() - i,
    {
        let file = &files[i];
        proof {
            assert(files@.take(i + 1).drop_last() =~= files@.take(i as int));
            assert(files@.take(i + 1).last() == files@[i as int]);
        }
        let mut inside = false;
        let mut k: usize = 0;
        while k < edges.len()
            invariant
                k <= edges@.len(),
                inside == exists|m: int|
                    0 <= m < k && ((#[trigger] edges@[m]).from_file@ == file@
                        && edges@[m].from_repo_id@ == target@ || edges@[m].to_file@ == file@
                        && edges@[m].to_repo_id@ == target@),
            decreases edges@.len() - k,
        {
            let e = &edges[k];
            if same_text(e.from_file.as_str(), file.as_str()) && same_text(
                e.from_repo_id.as_str(),
                target,
            ) || same_text(e.to_file.as_str(), file.as_str()) && same_text(
                e.to_repo_id.as_str(),
                target,
            ) {
                inside = true;
            }
            k += 1;
        }
        assert(inside == in_target(edges@, target@, file@));
        if inside {
            n += 1;
        }
        i += 1;
    }
    assert(files@.take(i as int) =~= files@);
    n
}

/// What is said of a repository that the graph does not hold.
pub open spec fn unknown_repository(id: Seq<char>) -> Seq<char> {
    "Repository '"@ + id
        + "' not found in the graph. Make sure it has been indexed."@
}

/// Analyses one repository of a file graph.
pub fn analyse_from_graph(target_repo_id: &str, graph: &FileGraph) -> (r: Result<
    SplitAnalysis,
    DomainError,
>)
    ensures
        r is Ok == (repo_at(graph.repositories@, target_repo_id@) >= 0),
        r matches Ok(a) ==> is_analysis(a, *graph, target_repo_id@),
        r matches Err(e) ==> e is NotFound && e->NotFound_0@ == unknown_repository(
            target_repo_id@,
        ),
{
    let at: usize = match find_repo(&graph.repositories, target_repo_id) {
        Some(i) => i,
        None => {
            let mut message = "Repository '".to_string();
            message.append(target_repo_id);
            message.append("' not found in the graph. Make sure it has been indexed.");
            return Err(DomainError::NotFound(message));
        },
    };
    let edges = &graph.edges;
    let target = target_repo_id;
    let public = find_public_files(edges, target);
    let internal = find_internal_files(edges, target);
    let (prints, different) = find_fingerprints(edges, target, &public);
    let ghost want = groups_of(*graph, target@);
    let mut groups: Vec<SplitGroup> = Vec::new();
    let mut i: usize = 0;
    assert(lists_of(different@).len() == different@.len());
    while i < different.len()
        invariant
            i <= different@.len(),
            edges@ == graph.edges@,
            texts(public@) == public_files(edges@, target@),
            texts(internal@) == internal_files(edges@, target@),
            lists_of(prints@) == fingerprints_of(edges@, target@, texts(public@)),
            lists_of(different@) == all_fingerprints(edges@, target@),
            want == groups_of(*graph, target@),
            want.len() == different@.len(),
            group_views(groups@) == want.take(i as int),
        decreases different@.len() - i,
    {
        let print = &different[i];
        let ghost before = groups@;
        let files = pick_files(edges, target, &public, &prints, print);
        let support = find_support(edges, target, &internal, &public, &files);
        let group = SplitGroup {
            id: make_group_id(print),
            label: make_label(&graph.repositories, print),
            consumers: copy_all(print),
            public_files: files,
            support_files: support,
        };
        let ghost v = group@;
        groups.push(group);
        proof {
            assert(lists_of(different@)[i as int] == texts(print@));
            assert(v == want[i as int]);
            assert(group_views(groups@) =~= group_views(before).push(v));
            assert(want.take(i + 1) =~= want.take(i as int).push(v));
        }
        i += 1;
    }
    assert(want.take(i as int) =~= want);
    let ghost unsorted = groups@;
    let groups = arrange(groups);
    let repo = &graph.repositories[at];
    let a = SplitAnalysis {
        target_repo_id: target_repo_id.to_string(),
        target_repo_name: repo.name.clone(),
        target_repo_path: repo.path.clone(),
        groups,
        consumers: find_consumers(graph, target),
        total_files_in_target: count_files(graph, target),
        externally_visible_count: public.len(),
    };
    proof {
        assert(texts(public@).len() == public@.len());
        assert(group_views(unsorted) == groups_of(*graph, target@));
    }
    Ok(a)
}

/// Each public file belongs to exactly one group: that of its fingerprint.
pub proof fn lemma_groups_partition(graph: FileGraph, target: Seq<char>, i: int)
    requires
        0 <= i < public_files(graph.edges@, target).len(),
    ensures
        ({
            let edges = graph.edges@;
            let files = public_files(edges, target);
            let prints = all_fingerprints(edges, target);
            &&& exists|g: int|
                0 <= g < prints.len() && files_with(edges, target, files, #[trigger] prints[g]).contains(
                    files[i],
                )
            &&& forall|g: int, h: int|
                0 <= g < prints.len() && 0 <= h < prints.len() && files_with(
                    edges,
                    target,
                    files,
                    #[trigger] prints[g],
                ).contains(files[i]) && files_with(
                    edges,
                    target,
                    files,
                    #[trigger] prints[h],
                ).contains(files[i]) ==> g == h
        }),
{
    let edges = graph.edges@;
    let files = public_files(edges, target);
    let all = fingerprints_of(edges, target, files);
    let prints = all_fingerprints(edges, target);
    lemma_distinct(all);
    assert(all[i] == fingerprint(edges, target, files[i]));
    assert(all.contains(all[i]));
    assert(prints.contains(all[i]));
    let g = choose|g: int| 0 <= g < prints.len() && prints[g] == all[i];
    lemma_files_with(edges, target, files, prints[g]);
    assert(files.contains(files[i]));
    assert forall|g: int, h: int|
        0 <= g < prints.len() && 0 <= h < prints.len() && files_with(
            edges,
            target,
            files,
            #[trigger] prints[g],
        ).contains(files[i]) && files_with(edges, target, files, #[trigger] prints[h]).contains(
            files[i],
        ) implies g == h by {
        lemma_files_with(edges, target, files, prints[g]);
        lemma_files_with(edges, target, files, prints[h]);
    }
}

proof fn lemma_files_with(
    edges: Seq<FileEdge>,
    target: Seq<char>,
    files: Seq<Seq<char>>,
    print: Seq<Seq<char>>,
)
    ensures
        forall|f: Seq<char>| #[trigger]
            files_with(edges, target, files, print).contains(f) <==> files.contains(f)
                && fingerprint(edges, target, f) == print,
    decreases files.len(),
{
    if files.len() > 0 {
        let p = files.drop_last();
        lemma_files_with(edges, target, p, print);
        let d = files_with(edges, target, p, print);
        let w = files_with(edges, target, files, print);
        assert forall|f: Seq<char>|
            w.contains(f) <==> files.contains(f) && fingerprint(edges, target, f) == print by {
            if files.contains(f) && fingerprint(edges, target, f) == print {
                let k = choose|k: int| 0 <= k < files.len() && files[k] == f;
                if k < p.len() {
                    assert(p[k] == f);
                    assert(p.contains(f));
                    assert(d.contains(f));
                    let m = choose|m: int| 0 <= m < d.len() && d[m] == f;
                    assert(w[m] == f);
                } else {
                    assert(w.last() == f);
                }
            }
            if w.contains(f) {
                let m = choose|m: int| 0 <= m < w.len() && w[m] == f;
                if m < d.len() {
                    assert(d[m] == f);
                    assert(d.contains(f));
                    let k = choose|k: int| 0 <= k < p.len() && p[k] == f;
                    assert(files[k] == f);
                } else {
                    assert(files[files.len() - 1] == f);
                }
            }
        }
    }
}

} // verus!
