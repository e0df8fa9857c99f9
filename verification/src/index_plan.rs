//! The decisions of an indexing run: what kind of run it is, which files take
//! part, what has to be resolved, and where configuration values may be found.

use vstd::prelude::*;
use vstd::slice::slice_subrange;
use vstd::string::*;
use crate::channels::{ChannelEndpoint, EndpointSource};
use crate::collections::{TextMap, TextSet, has_entry, keys_rise};
use crate::domain::{CodeChunk, DomainError, Language, Repository, SymbolReference};
use crate::index_batch::ParsedFile;
use crate::index_changes::Changes;
use crate::order::{text_lt, texts_rise};
use crate::resolve_channels::{is_messaging_package, is_server_package, package_protocol};
use crate::text::{
    begins, char_at, chars_of, contains_text, find_char, has_part, is_at, lines, lines_of,
    occurs_at, opt_text, rows, same_opt, starts_with, string_of, texts, trim_start, trimmed_start,
};
use crate::unicode::{alphanumeric_char, is_alphanumeric};

verus! {

/// How many files are parsed at once where nothing else is set.
pub const DEFAULT_PARSE_CONCURRENCY: usize = 4;

/// The kind of a run.
#[derive(Debug, Clone, Copy, PartialEq, Eq, Structural)]
pub enum IndexMode {
    /// The repository is not known yet.
    Fresh,
    /// What is known of the repository is dropped first.
    Replace,
    /// Only what changed is read.
    Incremental,
}

/// The kind of run for a repository that is known or not, where all is to be
/// indexed anew or not.
pub open spec fn mode_for(force: bool, known: bool) -> IndexMode {
    match (known, force) {
        (false, _) => IndexMode::Fresh,
        (true, true) => IndexMode::Replace,
        (true, false) => IndexMode::Incremental,
    }
}

/// The kind of a run.
pub fn choose_mode(force: bool, known: bool) -> (r: IndexMode)
    ensures
        r == if !known {
            IndexMode::Fresh
        } else if force {
            IndexMode::Replace
        } else {
            IndexMode::Incremental
        },
        r == mode_for(force, known),
{
    if !known {
        IndexMode::Fresh
    } else if force {
        IndexMode::Replace
    } else {
        IndexMode::Incremental
    }
}

/// A store that a repository is dropped from.
#[derive(Debug, Clone, Copy, PartialEq, Eq, Structural)]
pub enum Store {
    Vectors,
    FileHashes,
    CallGraph,
    Channels,
    Analyses,
    Metadata,
}

/// The stores in the order in which a repository is dropped from them: its
/// record goes last.
pub open spec fn drop_order(has_channels: bool) -> Seq<Store> {
    let first = seq![Store::Vectors, Store::FileHashes, Store::CallGraph];
    let last = seq![Store::Analyses, Store::Metadata];
    if has_channels {
        first.push(Store::Channels) + last
    } else {
        first + last
    }
}

/// The stores that a repository is dropped from, in order.
pub fn stores_to_drop(has_channels: bool) -> (r: Vec<Store>)
    ensures
        r@ == drop_order(has_channels),
{
    let mut r: Vec<Store> = Vec::new();
    r.push(Store::Vectors);
    r.push(Store::FileHashes);
    r.push(Store::CallGraph);
    if has_channels {
        r.push(Store::Channels);
    }
    r.push(Store::Analyses);
    r.push(Store::Metadata);
    assert(r@ =~= drop_order(has_channels));
    r
}

/// The error for an id that no repository has.
pub fn repository_missing(id: &str) -> (r: DomainError)
    ensures
        r is NotFound,
        r->NotFound_0@ == "Repository not found: "@ + id@,
{
    let mut m = "Repository not found: ".to_string();
    m.append(id);
    DomainError::NotFound(m)
}

/// The error for a path that no repository lies at.
pub fn repository_missing_at(path: &str) -> (r: DomainError)
    ensures
        r is NotFound,
        r->NotFound_0@ == "Repository not found at path: "@ + path@,
{
    let mut m = "Repository not found at path: ".to_string();
    m.append(path);
    DomainError::NotFound(m)
}

/// The name of a repository: the one that is given, else that of its directory.
pub fn repository_name_for(name: Option<&str>, directory: Option<&str>) -> (r: String)
    ensures
        r@ == match (name, directory) {
            (Some(n), _) => n@,
            (None, Some(d)) => d@,
            (None, None) => "unknown"@,
        },
{
    match (name, directory) {
        (Some(n), _) => n.to_string(),
        (None, Some(d)) => d.to_string(),
        (None, None) => "unknown".to_string(),
    }
}

/// Whether a file takes part.
pub fn is_indexable(language: Language, supported: bool) -> (r: bool)
    ensures
        r == (language != Language::Unknown && supported),
{
    language != Language::Unknown && supported
}

/// Whether there is JavaScript or TypeScript among the languages, and whether
/// PHP.
pub fn indexer_languages(languages: &[Language]) -> (r: (bool, bool))
    ensures
        r.0 == (languages@.contains(Language::JavaScript) || languages@.contains(
            Language::TypeScript,
        )),
        r.1 == languages@.contains(Language::Php),
{
    let mut script = false;
    let mut php = false;
    let mut i: usize = 0;
    while i < languages.len()
        invariant
            i <= languages@.len(),
            script ==> languages@.contains(Language::JavaScript) || languages@.contains(
                Language::TypeScript,
            ),
            php ==> languages@.contains(Language::Php),
            !script ==> forall|k: int|
                0 <= k < i ==> languages@[k] != Language::JavaScript && languages@[k]
                    != Language::TypeScript,
            !php ==> forall|k: int| 0 <= k < i ==> languages@[k] != Language::Php,
        decreases languages@.len() - i,
    {
        let l = languages[i];
        assert(languages@.contains(l));
        if l == Language::JavaScript || l == Language::TypeScript {
            script = true;
        }
        if l == Language::Php {
            php = true;
        }
        i += 1;
    }
    (script, php)
}

/// How many files are parsed at once: at least one.
pub fn parse_concurrency(n: usize) -> (r: usize)
    ensures
        r == if n == 0 {
            1
        } else {
            n
        },
{
    if n == 0 {
        1
    } else {
        n
    }
}

/// How many files are read ahead of the embedding: four times as many as are
/// parsed, and at least eight.
pub fn stream_concurrency(n: usize) -> (r: usize)
    requires
        n * 4 <= usize::MAX,
    ensures
        r == if n * 4 < 8 {
            8
        } else {
            n * 4
        },
{
    let wide: usize = n * 4;
    if wide < 8 {
        8
    } else {
        wide
    }
}

/// The hash of a file: that of the content that was parsed, or of the walk
/// where there is none.
pub fn choose_hash(parsed: String, walked: Option<&String>) -> (r: String)
    ensures
        r@ == if parsed@.len() == 0 && walked is Some {
            walked->Some_0@
        } else {
            parsed@
        },
{
    if parsed.as_str().is_empty() {
        match walked {
            Some(w) => w.clone(),
            None => parsed,
        }
    } else {
        parsed
    }
}

/// What a file becomes: nothing where it could not be parsed. That its endpoints
/// could not be found is no reason to leave it out.
pub fn parsed_file(
    relative_path: String,
    content_hash: String,
    language: Language,
    chunks: Option<Vec<CodeChunk>>,
    endpoints: Option<Vec<ChannelEndpoint>>,
) -> (r: Option<ParsedFile>)
    ensures
        r is Some == chunks is Some,
        r matches Some(f) ==> f.relative_path == relative_path && f.content_hash == content_hash
            && f.language == language && f.chunks == chunks->Some_0 && f.endpoints@ == (
        match endpoints {
            Some(e) => e@,
            None => Seq::empty(),
        }),
{
    match chunks {
        None => None,
        Some(chunks) => {
            let endpoints = match endpoints {
                Some(e) => e,
                None => {
                    let e: Vec<ChannelEndpoint> = Vec::new();
                    assert(e@ =~= Seq::<ChannelEndpoint>::empty());
                    e
                },
            };
            Some(ParsedFile { relative_path, content_hash, language, chunks, endpoints })
        },
    }
}

/// Whether the stored remote is to be replaced: also where there is none now.
pub fn remote_changed(detected: &Option<String>, stored: &Option<String>) -> (r: bool)
    ensures
        r == (opt_text(*detected) != opt_text(*stored)),
{
    !same_opt(detected, stored)
}

/// The file has references and was not read in this run.
pub open spec fn needs_resync(
    refs: Map<Seq<char>, Vec<SymbolReference>>,
    processed: Set<Seq<char>>,
    file: Seq<char>,
) -> bool {
    refs.contains_key(file) && !processed.contains(file)
}

/// The files whose references are written anew though the files did not change.
pub fn files_to_resync(refs: &TextMap<Vec<SymbolReference>>, processed: &TextSet) -> (r: Vec<
    String,
>)
    ensures
        texts_rise(texts(r@)),
        forall|f: Seq<char>|
            texts(r@).contains(f) <==> #[trigger] needs_resync(refs@, processed@, f),
{
    let n: usize = refs.len();
    let ghost es = refs.listing();
    let ghost map = refs@;
    let mut r: Vec<String> = Vec::new();
    let mut i: usize = 0;
    while i < n
        invariant
            i <= n,
            n == es.len(),
            es == refs.listing(),
            keys_rise(es),
            texts_rise(texts(r@)),
            forall|k: int|
                0 <= k < r@.len() ==> !processed@.contains(#[trigger] r@[k]@) && has_entry(
                    es.take(i as int),
                    r@[k]@,
                ),
            forall|k: int|
                0 <= k < i && !processed@.contains((#[trigger] es[k]).key@) ==> texts(
                    r@,
                ).contains(es[k].key@),
        decreases n - i,
    {
        let e = refs.at(i);
        let ghost before = r@;
        let ghost key = e.key@;
        let ghost next = es.take(i + 1);
        if !processed.contains(e.key.as_str()) {
            r.push(e.key.clone());
            proof {
                assert(texts(r@) =~= texts(before).push(key));
                assert forall|a: int, b: int| 0 <= a < b < texts(r@).len() implies text_lt(
                    #[trigger] texts(r@)[a],
                    #[trigger] texts(r@)[b],
                ) by {
                    if b == before.len() {
                        assert(has_entry(es.take(i as int), before[a]@));
                        let k = choose|k: int|
                            0 <= k < es.take(i as int).len() && (#[trigger] es.take(
                                i as int,
                            )[k]).key@ == before[a]@;
                        assert(text_lt(es[k].key@, es[i as int].key@));
                    } else {
                        assert(text_lt(texts(before)[a], texts(before)[b]));
                    }
                }
            }
        }
        proof {
            assert(next[i as int] == es[i as int]);
            assert forall|k: int| 0 <= k < r@.len() implies !processed@.contains(
                #[trigger] r@[k]@,
            ) && has_entry(next, r@[k]@) by {
                if k < before.len() {
                    assert(has_entry(es.take(i as int), before[k]@));
                    let m = choose|m: int|
                        0 <= m < es.take(i as int).len() && (#[trigger] es.take(i as int)[m]).key@
                            == before[k]@;
                    assert(next[m].key@ == before[k]@);
                } else {
                    assert(next[i as int].key@ == key);
                }
            }
            assert forall|k: int|
                0 <= k < i + 1 && !processed@.contains((#[trigger] es[k]).key@) implies texts(
                r@,
            ).contains(es[k].key@) by {
                if k < i {
                    assert(texts(before).contains(es[k].key@));
                    let m = choose|m: int|
                        0 <= m < texts(before).len() && texts(before)[m] == es[k].key@;
                    assert(texts(r@)[m] == texts(before)[m]);
                } else {
                    assert(texts(r@)[before.len() as int] == key);
                }
            }
        }
        i += 1;
    }
    proof {
        assert(es.take(i as int) =~= es);
        assert forall|f: Seq<char>| texts(r@).contains(f) <==> #[trigger] needs_resync(
            map,
            processed@,
            f,
        ) by {
            if texts(r@).contains(f) {
                let k = choose|k: int| 0 <= k < texts(r@).len() && texts(r@)[k] == f;
                assert(r@[k]@ == f);
                assert(has_entry(es, f));
            }
            if needs_resync(map, processed@, f) {
                assert(has_entry(es, f));
                let k = choose|k: int| 0 <= k < es.len() && (#[trigger] es[k]).key@ == f;
                assert(texts(r@).contains(es[k].key@));
            }
        }
    }
    r
}

/// Whether analyses of the call graph have become stale.
pub fn call_graph_changed(changes: &Changes, resync: &[String]) -> (r: bool)
    ensures
        r == (!changes.quiet() || resync@.len() > 0),
{
    changes.any() || resync.len() > 0
}

/// The endpoints that were found in the source, in order.
pub open spec fn extracted(endpoints: Seq<ChannelEndpoint>) -> Seq<ChannelEndpoint>
    decreases endpoints.len(),
{
    if endpoints.len() == 0 {
        endpoints
    } else if endpoints.last().source == EndpointSource::TreeSitter {
        extracted(endpoints.drop_last()).push(endpoints.last())
    } else {
        extracted(endpoints.drop_last())
    }
}

/// Keeps the endpoints that were found in the source.
pub fn keep_extracted(endpoints: Vec<ChannelEndpoint>) -> (r: Vec<ChannelEndpoint>)
    ensures
        r@ == extracted(endpoints@),
{
    let ghost all = endpoints@;
    let mut r: Vec<ChannelEndpoint> = Vec::new();
    assert(r@ =~= extracted(all.take(0)));
    for e in it: endpoints
        invariant
            it.seq() == all,
            r@ == extracted(all.take(it.index() as int)),
    {
        proof {
            let i = it.index() as int;
            assert(all.take(i + 1).drop_last() =~= all.take(i));
            assert(all.take(i + 1).last() == e);
        }
        if e.source == EndpointSource::TreeSitter {
            r.push(e);
        }
    }
    assert(all.take(all.len() as int) =~= all);
    r
}

/// How channels are resolved.
#[derive(Debug, Clone, Copy, PartialEq, Eq, Structural)]
pub enum Resolution {
    /// There is nothing to resolve.
    Skip,
    /// The sources need not be read.
    WithoutSources,
    /// The sources are read for values.
    WithSources,
}

/// The reference calls into a package that channels go through.
pub open spec fn calls_messaging(r: SymbolReference) -> bool {
    r.callee_package is Some && (package_protocol(r.callee_package->Some_0@) is Some
        || is_server_package(r.callee_package->Some_0@))
}

/// One of the references calls into a package that channels go through.
pub open spec fn some_messaging(refs: Seq<SymbolReference>) -> bool {
    exists|i: int| 0 <= i < refs.len() && calls_messaging(#[trigger] refs[i])
}

/// One of the endpoints is not resolved.
pub open spec fn some_unresolved(endpoints: Seq<ChannelEndpoint>) -> bool {
    exists|i: int| 0 <= i < endpoints.len() && !(#[trigger] endpoints[i]).resolved
}

/// A file has a reference into a package that channels go through.
pub open spec fn some_file_messaging(refs: Map<Seq<char>, Vec<SymbolReference>>) -> bool {
    exists|f: Seq<char>| #[trigger] refs.contains_key(f) && some_messaging(refs[f]@)
}

fn any_messaging(refs: &[SymbolReference]) -> (r: bool)
    ensures
        r == some_messaging(refs@),
{
    let mut i: usize = 0;
    while i < refs.len()
        invariant
            i <= refs@.len(),
            forall|k: int| 0 <= k < i ==> !calls_messaging(#[trigger] refs@[k]),
        decreases refs@.len() - i,
    {
        if let Some(p) = &refs[i].callee_package {
            if is_messaging_package(p.as_str()) {
                assert(calls_messaging(refs@[i as int]));
                return true;
            }
        }
        i += 1;
    }
    false
}

fn any_unresolved(endpoints: &[ChannelEndpoint]) -> (r: bool)
    ensures
        r == some_unresolved(endpoints@),
{
    let mut i: usize = 0;
    while i < endpoints.len()
        invariant
            i <= endpoints@.len(),
            forall|k: int| 0 <= k < i ==> (#[trigger] endpoints@[k]).resolved,
        decreases endpoints@.len() - i,
    {
        if !endpoints[i].resolved {
            return true;
        }
        i += 1;
    }
    false
}

/// How the channels of endpoints and references are resolved.
pub open spec fn resolution_for(
    endpoints: Seq<ChannelEndpoint>,
    refs: Map<Seq<char>, Vec<SymbolReference>>,
    empty: bool,
) -> Resolution {
    if endpoints.len() == 0 && empty {
        Resolution::Skip
    } else if some_unresolved(endpoints) || some_file_messaging(refs) {
        Resolution::WithSources
    } else {
        Resolution::WithoutSources
    }
}

/// How channels are resolved: not at all without endpoints and references; and
/// the sources are read only where an endpoint is not resolved or a reference
/// can give rise to one that is not.
pub fn choose_resolution(
    endpoints: &[ChannelEndpoint],
    refs: &TextMap<Vec<SymbolReference>>,
) -> (r: Resolution)
    ensures
        r == if endpoints@.len() == 0 && refs.listing().len() == 0 {
            Resolution::Skip
        } else if some_unresolved(endpoints@) || some_file_messaging(refs@) {
            Resolution::WithSources
        } else {
            Resolution::WithoutSources
        },
        r == resolution_for(endpoints@, refs@, refs.listing().len() == 0),
{
    let n: usize = refs.len();
    if endpoints.len() == 0 && n == 0 {
        return Resolution::Skip;
    }
    if any_unresolved(endpoints) {
        return Resolution::WithSources;
    }
    let ghost es = refs.listing();
    let mut i: usize = 0;
    while i < n
        invariant
            i <= n,
            n == es.len(),
            es == refs.listing(),
            !some_unresolved(endpoints@),
            !(endpoints@.len() == 0 && refs.listing().len() == 0),
            forall|k: int|
                0 <= k < es.len() ==> refs@.contains_key((#[trigger] es[k]).key@)
                    && refs@[es[k].key@] == es[k].value,
            forall|k: int| 0 <= k < i ==> !some_messaging((#[trigger] es[k]).value@),
        decreases n - i,
    {
        let e = refs.at(i);
        if any_messaging(&e.value) {
            assert(refs@.contains_key(es[i as int].key@));
            return Resolution::WithSources;
        }
        i += 1;
    }
    assert(!some_file_messaging(refs@)) by {
        if some_file_messaging(refs@) {
            let f = choose|f: Seq<char>| #[trigger]
                refs@.contains_key(f) && some_messaging(refs@[f]@);
            assert(has_entry(es, f));
            let k = choose|k: int| 0 <= k < es.len() && (#[trigger] es[k]).key@ == f;
            assert(refs@[es[k].key@] == es[k].value);
        }
    }
    Resolution::WithoutSources
}

/// A character of an identifier.
pub open spec fn is_ident_char(c: char) -> bool {
    alphanumeric_char(c) || c == '_' || c == '$'
}

/// How many characters of an identifier the text begins with.
pub open spec fn ident_len(s: Seq<char>) -> nat
    decreases s.len(),
{
    if s.len() == 0 || !is_ident_char(s[0]) {
        0
    } else {
        1 + ident_len(s.skip(1))
    }
}

/// The identifier that a text begins with.
pub open spec fn ident_of(s: Seq<char>) -> Seq<char> {
    s.take(ident_len(s) as int)
}

fn find_ident(s: &[char]) -> (r: &[char])
    ensures
        r@ == ident_of(s@),
{
    let mut n: usize = 0;
    assert(s@.skip(0) =~= s@);
    while n < s.len() && (is_alphanumeric(s[n]) || s[n] == '_' || s[n] == '$')
        invariant
            n <= s@.len(),
            ident_len(s@) == n + ident_len(s@.skip(n as int)),
        decreases s@.len() - n,
    {
        proof {
            assert(s@.skip(n as int)[0] == s@[n as int]);
            assert(s@.skip(n as int).skip(1) =~= s@.skip(n + 1));
        }
        n += 1;
    }
    proof {
        if n < s@.len() {
            assert(s@.skip(n as int)[0] == s@[n as int]);
        }
        assert(s@.subrange(0, n as int) =~= ident_of(s@));
    }
    slice_subrange(s, 0, n)
}

/// The identifier that a text begins with, such as `config` of
/// `config: Config = {`.
pub fn leading_ident(s: &str) -> (r: String)
    ensures
        r@ == ident_of(s@),
{
    let cs = chars_of(s);
    string_of(find_ident(&cs))
}

/// The text without the prefix, as often as it stands there.
pub open spec fn without_prefix(s: Seq<char>, prefix: Seq<char>) -> Seq<char>
    decreases s.len(),
{
    if prefix.len() > 0 && starts_with(s, prefix) {
        without_prefix(s.skip(prefix.len() as int), prefix)
    } else {
        s
    }
}

fn drop_prefix<'a>(s: &'a [char], prefix: &[char]) -> (r: &'a [char])
    requires
        prefix@.len() > 0,
    ensures
        r@ == without_prefix(s@, prefix@),
{
    let mut from: usize = 0;
    let n: usize = s.len();
    assert(s@.skip(0) =~= s@);
    while is_at(s, prefix, from)
        invariant
            from <= n,
            n == s@.len(),
            prefix@.len() > 0,
            without_prefix(s@, prefix@) == without_prefix(s@.skip(from as int), prefix@),
        decreases n - from,
    {
        proof {
            let t = s@.skip(from as int);
            assert(t.subrange(0, prefix@.len() as int) =~= s@.subrange(
                from as int,
                from + prefix@.len(),
            ));
            assert(t.skip(prefix@.len() as int) =~= s@.skip(from + prefix@.len()));
        }
        from = from + prefix.len();
    }
    proof {
        let t = s@.skip(from as int);
        if occurs_at(t, prefix@, 0) {
            assert(t.subrange(0, prefix@.len() as int) =~= s@.subrange(
                from as int,
                from + prefix@.len(),
            ));
        }
        assert(s@.subrange(from as int, n as int) =~= t);
    }
    slice_subrange(s, from, n)
}

/// The declaration in a line: what is left without space and `export` in front.
pub open spec fn declaration(line: Seq<char>) -> Seq<char> {
    trim_start(without_prefix(trim_start(line), "export "@))
}

/// The name that a line declares: an object bound by `const`, or a class.
pub open spec fn declared_name(line: Seq<char>) -> Option<Seq<char>> {
    let d = declaration(line);
    if starts_with(d, "const "@) {
        let name = ident_of(d.skip("const "@.len() as int));
        if name.len() > 0 && find_char(d, '{') >= 0 {
            Some(name)
        } else {
            None
        }
    } else if starts_with(d, "class "@) {
        let name = ident_of(d.skip("class "@.len() as int));
        if name.len() > 0 {
            Some(name)
        } else {
            None
        }
    } else {
        None
    }
}

fn find_declared(line: &[char]) -> (r: Option<String>)
    ensures
        opt_text(r) == declared_name(line@),
{
    let export = chars_of("export ");
    let constant = chars_of("const ");
    let class = chars_of("class ");
    proof {
        reveal_strlit("export ");
    }
    let d = trimmed_start(drop_prefix(trimmed_start(line), &export));
    if begins(d, &constant) {
        let rest = slice_subrange(d, constant.len(), d.len());
        assert(rest@ =~= d@.skip("const "@.len() as int));
        let name = find_ident(rest);
        if name.len() > 0 && char_at(d, '{', 0).is_some() {
            return Some(string_of(name));
        }
        None
    } else if begins(d, &class) {
        let rest = slice_subrange(d, class.len(), d.len());
        assert(rest@ =~= d@.skip("class "@.len() as int));
        let name = find_ident(rest);
        if name.len() > 0 {
            Some(string_of(name))
        } else {
            None
        }
    } else {
        None
    }
}

/// The names that lines declare, in order.
pub open spec fn declared_names(lines: Seq<Seq<char>>) -> Seq<Seq<char>>
    decreases lines.len(),
{
    if lines.len() == 0 {
        lines
    } else {
        let d = declared_names(lines.drop_last());
        match declared_name(lines.last()) {
            Some(n) => d.push(n),
            None => d,
        }
    }
}

/// The names that a source declares.
pub fn candidate_names(source: &str) -> (r: Vec<String>)
    ensures
        texts(r@) == declared_names(lines(source@)),
{
    let cs = chars_of(source);
    let all = lines_of(&cs);
    let ghost ls = rows(all@);
    let mut r: Vec<String> = Vec::new();
    let mut i: usize = 0;
    assert(texts(r@) =~= declared_names(ls.take(0)));
    while i < all.len()
        invariant
            i <= all@.len(),
            ls == rows(all@),
            texts(r@) == declared_names(ls.take(i as int)),
        decreases all@.len() - i,
    {
        let ghost before = r@;
        proof {
            assert(ls.take(i + 1).drop_last() =~= ls.take(i as int));
            assert(ls.take(i + 1).last() == all@[i as int]@);
        }
        if let Some(n) = find_declared(&all[i]) {
            let ghost name = n@;
            r.push(n);
            assert(texts(r@) =~= texts(before).push(name));
        }
        i += 1;
    }
    assert(ls.take(i as int) =~= ls);
    r
}

/// The names under which a source is searched for values: those that it
/// declares; an empty name where it declares none but creates objects.
pub open spec fn search_names(source: Seq<char>) -> Seq<Seq<char>> {
    let names = declared_names(lines(source));
    if names.len() > 0 {
        names
    } else if contains_text(source, "new "@) {
        seq![Seq::empty()]
    } else {
        Seq::empty()
    }
}

/// The names under which a source is searched for values.
pub fn source_candidates(source: &str) -> (r: Vec<String>)
    ensures
        texts(r@) == search_names(source@),
{
    let mut names = candidate_names(source);
    assert(texts(names@).len() == names@.len());
    if names.len() == 0 {
        let cs = chars_of(source);
        let word = chars_of("new ");
        if has_part(&cs, &word) {
            let empty = String::new();
            assert(empty@ =~= Seq::<char>::empty());
            names.push(empty);
            assert(texts(names@) =~= seq![Seq::<char>::empty()]);
        } else {
            assert(texts(names@) =~= Seq::<Seq<char>>::empty());
        }
    }
    names
}

} // verus!
