//! What indexing owes to the files it was given.

use vstd::prelude::*;
use crate::channels::ChannelEndpoint;
use crate::domain::{CodeChunk, SymbolReference};
use crate::index_batch::{
    ParsedFile, after_file, all_chunks, dealt_out, lemma_offset, next_with_chunks, offset,
    total_chunks,
};
use crate::index_plan::{
    Store, calls_messaging, declaration, declared_name, declared_names, drop_order, extracted,
    ident_len, ident_of, is_ident_char, mode_for, needs_resync, resolution_for, search_names,
    some_messaging, some_unresolved,
};
use crate::index_run::stored_hash;
use crate::index_write::{kept_chunks, kept_embeddings, kept_hashes, kept_places, language_count};
use crate::picks::{count_where, sum_of};
use crate::resolve_channels::{is_server_package, package_protocol};
use crate::text::{contains_text, lemma_find_char_from, lines, starts_with, trim_start};

verus! {

/// The number of chunks of files is that of all their chunks together.
proof fn lemma_total_chunks(files: Seq<ParsedFile>)
    ensures
        total_chunks(files) == all_chunks(files).len(),
    decreases files.len(),
{
    if files.len() > 0 {
        lemma_total_chunks(files.drop_last());
    }
}

/// A file joins those that wait. They go on together as soon as they have 128
/// chunks, and none goes on before.
pub proof fn lemma_batches_are_full(pending: Seq<ParsedFile>, file: ParsedFile)
    ensures
        ({
            let (waits, batch) = after_file(pending, file);
            &&& batch + waits == pending.push(file)
            &&& batch.len() == 0 || waits.len() == 0
            &&& all_chunks(pending.push(file)).len() >= 128 ==> batch == pending.push(file)
            &&& all_chunks(pending.push(file)).len() < 128 ==> waits == pending.push(file)
        }),
{
    lemma_total_chunks(pending.push(file));
    let (waits, batch) = after_file(pending, file);
    assert(batch + waits =~= pending.push(file));
}

/// A chunk stands among those of a batch if and only if a file of it has it.
pub proof fn lemma_chunks_of_batch(files: Seq<ParsedFile>, c: CodeChunk)
    ensures
        all_chunks(files).contains(c) <==> exists|i: int|
            0 <= i < files.len() && (#[trigger] files[i]).chunks@.contains(c),
    decreases files.len(),
{
    if files.len() > 0 {
        let d = files.drop_last();
        lemma_chunks_of_batch(d, c);
        let before = all_chunks(d);
        let all = all_chunks(files);
        let v = files.last().chunks@;
        if all.contains(c) {
            let k = choose|k: int| 0 <= k < all.len() && all[k] == c;
            if k < before.len() {
                assert(before[k] == c);
                let i = choose|i: int| 0 <= i < d.len() && (#[trigger] d[i]).chunks@.contains(c);
                assert(files[i].chunks@.contains(c));
            } else {
                assert(v[k - before.len()] == c);
                assert(files[files.len() - 1].chunks@.contains(c));
            }
        }
        if exists|i: int| 0 <= i < files.len() && (#[trigger] files[i]).chunks@.contains(c) {
            let i = choose|i: int|
                0 <= i < files.len() && (#[trigger] files[i]).chunks@.contains(c);
            if i < d.len() {
                assert(d[i].chunks@.contains(c));
                let k = choose|k: int| 0 <= k < before.len() && before[k] == c;
                assert(all[k] == c);
            } else {
                let k = choose|k: int| 0 <= k < v.len() && v[k] == c;
                assert(all[before.len() + k] == c);
            }
        }
    }
}

/// A file is written if and only if it was embedded.
pub proof fn lemma_kept_places<E>(embeddings: Seq<Option<Vec<E>>>, n: nat, i: usize)
    requires
        n <= embeddings.len() <= usize::MAX,
    ensures
        kept_places(embeddings, n).contains(i) <==> i < n && embeddings[i as int] is Some,
    decreases n,
{
    if n > 0 {
        lemma_kept_places(embeddings, (n - 1) as nat, i);
        let before = kept_places(embeddings, (n - 1) as nat);
        let all = kept_places(embeddings, n);
        if before.contains(i) {
            let k = choose|k: int| 0 <= k < before.len() && before[k] == i;
            assert(all[k] == i);
        } else if all.contains(i) {
            let k = choose|k: int| 0 <= k < all.len() && all[k] == i;
            if k < before.len() {
                assert(before[k] == i);
            }
        }
        if i == n - 1 && embeddings[i as int] is Some {
            assert(all[before.len() as int] == i);
        }
    }
}

/// The hash of a file is stored, under its path and for its repository, if and
/// only if the file was embedded.
pub proof fn lemma_kept_hashes<E>(
    files: Seq<ParsedFile>,
    embeddings: Seq<Option<Vec<E>>>,
    repository_id: Seq<char>,
    n: nat,
    row: (Seq<char>, Seq<char>, Seq<char>),
)
    requires
        n <= files.len(),
        n <= embeddings.len(),
    ensures
        kept_hashes(files, embeddings, repository_id, n).contains(row) <==> exists|i: int|
            0 <= i < n && embeddings[i] is Some && (#[trigger] files[i]).relative_path@ == row.0
                && files[i].content_hash@ == row.1 && row.2 == repository_id,
    decreases n,
{
    if n > 0 {
        let m = (n - 1) as nat;
        lemma_kept_hashes(files, embeddings, repository_id, m, row);
        let before = kept_hashes(files, embeddings, repository_id, m);
        let all = kept_hashes(files, embeddings, repository_id, n);
        if before.contains(row) {
            let k = choose|k: int| 0 <= k < before.len() && before[k] == row;
            assert(all[k] == row);
        } else if all.contains(row) {
            let k = choose|k: int| 0 <= k < all.len() && all[k] == row;
            if k < before.len() {
                assert(before[k] == row);
            }
            assert(files[n - 1].relative_path@ == row.0);
        }
        if embeddings[n - 1] is Some && files[n - 1].relative_path@ == row.0 && files[n
            - 1].content_hash@ == row.1 && row.2 == repository_id {
            assert(all[before.len() as int] == row);
        }
    }
}

/// The chunks of every embedded file are written, each with its embedding, and
/// no others: there are as many embeddings as chunks where each file has as many.
pub proof fn lemma_kept_chunks<E>(
    flat: Seq<CodeChunk>,
    counts: Seq<usize>,
    embeddings: Seq<Option<Vec<E>>>,
    n: nat,
    c: CodeChunk,
)
    requires
        n <= counts.len() == embeddings.len(),
        offset(counts, counts.len() as int) == flat.len(),
    ensures
        kept_chunks(flat, counts, embeddings, n).contains(c) <==> exists|i: int, k: int|
            0 <= i < n && #[trigger] embeddings[i] is Some && offset(counts, i) <= k < offset(
                counts,
                i + 1,
            ) && #[trigger] flat[k] == c,
        (forall|i: int|
            0 <= i < n && (#[trigger] embeddings[i]) is Some ==> embeddings[i]->Some_0@.len()
                == counts[i]) ==> kept_embeddings(embeddings, n).len() == kept_chunks(
            flat,
            counts,
            embeddings,
            n,
        ).len(),
    decreases n,
{
    if n > 0 {
        let m = (n - 1) as nat;
        lemma_kept_chunks(flat, counts, embeddings, m, c);
        lemma_offset(counts, n as int, counts.len() as int);
        lemma_offset(counts, n - 1, n as int);
        let before = kept_chunks(flat, counts, embeddings, m);
        let all = kept_chunks(flat, counts, embeddings, n);
        let a = offset(counts, n - 1);
        let b = offset(counts, n as int);
        let part = flat.subrange(a, b);
        if before.contains(c) {
            let k = choose|k: int| 0 <= k < before.len() && before[k] == c;
            assert(all[k] == c);
        } else if all.contains(c) {
            let k = choose|k: int| 0 <= k < all.len() && all[k] == c;
            if k < before.len() {
                assert(before[k] == c);
            } else {
                assert(part[k - before.len()] == flat[a + k - before.len()]);
                assert(embeddings[n - 1] is Some);
            }
        }
        if exists|i: int, k: int|
            0 <= i < n && #[trigger] embeddings[i] is Some && offset(counts, i) <= k < offset(
                counts,
                i + 1,
            ) && #[trigger] flat[k] == c {
            let (i, k) = choose|i: int, k: int|
                0 <= i < n && #[trigger] embeddings[i] is Some && offset(counts, i) <= k < offset(
                    counts,
                    i + 1,
                ) && #[trigger] flat[k] == c;
            if i == n - 1 {
                assert(part[k - a] == c);
                assert(all[before.len() + k - a] == c);
            }
        }
    }
}

/// The stats of a language count the embedded files in it and their chunks.
pub proof fn lemma_language_counts<E>(
    files: Seq<ParsedFile>,
    counts: Seq<usize>,
    embeddings: Seq<Option<Vec<E>>>,
    language: Seq<char>,
    n: nat,
)
    requires
        n <= files.len(),
        n <= counts.len(),
        n <= embeddings.len(),
    ensures
        ({
            let places = Seq::new(n, |i: int| i);
            &&& language_count(files, counts, embeddings, language, n).0 == count_where(
                places,
                embedded_in(files, embeddings, language),
            )
            &&& language_count(files, counts, embeddings, language, n).1 == sum_of(
                places,
                |i: int|
                    if embedded_in(files, embeddings, language)(i) {
                        counts[i] as int
                    } else {
                        0
                    },
            )
        }),
    decreases n,
{
    if n > 0 {
        lemma_language_counts(files, counts, embeddings, language, (n - 1) as nat);
        let places = Seq::new(n, |i: int| i);
        assert(places.drop_last() =~= Seq::new((n - 1) as nat, |i: int| i));
        let f = |i: int|
            if embedded_in(files, embeddings, language)(i) {
                counts[i] as int
            } else {
                0
            };
        assert(places.last() == n - 1);
        assert(sum_of(places, f) == sum_of(places.drop_last(), f) + f(n - 1));
    }
}

/// The file at the place is in the language and was embedded.
pub open spec fn embedded_in<E>(
    files: Seq<ParsedFile>,
    embeddings: Seq<Option<Vec<E>>>,
    language: Seq<char>,
) -> spec_fn(int) -> bool {
    |i: int| embeddings[i] is Some && files[i].language.name() == language
}

/// Only what the extractor found is kept.
pub proof fn lemma_extracted(es: Seq<ChannelEndpoint>, e: ChannelEndpoint)
    ensures
        extracted(es).contains(e) <==> es.contains(e) && e.source is TreeSitter,
    decreases es.len(),
{
    if es.len() > 0 {
        let d = es.drop_last();
        lemma_extracted(d, e);
        let before = extracted(d);
        let all = extracted(es);
        if before.contains(e) {
            let k = choose|k: int| 0 <= k < before.len() && before[k] == e;
            assert(all[k] == e);
            let m = choose|m: int| 0 <= m < d.len() && d[m] == e;
            assert(es[m] == e);
        } else if all.contains(e) {
            let k = choose|k: int| 0 <= k < all.len() && all[k] == e;
            if k < before.len() {
                assert(before[k] == e);
            }
            assert(es[es.len() - 1] == e);
        }
        if es.contains(e) && e.source is TreeSitter {
            let m = choose|m: int| 0 <= m < es.len() && es[m] == e;
            if m < d.len() {
                assert(d[m] == e);
            } else {
                assert(all[before.len() as int] == e);
            }
        }
    }
}

/// A repository is dropped from every store, from its channels where there are
/// any, and from the metadata last.
pub proof fn lemma_every_store_is_dropped(has_channels: bool)
    ensures
        drop_order(has_channels).contains(Store::Vectors),
        drop_order(has_channels).contains(Store::FileHashes),
        drop_order(has_channels).contains(Store::CallGraph),
        drop_order(has_channels).contains(Store::Analyses),
        drop_order(has_channels).contains(Store::Channels) <==> has_channels,
        drop_order(has_channels).last() is Metadata,
{
    let s = drop_order(has_channels);
    assert(s[0] is Vectors && s[1] is FileHashes && s[2] is CallGraph);
    if has_channels {
        assert(s[3] is Channels);
        assert(s[4] is Analyses);
    } else {
        assert(s[3] is Analyses);
        assert forall|k: int| 0 <= k < s.len() implies !(s[k] is Channels) by {}
    }
}

proof fn lemma_ident(name: Seq<char>, rest: Seq<char>)
    requires
        forall|i: int| 0 <= i < name.len() ==> is_ident_char(#[trigger] name[i]),
        rest.len() > 0,
        !is_ident_char(rest[0]),
    ensures
        ident_of(name + rest) == name,
        ident_len(name + rest) == name.len(),
    decreases name.len(),
{
    let s = name + rest;
    if name.len() == 0 {
        assert(s =~= rest);
        assert(ident_of(s) =~= name);
    } else {
        let d = name.skip(1);
        assert forall|i: int| 0 <= i < d.len() implies is_ident_char(#[trigger] d[i]) by {
            assert(d[i] == name[i + 1]);
        }
        lemma_ident(d, rest);
        assert(s[0] == name[0]);
        assert(s.skip(1) =~= d + rest);
        assert(ident_of(s) =~= name);
    }
}

/// A line that declares a constant object or a class gives the name it declares.
pub proof fn lemma_declared(name: Seq<char>, rest: Seq<char>)
    requires
        name.len() > 0,
        forall|i: int| 0 <= i < name.len() ==> is_ident_char(#[trigger] name[i]),
        rest.len() > 0,
        !is_ident_char(rest[0]),
    ensures
        rest.contains('{') ==> declared_name("const "@ + name + rest) == Some(name),
        !name.contains('{') && !rest.contains('{') ==> declared_name("const "@ + name + rest)
            is None,
        declared_name("class "@ + name + rest) == Some(name),
{
    reveal_strlit("const ");
    reveal_strlit("class ");
    reveal_strlit("export ");
    lemma_ident(name, rest);
    let a = "const "@ + name + rest;
    let b = "class "@ + name + rest;
    assert(a[0] == 'c' && b[0] == 'c');
    assert(trim_start(a) == a && trim_start(b) == b);
    assert(!starts_with(a, "export "@)) by {
        if starts_with(a, "export "@) {
            assert(a.subrange(0, 7)[0] == a[0]);
        }
    }
    assert(!starts_with(b, "export "@)) by {
        if starts_with(b, "export "@) {
            assert(b.subrange(0, 7)[0] == b[0]);
        }
    }
    assert(declaration(a) == a && declaration(b) == b);
    assert(a.subrange(0, 6) =~= "const "@);
    assert(b.subrange(0, 6) =~= "class "@);
    assert(!starts_with(b, "const "@)) by {
        if starts_with(b, "const "@) {
            assert(b.subrange(0, 6)[1] == b[1]);
        }
    }
    assert(a.skip(6) =~= name + rest);
    assert(b.skip(6) =~= name + rest);
    lemma_find_char_from(a, '{', 0);
    if rest.contains('{') {
        let k = choose|k: int| 0 <= k < rest.len() && rest[k] == '{';
        assert(a[6 + name.len() + k] == '{');
    }
    if !name.contains('{') && !rest.contains('{') {
        assert forall|i: int| 0 <= i < a.len() implies a[i] != '{' by {
            if i < 6 {
                assert(a[i] == "const "@[i]);
            } else if i < 6 + name.len() {
                assert(a[i] == name[i - 6]);
                assert(name.contains(name[i - 6]));
            } else {
                assert(a[i] == rest[i - 6 - name.len()]);
                assert(rest.contains(rest[i - 6 - name.len()]));
            }
        }
    }
}

/// Embeddings of a batch are dealt out to its files as their chunks were counted:
/// each file has as many, and they are those at its chunks' places.
pub proof fn lemma_dealt<E>(
    dealt: Seq<Option<Vec<E>>>,
    all: Seq<E>,
    counts: Seq<usize>,
    i: int,
    k: int,
)
    requires
        dealt_out(dealt, all, counts),
        offset(counts, counts.len() as int) <= all.len(),
        0 <= i < counts.len(),
        0 <= k < counts[i],
    ensures
        dealt[i] is Some,
        dealt[i]->Some_0@.len() == counts[i],
        dealt[i]->Some_0@[k] == all[offset(counts, i) + k],
        i == 0 ==> offset(counts, i) == 0,
        i > 0 ==> offset(counts, i) == offset(counts, i - 1) + counts[i - 1],
{
    lemma_offset(counts, 0, i);
    lemma_offset(counts, i + 1, counts.len() as int);
    assert(offset(counts, i + 1) == offset(counts, i) + counts[i]);
}

/// A call into the package of a broker or of a server has the sources read.
pub proof fn lemma_messaging_is_seen(refs: Seq<SymbolReference>, i: int)
    requires
        0 <= i < refs.len(),
        refs[i].callee_package is Some,
        package_protocol(refs[i].callee_package->Some_0@) is Some || is_server_package(
            refs[i].callee_package->Some_0@,
        ),
    ensures
        some_messaging(refs),
{
    assert(calls_messaging(refs[i]));
}

/// The references of a file are stored anew if and only if there are any and the
/// file was not processed.
pub proof fn lemma_resync(
    refs: Map<Seq<char>, Vec<SymbolReference>>,
    processed: Set<Seq<char>>,
    file: Seq<char>,
)
    ensures
        processed.contains(file) || !refs.contains_key(file) ==> !needs_resync(
            refs,
            processed,
            file,
        ),
        refs.contains_key(file) && !processed.contains(file) ==> needs_resync(
            refs,
            processed,
            file,
        ),
{
}

/// Every declaration of a source is searched for by its name. One that declares
/// nothing but makes something is searched for as a whole.
pub proof fn lemma_search_names(source: Seq<char>, k: int)
    requires
        0 <= k < lines(source).len(),
    ensures
        declared_name(lines(source)[k]) matches Some(n) ==> search_names(source).contains(n),
        (forall|i: int|
            0 <= i < lines(source).len() ==> declared_name(#[trigger] lines(source)[i]) is None)
            ==> search_names(source) == if contains_text(source, "new "@) {
            seq![Seq::<char>::empty()]
        } else {
            Seq::empty()
        },
{
    let ls = lines(source);
    if declared_name(ls[k]) is Some {
        lemma_declared_names(ls, k);
        let n = declared_name(ls[k])->Some_0;
        assert(declared_names(ls).contains(n));
        let i = choose|i: int| 0 <= i < declared_names(ls).len() && declared_names(ls)[i] == n;
    }
    if forall|i: int| 0 <= i < ls.len() ==> declared_name(#[trigger] ls[i]) is None {
        lemma_none_declared(ls);
    }
}

proof fn lemma_declared_names(ls: Seq<Seq<char>>, k: int)
    requires
        0 <= k < ls.len(),
        declared_name(ls[k]) is Some,
    ensures
        declared_names(ls).contains(declared_name(ls[k])->Some_0),
    decreases ls.len(),
{
    let d = ls.drop_last();
    let n = declared_name(ls[k])->Some_0;
    let before = declared_names(d);
    let all = declared_names(ls);
    if k < d.len() {
        assert(d[k] == ls[k]);
        lemma_declared_names(d, k);
        let i = choose|i: int| 0 <= i < before.len() && before[i] == n;
        assert(all[i] == n);
    } else {
        assert(all[before.len() as int] == n);
    }
}

proof fn lemma_none_declared(ls: Seq<Seq<char>>)
    requires
        forall|i: int| 0 <= i < ls.len() ==> declared_name(#[trigger] ls[i]) is None,
    ensures
        declared_names(ls).len() == 0,
    decreases ls.len(),
{
    if ls.len() > 0 {
        let d = ls.drop_last();
        assert forall|i: int| 0 <= i < d.len() implies declared_name(#[trigger] d[i]) is None by {
            assert(d[i] == ls[i]);
        }
        lemma_none_declared(d);
        assert(declared_name(ls[ls.len() - 1]) is None);
    }
}

/// A file is stored under the hash of what was parsed, and under that of the walk
/// only where parsing gave none.
pub proof fn lemma_stored_hash(file: ParsedFile, walked: Option<&String>)
    ensures
        file.content_hash@.len() > 0 ==> stored_hash(file, walked) == file.content_hash@,
        file.content_hash@.len() == 0 && walked is Some ==> stored_hash(file, walked)
            == walked->Some_0@,
{
}

/// Embedding goes on at the next file that has chunks: it passes over files with
/// none, and over no other.
pub proof fn lemma_next_file(counts: Seq<usize>, i: int)
    requires
        0 <= i <= counts.len(),
    ensures
        ({
            let n = next_with_chunks(counts, i);
            &&& i <= n <= counts.len()
            &&& n < counts.len() ==> counts[n] > 0
            &&& forall|k: int| i <= k < n ==> #[trigger] counts[k] == 0
        }),
    decreases counts.len() - i,
{
    if i < counts.len() && counts[i] == 0 {
        lemma_next_file(counts, i + 1);
    }
}

/// A repository that is not known is indexed afresh; a known one only by what
/// changed, unless all is to be indexed anew.
pub proof fn lemma_modes(force: bool, known: bool)
    ensures
        mode_for(force, known) is Fresh <==> !known,
        mode_for(force, known) is Replace <==> known && force,
        mode_for(force, known) is Incremental <==> known && !force,
{
}

/// Sources are read wherever an endpoint is not resolved.
pub proof fn lemma_unresolved_needs_sources(
    endpoints: Seq<ChannelEndpoint>,
    refs: Map<Seq<char>, Vec<SymbolReference>>,
    i: int,
)
    requires
        0 <= i < endpoints.len(),
    ensures
        !endpoints[i].resolved ==> some_unresolved(endpoints),
        !endpoints[i].resolved ==> resolution_for(endpoints, refs, false) is WithSources,
        !(resolution_for(endpoints, refs, true) is Skip),
{
}

} // verus!
