//! What is written of an embedded batch, and the totals that the batches of a
//! run add up to.

use vstd::prelude::*;
use crate::collections::{TextMap, entry_map, has_entry, keys_rise};
use crate::domain::{CodeChunk, Language};
use crate::index_batch::{FileHash, LanguageStats, ParsedFile, lemma_offset, offset};

verus! {

/// What is written of a batch. Files whose embedding failed are left out.
pub struct WritePlan<E> {
    pub chunks: Vec<CodeChunk>,
    pub embeddings: Vec<E>,
    pub hashes: Vec<FileHash>,
    /// The places of the files that are written.
    pub kept: Vec<usize>,
    pub file_count: u64,
    pub chunk_count: u64,
    pub languages: TextMap<LanguageStats>,
}

/// The places of the first `n` files that have embeddings.
pub open spec fn kept_places<E>(embeddings: Seq<Option<Vec<E>>>, n: nat) -> Seq<usize>
    decreases n,
{
    if n == 0 {
        Seq::empty()
    } else {
        let d = kept_places(embeddings, (n - 1) as nat);
        if embeddings[n - 1] is Some {
            d.push((n - 1) as usize)
        } else {
            d
        }
    }
}

/// The chunks of the first `n` files that have embeddings.
pub open spec fn kept_chunks<E>(
    flat: Seq<CodeChunk>,
    counts: Seq<usize>,
    embeddings: Seq<Option<Vec<E>>>,
    n: nat,
) -> Seq<CodeChunk>
    decreases n,
{
    if n == 0 {
        Seq::empty()
    } else {
        let d = kept_chunks(flat, counts, embeddings, (n - 1) as nat);
        if embeddings[n - 1] is Some {
            d + flat.subrange(offset(counts, n - 1), offset(counts, n as int))
        } else {
            d
        }
    }
}

/// The embeddings of the first `n` files, one file after the other.
pub open spec fn kept_embeddings<E>(embeddings: Seq<Option<Vec<E>>>, n: nat) -> Seq<E>
    decreases n,
{
    if n == 0 {
        Seq::empty()
    } else {
        let d = kept_embeddings(embeddings, (n - 1) as nat);
        match embeddings[n - 1] {
            Some(e) => d + e@,
            None => d,
        }
    }
}

/// What a hash says: the path, the hash and the repository.
pub open spec fn hash_rows(s: Seq<FileHash>) -> Seq<(Seq<char>, Seq<char>, Seq<char>)> {
    Seq::new(s.len(), |i: int| (s[i].file_path@, s[i].content_hash@, s[i].repository_id@))
}

/// The hashes of the first `n` files that have embeddings.
pub open spec fn kept_hashes<E>(
    files: Seq<ParsedFile>,
    embeddings: Seq<Option<Vec<E>>>,
    repository_id: Seq<char>,
    n: nat,
) -> Seq<(Seq<char>, Seq<char>, Seq<char>)>
    decreases n,
{
    if n == 0 {
        Seq::empty()
    } else {
        let d = kept_hashes(files, embeddings, repository_id, (n - 1) as nat);
        let f = files[n - 1];
        if embeddings[n - 1] is Some {
            d.push((f.relative_path@, f.content_hash@, repository_id))
        } else {
            d
        }
    }
}

/// The files and chunks of a language among the first `n` files that have
/// embeddings.
pub open spec fn language_count<E>(
    files: Seq<ParsedFile>,
    counts: Seq<usize>,
    embeddings: Seq<Option<Vec<E>>>,
    language: Seq<char>,
    n: nat,
) -> (nat, nat)
    decreases n,
{
    if n == 0 {
        (0, 0)
    } else {
        let (f, c) = language_count(files, counts, embeddings, language, (n - 1) as nat);
        if embeddings[n - 1] is Some && files[n - 1].language.name() == language {
            (f + 1, c + counts[n - 1] as nat)
        } else {
            (f, c)
        }
    }
}

/// The map has, for each language, the counts of the first `n` files, and no
/// language without files.
pub open spec fn counts_languages<E>(
    m: Map<Seq<char>, LanguageStats>,
    files: Seq<ParsedFile>,
    counts: Seq<usize>,
    embeddings: Seq<Option<Vec<E>>>,
    n: nat,
) -> bool {
    forall|l: Seq<char>|
        (#[trigger] m.contains_key(l) <==> language_count(files, counts, embeddings, l, n).0 > 0)
            && (m.contains_key(l) ==> m[l].file_count == language_count(
            files,
            counts,
            embeddings,
            l,
            n,
        ).0 && m[l].chunk_count == language_count(files, counts, embeddings, l, n).1)
}

proof fn lemma_language_count<E>(
    files: Seq<ParsedFile>,
    counts: Seq<usize>,
    embeddings: Seq<Option<Vec<E>>>,
    l: Seq<char>,
    n: nat,
)
    ensures
        language_count(files, counts, embeddings, l, n).0 <= n,
        language_count(files, counts, embeddings, l, n).1 <= offset(counts, n as int),
        language_count(files, counts, embeddings, l, n).0 == 0 ==> language_count(
            files,
            counts,
            embeddings,
            l,
            n,
        ).1 == 0,
    decreases n,
{
    if n > 0 {
        lemma_language_count(files, counts, embeddings, l, (n - 1) as nat);
    }
}

proof fn lemma_kept_chunks<E>(
    flat: Seq<CodeChunk>,
    counts: Seq<usize>,
    embeddings: Seq<Option<Vec<E>>>,
    n: nat,
    total: nat,
)
    requires
        n <= total <= counts.len(),
        offset(counts, total as int) == flat.len(),
    ensures
        kept_chunks(flat, counts, embeddings, n).len() <= offset(counts, n as int) <= flat.len(),
    decreases n,
{
    lemma_offset(counts, n as int, total as int);
    if n > 0 {
        lemma_kept_chunks(flat, counts, embeddings, (n - 1) as nat, total);
        lemma_offset(counts, n - 1, n as int);
    }
}

/// Says what is written of a batch that was embedded.
pub fn plan_write<E>(
    files: &[ParsedFile],
    repository_id: &str,
    flat: Vec<CodeChunk>,
    counts: &[usize],
    embeddings: Vec<Option<Vec<E>>>,
) -> (r: WritePlan<E>)
    requires
        files@.len() == counts@.len(),
        embeddings@.len() == counts@.len(),
        offset(counts@, counts@.len() as int) == flat@.len(),
    ensures
        ({
            let n = counts@.len();
            &&& r.kept@ == kept_places(embeddings@, n)
            &&& r.chunks@ == kept_chunks(flat@, counts@, embeddings@, n)
            &&& r.embeddings@ == kept_embeddings(embeddings@, n)
            &&& hash_rows(r.hashes@) == kept_hashes(files@, embeddings@, repository_id@, n)
            &&& r.file_count == r.kept@.len()
            &&& r.chunk_count == r.chunks@.len()
            &&& counts_languages(r.languages@, files@, counts@, embeddings@, n)
        }),
{
    let ghost es = embeddings@;
    let ghost whole = flat@;
    let ghost cs = counts@;
    let total: usize = counts.len();
    let chunk_total: usize = flat.len();
    let mut rest = flat;
    let mut chunks: Vec<CodeChunk> = Vec::new();
    let mut out: Vec<E> = Vec::new();
    let mut hashes: Vec<FileHash> = Vec::new();
    let mut kept: Vec<usize> = Vec::new();
    let mut languages: TextMap<LanguageStats> = TextMap::new();
    let mut i: usize = 0;
    proof {
        assert(whole.skip(0) =~= whole);
        assert(hash_rows(hashes@) =~= kept_hashes(files@, es, repository_id@, 0));
    }
    for e in it: embeddings
        invariant
            it.seq() == es,
            i == it.index(),
            cs == counts@,
            total == counts@.len(),
            es.len() == total,
            files@.len() == total,
            chunk_total == whole.len(),
            offset(cs, total as int) == whole.len(),
            rest@ == whole.skip(offset(cs, i as int)),
            0 <= offset(cs, i as int) <= whole.len(),
            kept@ == kept_places(es, i as nat),
            chunks@ == kept_chunks(whole, cs, es, i as nat),
            out@ == kept_embeddings(es, i as nat),
            hash_rows(hashes@) == kept_hashes(files@, es, repository_id@, i as nat),
            counts_languages(languages@, files@, cs, es, i as nat),
    {
        let n: usize = counts[i];
        proof {
            lemma_offset(cs, i as int, i + 1);
            lemma_offset(cs, i + 1, total as int);
        }
        let tail = rest.split_off(n);
        proof {
            assert(rest@ =~= whole.subrange(offset(cs, i as int), offset(cs, i + 1)));
            assert(tail@ =~= whole.skip(offset(cs, i + 1)));
            assert(e == es[i as int]);
        }
        let mut own = rest;
        rest = tail;
        let f = &files[i];
        let ghost before = languages@;
        match e {
            Some(mut more) => {
                let ghost old_hashes = hashes@;
                kept.push(i);
                chunks.append(&mut own);
                out.append(&mut more);
                hashes.push(
                    FileHash {
                        file_path: f.relative_path.clone(),
                        content_hash: f.content_hash.clone(),
                        repository_id: repository_id.to_string(),
                    },
                );
                let key = f.language.as_str();
                let (files_so_far, chunks_so_far): (u64, u64) = match languages.get(key) {
                    Some(s) => (s.file_count, s.chunk_count),
                    None => (0, 0),
                };
                proof {
                    assert(hash_rows(hashes@) =~= hash_rows(old_hashes).push(
                        (f.relative_path@, f.content_hash@, repository_id@),
                    ));
                    lemma_language_count(files@, cs, es, key@, i as nat);
                    assert(before.contains_key(key@) <==> language_count(
                        files@,
                        cs,
                        es,
                        key@,
                        i as nat,
                    ).0 > 0);
                }
                languages.insert(
                    key.to_string(),
                    LanguageStats {
                        file_count: files_so_far + 1,
                        chunk_count: chunks_so_far + n as u64,
                    },
                );
            },
            None => {},
        }
        proof {
            assert forall|l: Seq<char>|
                (#[trigger] languages@.contains_key(l) <==> language_count(
                    files@,
                    cs,
                    es,
                    l,
                    (i + 1) as nat,
                ).0 > 0) && (languages@.contains_key(l) ==> languages@[l].file_count
                    == language_count(files@, cs, es, l, (i + 1) as nat).0
                    && languages@[l].chunk_count == language_count(
                    files@,
                    cs,
                    es,
                    l,
                    (i + 1) as nat,
                ).1) by {
                assert(before.contains_key(l) <==> language_count(files@, cs, es, l, i as nat).0
                    > 0);
            }
        }
        i = i + 1;
    }
    proof {
        lemma_kept_chunks(whole, cs, es, total as nat, total as nat);
    }
    let file_count: u64 = kept.len() as u64;
    let chunk_count: u64 = chunks.len() as u64;
    WritePlan { chunks, embeddings: out, hashes, kept, file_count, chunk_count, languages }
}

/// Where every file was embedded, nothing is left out.
pub proof fn lemma_complete_write<E>(
    flat: Seq<CodeChunk>,
    counts: Seq<usize>,
    embeddings: Seq<Option<Vec<E>>>,
)
    requires
        embeddings.len() == counts.len() <= usize::MAX,
        offset(counts, counts.len() as int) == flat.len(),
        forall|i: int| 0 <= i < embeddings.len() ==> (#[trigger] embeddings[i]) is Some,
    ensures
        kept_chunks(flat, counts, embeddings, counts.len()) == flat,
        kept_places(embeddings, counts.len()).len() == counts.len(),
{
    lemma_complete_prefix(flat, counts, embeddings, counts.len());
    assert(flat.take(flat.len() as int) =~= flat);
}

proof fn lemma_complete_prefix<E>(
    flat: Seq<CodeChunk>,
    counts: Seq<usize>,
    embeddings: Seq<Option<Vec<E>>>,
    n: nat,
)
    requires
        n <= embeddings.len() == counts.len() <= usize::MAX,
        offset(counts, counts.len() as int) == flat.len(),
        forall|i: int| 0 <= i < embeddings.len() ==> (#[trigger] embeddings[i]) is Some,
    ensures
        kept_chunks(flat, counts, embeddings, n) == flat.take(offset(counts, n as int)),
        kept_places(embeddings, n).len() == n,
    decreases n,
{
    if n > 0 {
        lemma_complete_prefix(flat, counts, embeddings, (n - 1) as nat);
        lemma_offset(counts, 0, n - 1);
        lemma_offset(counts, n - 1, n as int);
        lemma_offset(counts, n as int, counts.len() as int);
        assert(embeddings[n - 1] is Some);
        assert(flat.take(offset(counts, n - 1)) + flat.subrange(
            offset(counts, n - 1),
            offset(counts, n as int),
        ) =~= flat.take(offset(counts, n as int)));
    } else {
        assert(flat.take(0) =~= Seq::<CodeChunk>::empty());
    }
}

/// What a run has written so far.
pub struct Totals {
    pub files: u64,
    pub chunks: u64,
    pub references: u64,
    pub languages: TextMap<LanguageStats>,
}

/// What one batch added.
pub struct FlushStats {
    pub files: u64,
    pub chunks: u64,
    pub references: u64,
    pub languages: TextMap<LanguageStats>,
}

/// The files and chunks of a language.
pub open spec fn stats_of(m: Map<Seq<char>, LanguageStats>, l: Seq<char>) -> (nat, nat) {
    if m.contains_key(l) {
        (m[l].file_count as nat, m[l].chunk_count as nat)
    } else {
        (0, 0)
    }
}

/// The map has the counts of both others added up.
pub open spec fn adds_up(
    sum: Map<Seq<char>, LanguageStats>,
    a: Map<Seq<char>, LanguageStats>,
    b: Map<Seq<char>, LanguageStats>,
) -> bool {
    forall|l: Seq<char>|
        (#[trigger] sum.contains_key(l) <==> a.contains_key(l) || b.contains_key(l)) && stats_of(
            sum,
            l,
        ).0 == stats_of(a, l).0 + stats_of(b, l).0 && stats_of(sum, l).1 == stats_of(a, l).1
            + stats_of(b, l).1
}

/// The counts of a language in both maps can be added up.
pub open spec fn can_add(
    a: Map<Seq<char>, LanguageStats>,
    b: Map<Seq<char>, LanguageStats>,
    l: Seq<char>,
) -> bool {
    stats_of(a, l).0 + stats_of(b, l).0 <= u64::MAX && stats_of(a, l).1 + stats_of(b, l).1
        <= u64::MAX
}

impl Totals {
    pub fn new() -> (r: Totals)
        ensures
            r.files == 0,
            r.chunks == 0,
            r.references == 0,
            r.languages@ == Map::<Seq<char>, LanguageStats>::empty(),
    {
        Totals { files: 0, chunks: 0, references: 0, languages: TextMap::new() }
    }

    /// Adds what one batch wrote.
    pub fn merge(&mut self, stats: &FlushStats)
        requires
            old(self).files + stats.files <= u64::MAX,
            old(self).chunks + stats.chunks <= u64::MAX,
            old(self).references + stats.references <= u64::MAX,
            forall|l: Seq<char>| #[trigger]
                stats.languages@.contains_key(l) ==> can_add(
                    old(self).languages@,
                    stats.languages@,
                    l,
                ),
        ensures
            final(self).files == old(self).files + stats.files,
            final(self).chunks == old(self).chunks + stats.chunks,
            final(self).references == old(self).references + stats.references,
            adds_up(final(self).languages@, old(self).languages@, stats.languages@),
    {
        self.files = self.files + stats.files;
        self.chunks = self.chunks + stats.chunks;
        self.references = self.references + stats.references;
        let n: usize = stats.languages.len();
        let ghost a = self.languages@;
        let ghost b = stats.languages@;
        let ghost es = stats.languages.listing();
        let mut i: usize = 0;
        while i < n
            invariant
                i <= n,
                n == es.len(),
                es == stats.languages.listing(),
                b == stats.languages@,
                a == old(self).languages@,
                keys_rise(es),
                b == entry_map(es),
                forall|k: int|
                    0 <= k < es.len() ==> b.contains_key((#[trigger] es[k]).key@) && b[es[k].key@]
                        == es[k].value,
                forall|l: Seq<char>| #[trigger] b.contains_key(l) ==> can_add(a, b, l),
                self.files == old(self).files + stats.files,
                self.chunks == old(self).chunks + stats.chunks,
                self.references == old(self).references + stats.references,
                forall|l: Seq<char>|
                    (#[trigger] self.languages@.contains_key(l) <==> a.contains_key(l) || has_entry(
                        es.take(i as int),
                        l,
                    )) && stats_of(self.languages@, l) == if has_entry(es.take(i as int), l) {
                        (
                            stats_of(a, l).0 + stats_of(b, l).0,
                            stats_of(a, l).1 + stats_of(b, l).1,
                        )
                    } else {
                        stats_of(a, l)
                    },
            decreases n - i,
        {
            let e = stats.languages.at(i);
            let ghost before = self.languages@;
            let ghost key = e.key@;
            let ghost done = es.take(i as int);
            let ghost next = es.take(i + 1);
            proof {
                assert(b.contains_key(es[i as int].key@));
                assert(can_add(a, b, key));
                assert(!has_entry(done, key)) by {
                    if has_entry(done, key) {
                        let k = choose|k: int|
                            0 <= k < done.len() && (#[trigger] done[k]).key@ == key;
                        assert(done[k] == es[k]);
                        assert(crate::order::text_lt(es[k].key@, es[i as int].key@));
                        crate::order::lemma_text_lt_irreflexive(key);
                    }
                }
                assert(before.contains_key(key) <==> a.contains_key(key) || has_entry(done, key));
                assert forall|l: Seq<char>| has_entry(next, l) <==> has_entry(done, l) || l
                    == key by {
                    if has_entry(done, l) {
                        let k = choose|k: int|
                            0 <= k < done.len() && (#[trigger] done[k]).key@ == l;
                        assert(next[k].key@ == l);
                    }
                    if l == key {
                        assert(next[i as int].key@ == l);
                    }
                    if has_entry(next, l) {
                        let k = choose|k: int|
                            0 <= k < next.len() && (#[trigger] next[k]).key@ == l;
                        if k < i {
                            assert(done[k].key@ == l);
                        }
                    }
                }
            }
            let (f, c): (u64, u64) = match self.languages.get(e.key.as_str()) {
                Some(s) => (s.file_count, s.chunk_count),
                None => (0, 0),
            };
            self.languages.insert(
                e.key.clone(),
                LanguageStats {
                    file_count: f + e.value.file_count,
                    chunk_count: c + e.value.chunk_count,
                },
            );
            proof {
                assert forall|l: Seq<char>|
                    (#[trigger] self.languages@.contains_key(l) <==> a.contains_key(l) || has_entry(
                        next,
                        l,
                    )) && stats_of(self.languages@, l) == if has_entry(next, l) {
                        (
                            stats_of(a, l).0 + stats_of(b, l).0,
                            stats_of(a, l).1 + stats_of(b, l).1,
                        )
                    } else {
                        stats_of(a, l)
                    } by {
                    assert(before.contains_key(l) <==> a.contains_key(l) || has_entry(done, l));
                }
            }
            i += 1;
        }
        proof {
            assert(es.take(i as int) =~= es);
            assert forall|l: Seq<char>|
                (#[trigger] self.languages@.contains_key(l) <==> a.contains_key(l)
                    || b.contains_key(l)) && stats_of(self.languages@, l).0 == stats_of(a, l).0
                    + stats_of(b, l).0 && stats_of(self.languages@, l).1 == stats_of(a, l).1
                    + stats_of(b, l).1 by {
                assert(b.contains_key(l) <==> has_entry(es, l));
            }
        }
    }

    /// Counts a file that did not change, unless its language is unknown.
    pub fn count_unchanged(&mut self, language: Language)
        requires
            stats_of(old(self).languages@, language.name()).0 < u64::MAX,
        ensures
            final(self).files == old(self).files,
            final(self).chunks == old(self).chunks,
            final(self).references == old(self).references,
            language == Language::Unknown ==> final(self).languages@ == old(self).languages@,
            language != Language::Unknown ==> final(self).languages@ == old(
                self,
            ).languages@.insert(
                language.name(),
                LanguageStats {
                    file_count: (stats_of(old(self).languages@, language.name()).0 + 1) as u64,
                    chunk_count: stats_of(old(self).languages@, language.name()).1 as u64,
                },
            ),
    {
        if language != Language::Unknown {
            let key = language.as_str();
            let (f, c): (u64, u64) = match self.languages.get(key) {
                Some(s) => (s.file_count, s.chunk_count),
                None => (0, 0),
            };
            self.languages.insert(
                key.to_string(),
                LanguageStats { file_count: f + 1, chunk_count: c },
            );
        }
    }
}

/// The files and the chunks of a repository after a run over what changed.
pub fn incremental_totals(
    unchanged: usize,
    processed: u64,
    previous_chunks: u64,
    deleted_chunks: u64,
    new_chunks: u64,
) -> (r: (u64, u64))
    requires
        unchanged + processed <= u64::MAX,
        deleted_chunks <= previous_chunks,
        previous_chunks - deleted_chunks + new_chunks <= u64::MAX,
    ensures
        r.0 == unchanged + processed,
        r.1 == previous_chunks - deleted_chunks + new_chunks,
{
    (unchanged as u64 + processed, previous_chunks - deleted_chunks + new_chunks)
}

} // verus!
