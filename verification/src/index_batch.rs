//! Parsed files on their way into the index: gathered into batches, embedded
//! together, dealt back to their files, and counted.

use vstd::prelude::*;
use vstd::string::*;
use crate::channels::ChannelEndpoint;
use crate::domain::{CodeChunk, DomainError, Language};
use crate::text::{decimal, decimal_text};

verus! {

/// The number of chunks that fill a batch.
pub const CROSS_FILE_EMBED_BATCH: usize = 128;

/// A file that has been parsed.
#[derive(Debug)]
pub struct ParsedFile {
    pub relative_path: String,
    pub content_hash: String,
    pub language: Language,
    pub chunks: Vec<CodeChunk>,
    pub endpoints: Vec<ChannelEndpoint>,
}

/// The content hash of a file.
#[derive(Debug)]
pub struct FileHash {
    pub file_path: String,
    pub content_hash: String,
    pub repository_id: String,
}

/// How many files and chunks of a language there are.
#[derive(Debug, Clone, Copy, PartialEq, Eq, Structural)]
pub struct LanguageStats {
    pub file_count: u64,
    pub chunk_count: u64,
}

/// The number of chunks of files.
pub open spec fn total_chunks(files: Seq<ParsedFile>) -> nat
    decreases files.len(),
{
    if files.len() == 0 {
        0
    } else {
        total_chunks(files.drop_last()) + files.last().chunks@.len()
    }
}

/// What waits once a file has come, and the batch that is full then.
pub open spec fn after_file(pending: Seq<ParsedFile>, file: ParsedFile) -> (
    Seq<ParsedFile>,
    Seq<ParsedFile>,
) {
    if total_chunks(pending.push(file)) >= CROSS_FILE_EMBED_BATCH {
        (Seq::empty(), pending.push(file))
    } else {
        (pending.push(file), Seq::empty())
    }
}

/// Gathers files until they fill a batch.
pub struct Batcher {
    pub pending: Vec<ParsedFile>,
    pub chunk_count: usize,
}

impl Batcher {
    /// The files that wait do not fill a batch, and their chunks are counted.
    pub open spec fn well_formed(self) -> bool {
        self.chunk_count == total_chunks(self.pending@) && self.chunk_count
            < CROSS_FILE_EMBED_BATCH
    }

    pub fn new() -> (r: Batcher)
        ensures
            r.well_formed(),
            r.pending@.len() == 0,
    {
        Batcher { pending: Vec::new(), chunk_count: 0 }
    }

    /// Takes a file in, and hands out the batch that it fills.
    pub fn push(&mut self, file: ParsedFile) -> (r: Option<Vec<ParsedFile>>)
        requires
            old(self).well_formed(),
        ensures
            final(self).well_formed(),
            r is Some == (total_chunks(old(self).pending@.push(file)) >= CROSS_FILE_EMBED_BATCH),
            (final(self).pending@, match r {
                Some(b) => b@,
                None => Seq::empty(),
            }) == after_file(old(self).pending@, file),
    {
        let n: usize = file.chunks.len();
        let ghost before = self.pending@;
        assert(before.push(file).drop_last() =~= before);
        self.pending.push(file);
        if n >= CROSS_FILE_EMBED_BATCH - self.chunk_count {
            let mut batch: Vec<ParsedFile> = Vec::new();
            batch.append(&mut self.pending);
            self.chunk_count = 0;
            proof {
                assert(batch@ =~= before.push(file));
                assert(self.pending@ =~= Seq::<ParsedFile>::empty());
            }
            Some(batch)
        } else {
            self.chunk_count = self.chunk_count + n;
            None
        }
    }

    /// The files that wait, as a last batch, if there are any.
    pub fn finish(self) -> (r: Option<Vec<ParsedFile>>)
        ensures
            r is Some == (self.pending@.len() > 0),
            r matches Some(b) ==> b@ == self.pending@,
    {
        if self.pending.len() > 0 {
            Some(self.pending)
        } else {
            None
        }
    }
}

/// What waits, and what has been handed out in batches, once all files have
/// come.
pub open spec fn after_files(files: Seq<ParsedFile>) -> (Seq<ParsedFile>, Seq<ParsedFile>)
    decreases files.len(),
{
    if files.len() == 0 {
        (Seq::empty(), Seq::empty())
    } else {
        let (pending, done) = after_files(files.drop_last());
        let (waits, batch) = after_file(pending, files.last());
        (waits, done + batch)
    }
}

/// Every file is handed out in a batch or waits, once and in order, and what
/// waits does not fill a batch.
pub proof fn lemma_no_file_is_lost(files: Seq<ParsedFile>)
    ensures
        after_files(files).1 + after_files(files).0 == files,
        total_chunks(after_files(files).0) < CROSS_FILE_EMBED_BATCH,
    decreases files.len(),
{
    if files.len() > 0 {
        lemma_no_file_is_lost(files.drop_last());
        let (pending, done) = after_files(files.drop_last());
        let (waits, batch) = after_file(pending, files.last());
        assert((done + batch) + waits =~= (done + pending).push(files.last()));
        assert(files.drop_last().push(files.last()) =~= files);
    } else {
        assert(after_files(files).1 + after_files(files).0 =~= files);
    }
}

/// The chunks of files, one file after the other.
pub open spec fn all_chunks(files: Seq<ParsedFile>) -> Seq<CodeChunk>
    decreases files.len(),
{
    if files.len() == 0 {
        Seq::empty()
    } else {
        all_chunks(files.drop_last()) + files.last().chunks@
    }
}

/// The numbers of chunks of files.
pub open spec fn chunk_counts(files: Seq<ParsedFile>) -> Seq<usize> {
    Seq::new(files.len(), |i: int| files[i].chunks.len())
}

/// The file without its chunks.
pub open spec fn is_shell_of(shell: ParsedFile, file: ParsedFile) -> bool {
    shell.relative_path == file.relative_path && shell.content_hash == file.content_hash
        && shell.language == file.language && shell.endpoints == file.endpoints
        && shell.chunks@.len() == 0
}

/// A batch with its chunks laid out one after the other.
pub struct FlatBatch {
    pub files: Vec<ParsedFile>,
    pub chunks: Vec<CodeChunk>,
    pub counts: Vec<usize>,
}

/// Lays out the chunks of a batch, and keeps how many each file has.
pub fn flatten(batch: Vec<ParsedFile>) -> (r: FlatBatch)
    ensures
        r.chunks@ == all_chunks(batch@),
        r.counts@ == chunk_counts(batch@),
        r.files@.len() == batch@.len(),
        forall|i: int| 0 <= i < batch@.len() ==> is_shell_of(#[trigger] r.files@[i], batch@[i]),
{
    let ghost all = batch@;
    let mut files: Vec<ParsedFile> = Vec::new();
    let mut chunks: Vec<CodeChunk> = Vec::new();
    let mut counts: Vec<usize> = Vec::new();
    for f in it: batch
        invariant
            it.seq() == all,
            files@.len() == it.index(),
            counts@.len() == it.index(),
            chunks@ == all_chunks(all.take(it.index() as int)),
            forall|k: int| 0 <= k < it.index() ==> #[trigger] counts@[k] == all[k].chunks@.len(),
            forall|k: int| 0 <= k < it.index() ==> is_shell_of(#[trigger] files@[k], all[k]),
    {
        proof {
            let i = it.index() as int;
            assert(all.take(i + 1).drop_last() =~= all.take(i));
            assert(all.take(i + 1).last() == f);
        }
        let ghost whole = f;
        let ParsedFile { relative_path, content_hash, language, chunks: own, endpoints } = f;
        let mut own = own;
        counts.push(own.len());
        chunks.append(&mut own);
        files.push(
            ParsedFile { relative_path, content_hash, language, chunks: Vec::new(), endpoints },
        );
    }
    proof {
        assert(all.take(all.len() as int) =~= all);
        assert(counts@ =~= chunk_counts(all));
    }
    FlatBatch { files, chunks, counts }
}

/// The number of chunks of the first `n` files.
pub open spec fn offset(counts: Seq<usize>, n: int) -> int
    decreases n,
{
    if n <= 0 {
        0
    } else {
        offset(counts, n - 1) + counts[n - 1]
    }
}

/// The offsets rise.
pub proof fn lemma_offset(counts: Seq<usize>, i: int, j: int)
    requires
        0 <= i <= j,
    ensures
        0 <= offset(counts, i) <= offset(counts, j),
    decreases j,
{
    if j > 0 {
        if i < j {
            lemma_offset(counts, i, j - 1);
        } else {
            lemma_offset(counts, 0, j - 1);
        }
    }
}

/// The chunks laid out are as many as the counts say, and each file's own stand
/// where the counts say.
pub proof fn lemma_flat_chunks(files: Seq<ParsedFile>)
    ensures
        all_chunks(files).len() == offset(chunk_counts(files), files.len() as int),
        forall|i: int|
            0 <= i < files.len() ==> all_chunks(files).subrange(
                offset(chunk_counts(files), i),
                offset(chunk_counts(files), i + 1),
            ) == (#[trigger] files[i]).chunks@,
    decreases files.len(),
{
    if files.len() > 0 {
        let d = files.drop_last();
        let n = d.len() as int;
        let c = chunk_counts(files);
        lemma_flat_chunks(d);
        assert forall|i: int| 0 <= i <= n implies #[trigger] offset(c, i) == offset(
            chunk_counts(d),
            i,
        ) by {
            lemma_same_offset(c, chunk_counts(d), i);
        }
        assert forall|i: int| 0 <= i < files.len() implies all_chunks(files).subrange(
            offset(c, i),
            offset(c, i + 1),
        ) == (#[trigger] files[i]).chunks@ by {
            lemma_offset(c, 0, i);
            lemma_offset(c, i, i + 1);
            if i < n {
                lemma_offset(c, i + 1, n);
                assert(d[i] == files[i]);
                assert(all_chunks(files).subrange(offset(c, i), offset(c, i + 1)) =~= all_chunks(
                    d,
                ).subrange(offset(c, i), offset(c, i + 1)));
            } else {
                assert(all_chunks(files).subrange(offset(c, i), offset(c, i + 1))
                    =~= files.last().chunks@);
            }
        }
    }
}

proof fn lemma_same_offset(a: Seq<usize>, b: Seq<usize>, n: int)
    requires
        0 <= n <= a.len(),
        n <= b.len(),
        forall|k: int| 0 <= k < n ==> a[k] == b[k],
    ensures
        offset(a, n) == offset(b, n),
    decreases n,
{
    if n > 0 {
        lemma_same_offset(a, b, n - 1);
    }
}

/// The results are dealt out to the files as their counts say.
pub open spec fn dealt_out<E>(dealt: Seq<Option<Vec<E>>>, all: Seq<E>, counts: Seq<usize>) -> bool {
    &&& dealt.len() == counts.len()
    &&& forall|i: int|
        0 <= i < counts.len() ==> (#[trigger] dealt[i]) is Some && dealt[i]->Some_0@
            == all.subrange(offset(counts, i), offset(counts, i + 1))
}

/// Deals the embeddings of a batch back to its files. An error where there are
/// not as many embeddings as chunks.
pub fn deal_out<E>(all: Vec<E>, counts: &[usize], chunk_total: usize) -> (r: Result<
    Vec<Option<Vec<E>>>,
    DomainError,
>)
    requires
        offset(counts@, counts@.len() as int) == chunk_total,
    ensures
        r is Ok == (all@.len() == chunk_total),
        r matches Ok(d) ==> dealt_out(d@, all@, counts@),
        r matches Err(e) ==> e is Internal && e->Internal_0@
            == "Embedding count mismatch: got "@ + decimal(all@.len()) + " embeddings for "@
            + decimal(chunk_total as nat) + " chunks"@,
{
    if all.len() != chunk_total {
        let mut m = "Embedding count mismatch: got ".to_string();
        m.append(decimal_text(all.len() as u64).as_str());
        m.append(" embeddings for ");
        m.append(decimal_text(chunk_total as u64).as_str());
        m.append(" chunks");
        return Err(DomainError::Internal(m));
    }
    let ghost whole = all@;
    let ghost total = counts@.len() as int;
    let mut rest = all;
    let mut r: Vec<Option<Vec<E>>> = Vec::new();
    let mut i: usize = 0;
    assert(whole.skip(0) =~= whole);
    while i < counts.len()
        invariant
            i <= counts@.len(),
            total == counts@.len(),
            whole.len() == offset(counts@, total),
            rest@ == whole.skip(offset(counts@, i as int)),
            0 <= offset(counts@, i as int) <= whole.len(),
            r@.len() == i,
            forall|k: int|
                0 <= k < i ==> (#[trigger] r@[k]) is Some && r@[k]->Some_0@ == whole.subrange(
                    offset(counts@, k),
                    offset(counts@, k + 1),
                ),
        decreases counts@.len() - i,
    {
        let n: usize = counts[i];
        proof {
            lemma_offset(counts@, i as int, i + 1);
            lemma_offset(counts@, i + 1, total);
        }
        let tail = rest.split_off(n);
        proof {
            assert(rest@ =~= whole.subrange(offset(counts@, i as int), offset(counts@, i + 1)));
            assert(tail@ =~= whole.skip(offset(counts@, i + 1)));
        }
        r.push(Some(rest));
        rest = tail;
        i += 1;
    }
    Ok(r)
}

/// Marks each file as embedded with nothing, for an index without embeddings.
pub fn deal_nothing<E>(counts: &[usize]) -> (r: Vec<Option<Vec<E>>>)
    ensures
        r@.len() == counts@.len(),
        forall|i: int|
            0 <= i < r@.len() ==> (#[trigger] r@[i]) is Some && r@[i]->Some_0@.len() == 0,
{
    let mut r: Vec<Option<Vec<E>>> = Vec::new();
    let mut i: usize = 0;
    while i < counts.len()
        invariant
            i <= counts@.len(),
            r@.len() == i,
            forall|k: int|
                0 <= k < i ==> (#[trigger] r@[k]) is Some && r@[k]->Some_0@.len() == 0,
        decreases counts@.len() - i,
    {
        r.push(Some(Vec::new()));
        i += 1;
    }
    r
}

/// The first file from `i` on that has chunks, or the number of files.
pub open spec fn next_with_chunks(counts: Seq<usize>, i: int) -> int
    decreases counts.len() - i,
{
    if i >= counts.len() || counts[i] > 0 {
        i
    } else {
        next_with_chunks(counts, i + 1)
    }
}

/// The embedding of a batch, file by file, after it failed as a whole.
pub struct Retry<E> {
    pub counts: Vec<usize>,
    /// The file that comes next.
    pub index: usize,
    /// Where the chunks of that file begin.
    pub start: usize,
    pub results: Vec<Option<Vec<E>>>,
}

impl<E> Retry<E> {
    /// The files before the next one have their results.
    pub open spec fn well_formed(self) -> bool {
        &&& self.index <= self.counts@.len()
        &&& self.results@.len() == self.index
        &&& self.start == offset(self.counts@, self.index as int)
        &&& offset(self.counts@, self.counts@.len() as int) <= usize::MAX
    }

    pub fn new(counts: Vec<usize>) -> (r: Retry<E>)
        requires
            offset(counts@, counts@.len() as int) <= usize::MAX,
        ensures
            r.well_formed(),
            r.counts == counts,
            r.index == 0,
            r.results@.len() == 0,
    {
        Retry { counts, index: 0, start: 0, results: Vec::new() }
    }

    /// The range of the chunks to embed next. Files without chunks need no
    /// embedding and are passed over; nothing is left to embed at the end.
    pub fn next(&mut self) -> (r: Option<(usize, usize)>)
        requires
            old(self).well_formed(),
        ensures
            final(self).well_formed(),
            final(self).counts == old(self).counts,
            final(self).index == next_with_chunks(old(self).counts@, old(self).index as int),
            old(self).results@ == final(self).results@.take(old(self).index as int),
            forall|k: int|
                old(self).index <= k < final(self).index ==> (#[trigger] final(self).results@[k])
                    is Some && final(self).results@[k]->Some_0@.len() == 0,
            r is Some == (final(self).index < final(self).counts@.len()),
            r matches Some((a, b)) ==> a == offset(final(self).counts@, final(self).index as int)
                && b == offset(final(self).counts@, final(self).index + 1),
    {
        let ghost before = self.results@;
        let ghost from = self.index as int;
        while self.index < self.counts.len() && self.counts[self.index] == 0
            invariant
                self.well_formed(),
                self.counts == old(self).counts,
                from <= self.index,
                before.len() == from,
                next_with_chunks(self.counts@, self.index as int) == next_with_chunks(
                    self.counts@,
                    from,
                ),
                before =~= self.results@.take(from),
                forall|k: int|
                    from <= k < self.index ==> (#[trigger] self.results@[k]) is Some
                        && self.results@[k]->Some_0@.len() == 0,
            decreases self.counts@.len() - self.index,
        {
            self.results.push(Some(Vec::new()));
            self.index = self.index + 1;
        }
        if self.index < self.counts.len() {
            proof {
                lemma_offset(self.counts@, self.index + 1, self.counts@.len() as int);
            }
            Some((self.start, self.start + self.counts[self.index]))
        } else {
            None
        }
    }

    /// Takes in the embeddings of the next file, or that there are none.
    pub fn answer(&mut self, reply: Option<Vec<E>>)
        requires
            old(self).well_formed(),
            old(self).index < old(self).counts@.len(),
        ensures
            final(self).well_formed(),
            final(self).counts == old(self).counts,
            final(self).index == old(self).index + 1,
            final(self).results@ == old(self).results@.push(reply),
    {
        proof {
            lemma_offset(self.counts@, self.index + 1, self.counts@.len() as int);
        }
        let n: usize = self.counts.len();
        assert(self.index < n);
        self.start = self.start + self.counts[self.index];
        self.results.push(reply);
        self.index = self.index + 1;
    }
}

} // verus!
