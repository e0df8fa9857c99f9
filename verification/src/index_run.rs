//! A run over what changed in a repository: what is dropped from the stores,
//! what is read anew, and what the run leaves behind.

use vstd::prelude::*;
use crate::collections::{TextMap, TextSet};
use crate::domain::SymbolReference;
use crate::index_batch::{Batcher, ParsedFile, after_file};
use crate::index_changes::{Changes, Standing, detect_changes, lemma_changes_partition, lists_paths};
use crate::index_plan::{call_graph_changed, choose_hash, files_to_resync, needs_resync};
use crate::order::texts_rise;
use crate::text::{copy_all, texts};

verus! {

/// A run over what changed.
pub struct IncrementalRun {
    pub changes: Changes,
    pub batcher: Batcher,
    /// The files that were read anew.
    pub processed: TextSet,
    /// How many chunks were dropped.
    pub deleted_chunks: u64,
}

/// The hash that a file is stored with.
pub open spec fn stored_hash(file: ParsedFile, walked: Option<&String>) -> Seq<char> {
    if file.content_hash@.len() == 0 && walked is Some {
        walked->Some_0@
    } else {
        file.content_hash@
    }
}

impl IncrementalRun {
    /// The lists are those of the two looks, and what waits does not fill a
    /// batch.
    pub open spec fn well_formed(
        self,
        stored: Map<Seq<char>, String>,
        current: Map<Seq<char>, String>,
    ) -> bool {
        &&& lists_paths(texts(self.changes.added@), current, stored, Standing::Lacking)
        &&& lists_paths(texts(self.changes.modified@), current, stored, Standing::Different)
        &&& lists_paths(texts(self.changes.unchanged@), current, stored, Standing::Same)
        &&& lists_paths(texts(self.changes.deleted@), stored, current, Standing::Lacking)
        &&& self.batcher.well_formed()
    }

    /// Begins a run with the stored and the current look at the repository.
    pub fn begin(stored: &TextMap<String>, current: &TextMap<String>) -> (r: IncrementalRun)
        ensures
            r.well_formed(stored@, current@),
            r.batcher.pending@.len() == 0,
            r.processed@ == Set::<Seq<char>>::empty(),
            r.deleted_chunks == 0,
    {
        IncrementalRun {
            changes: detect_changes(stored, current),
            batcher: Batcher::new(),
            processed: TextSet::new(),
            deleted_chunks: 0,
        }
    }

    /// The files whose chunks, references and endpoints are dropped: those that
    /// are gone, then those that changed.
    pub fn stale_paths(&self) -> (r: Vec<String>)
        ensures
            texts(r@) == texts(self.changes.deleted@) + texts(self.changes.modified@),
    {
        let mut r = copy_all(&self.changes.deleted);
        let mut more = copy_all(&self.changes.modified);
        let ghost a = r@;
        let ghost b = more@;
        r.append(&mut more);
        assert(texts(r@) =~= texts(a) + texts(b));
        r
    }

    /// Counts the chunks that were dropped of a stale file.
    pub fn dropped(&mut self, chunks: u64)
        requires
            old(self).deleted_chunks + chunks <= u64::MAX,
        ensures
            final(self).deleted_chunks == old(self).deleted_chunks + chunks,
            final(self).changes == old(self).changes,
            final(self).batcher == old(self).batcher,
            final(self).processed == old(self).processed,
    {
        self.deleted_chunks = self.deleted_chunks + chunks;
    }

    /// Takes in a file that was read anew, and hands out the batch that it
    /// fills. `walked` is the hash of the file when the change was found.
    pub fn file_parsed(&mut self, file: ParsedFile, walked: Option<&String>) -> (r: Option<
        Vec<ParsedFile>,
    >)
        requires
            old(self).batcher.well_formed(),
        ensures
            final(self).batcher.well_formed(),
            final(self).changes == old(self).changes,
            final(self).deleted_chunks == old(self).deleted_chunks,
            final(self).processed@ == old(self).processed@.insert(file.relative_path@),
            exists|stored: ParsedFile|
                {
                    &&& stored == (ParsedFile { content_hash: stored.content_hash, ..file })
                    &&& stored.content_hash@ == stored_hash(file, walked)
                    &&& (final(self).batcher.pending@, match r {
                        Some(b) => b@,
                        None => Seq::empty(),
                    }) == #[trigger] after_file(old(self).batcher.pending@, stored)
                },
    {
        let ghost whole = file;
        let ParsedFile { relative_path, content_hash, language, chunks, endpoints } = file;
        self.processed.insert(relative_path.clone());
        let content_hash = choose_hash(content_hash, walked);
        let file = ParsedFile { relative_path, content_hash, language, chunks, endpoints };
        let ghost pending = self.batcher.pending@;
        let r = self.batcher.push(file);
        assert((self.batcher.pending@, match r {
            Some(b) => b@,
            None => Seq::empty(),
        }) == after_file(pending, file));
        r
    }

    /// What the run leaves behind: the files whose references are written anew
    /// though they did not change, and whether analyses of the call graph have
    /// become stale.
    pub fn finish(&self, refs: &TextMap<Vec<SymbolReference>>) -> (r: (Vec<String>, bool))
        ensures
            texts_rise(texts(r.0@)),
            forall|f: Seq<char>|
                texts(r.0@).contains(f) <==> #[trigger] needs_resync(refs@, self.processed@, f),
            r.1 == (!self.changes.quiet() || r.0@.len() > 0),
    {
        let resync = files_to_resync(refs, &self.processed);
        let changed = call_graph_changed(&self.changes, &resync);
        (resync, changed)
    }
}

/// Every file that is dropped as stale is gone or is read anew, and every file
/// that is read anew was stale or not stored at all: nothing is stored twice,
/// and nothing current is lost.
pub proof fn lemma_stale_files_are_renewed(
    stored: Map<Seq<char>, String>,
    current: Map<Seq<char>, String>,
    run: IncrementalRun,
    path: Seq<char>,
)
    requires
        run.well_formed(stored, current),
    ensures
        ({
            let stale = texts(run.changes.deleted@).contains(path) || texts(
                run.changes.modified@,
            ).contains(path);
            let read = texts(run.changes.added@).contains(path) || texts(
                run.changes.modified@,
            ).contains(path);
            &&& stale && current.contains_key(path) ==> read
            &&& read && stored.contains_key(path) ==> stale
            &&& current.contains_key(path) ==> read || texts(run.changes.unchanged@).contains(path)
            &&& !(stale && texts(run.changes.unchanged@).contains(path))
        }),
{
    lemma_changes_partition(stored, current, run.changes, path);
}

} // verus!
