//! The two stages that a batch goes through: while one batch is written, the
//! next is embedded.

use vstd::prelude::*;
use crate::index_write::{FlushStats, Totals, adds_up, can_add};

verus! {

/// What is to be done next.
#[derive(Debug, Clone, Copy, PartialEq, Eq, Structural)]
pub enum PipelineAction {
    /// Wait for the batch that is being embedded.
    AwaitEmbed,
    /// Wait for the batch that is being written.
    AwaitWrite,
    /// Begin to write the batch that was embedded.
    StartWrite,
    /// Begin to embed the batch that was submitted.
    StartEmbed,
    /// Nothing is left to do.
    Finished,
}

/// The batches under way. At most one is being embedded and at most one
/// written.
pub struct Pipeline {
    pub embedding: bool,
    /// A batch was embedded and is not yet being written.
    pub held: bool,
    pub writing: bool,
    /// How many batches were submitted and how many written, counted for the
    /// contracts alone.
    pub started: Ghost<nat>,
    pub written: Ghost<nat>,
    pub totals: Totals,
}

/// 1 for what is under way.
pub open spec fn one_if(b: bool) -> nat {
    if b {
        1
    } else {
        0
    }
}

impl Pipeline {
    /// Every batch that was submitted is under way or written.
    pub open spec fn well_formed(self) -> bool {
        self.started@ == self.written@ + one_if(self.embedding) + one_if(self.held) + one_if(
            self.writing,
        )
    }

    /// How many actions are left for the batches under way.
    pub open spec fn steps_left(self) -> nat {
        3 * one_if(self.embedding) + 2 * one_if(self.held) + one_if(self.writing)
    }

    pub fn new() -> (r: Pipeline)
        ensures
            r.well_formed(),
            r.steps_left() == 0,
            r.started@ == 0,
            r.totals.files == 0,
            r.totals.chunks == 0,
            r.totals.references == 0,
            r.totals.languages@.dom() == Set::<Seq<char>>::empty(),
    {
        let r = Pipeline {
            embedding: false,
            held: false,
            writing: false,
            started: Ghost(0),
            written: Ghost(0),
            totals: Totals::new(),
        };
        assert(r.totals.languages@.dom() =~= Set::<Seq<char>>::empty());
        r
    }

    /// What is to be done next, with a batch to submit or without one. Nothing
    /// is left only once every batch is written.
    pub fn next(&self, submit: bool) -> (r: PipelineAction)
        requires
            self.well_formed(),
        ensures
            r is AwaitWrite <==> self.writing && (self.held || !self.embedding && !submit),
            r is StartWrite <==> self.held && !self.writing,
            r is AwaitEmbed <==> self.embedding && !self.held,
            r is StartEmbed <==> submit && !self.embedding && !self.held,
            r is Finished <==> !submit && self.steps_left() == 0,
            r is Finished ==> self.written@ == self.started@,
    {
        if self.held {
            if self.writing {
                PipelineAction::AwaitWrite
            } else {
                PipelineAction::StartWrite
            }
        } else if self.embedding {
            PipelineAction::AwaitEmbed
        } else if submit {
            PipelineAction::StartEmbed
        } else if self.writing {
            PipelineAction::AwaitWrite
        } else {
            PipelineAction::Finished
        }
    }

    /// A batch begins to be embedded.
    pub fn embed_started(&mut self)
        requires
            old(self).well_formed(),
            !old(self).embedding,
            !old(self).held,
        ensures
            final(self).well_formed(),
            final(self).embedding,
            !final(self).held,
            final(self).writing == old(self).writing,
            final(self).started@ == old(self).started@ + 1,
            final(self).written@ == old(self).written@,
            final(self).totals == old(self).totals,
    {
        self.embedding = true;
        proof {
            self.started@ = self.started@ + 1;
        }
    }

    /// The batch has been embedded.
    pub fn embed_done(&mut self)
        requires
            old(self).well_formed(),
            old(self).embedding,
            !old(self).held,
        ensures
            final(self).well_formed(),
            !final(self).embedding,
            final(self).held,
            final(self).writing == old(self).writing,
            final(self).started@ == old(self).started@,
            final(self).written@ == old(self).written@,
            final(self).totals == old(self).totals,
            final(self).steps_left() < old(self).steps_left(),
    {
        self.embedding = false;
        self.held = true;
    }

    /// The batch that was embedded begins to be written.
    pub fn write_started(&mut self)
        requires
            old(self).well_formed(),
            old(self).held,
            !old(self).writing,
        ensures
            final(self).well_formed(),
            !final(self).held,
            final(self).writing,
            final(self).embedding == old(self).embedding,
            final(self).started@ == old(self).started@,
            final(self).written@ == old(self).written@,
            final(self).totals == old(self).totals,
            final(self).steps_left() < old(self).steps_left(),
    {
        self.held = false;
        self.writing = true;
    }

    /// The batch has been written, and what it wrote is counted.
    pub fn write_done(&mut self, stats: &FlushStats)
        requires
            old(self).well_formed(),
            old(self).writing,
            old(self).totals.files + stats.files <= u64::MAX,
            old(self).totals.chunks + stats.chunks <= u64::MAX,
            old(self).totals.references + stats.references <= u64::MAX,
            forall|l: Seq<char>| #[trigger]
                stats.languages@.contains_key(l) ==> can_add(
                    old(self).totals.languages@,
                    stats.languages@,
                    l,
                ),
        ensures
            final(self).well_formed(),
            !final(self).writing,
            final(self).embedding == old(self).embedding,
            final(self).held == old(self).held,
            final(self).started@ == old(self).started@,
            final(self).written@ == old(self).written@ + 1,
            final(self).steps_left() < old(self).steps_left(),
            final(self).totals.files == old(self).totals.files + stats.files,
            final(self).totals.chunks == old(self).totals.chunks + stats.chunks,
            final(self).totals.references == old(self).totals.references + stats.references,
            adds_up(
                final(self).totals.languages@,
                old(self).totals.languages@,
                stats.languages@,
            ),
    {
        self.totals.merge(stats);
        self.writing = false;
        proof {
            self.written@ = self.written@ + 1;
        }
    }
}

} // verus!
