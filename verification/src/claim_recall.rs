//! Recall of claims: what a search finds, and one step along the edges that
//! enrich it.

use vstd::prelude::*;
use crate::claims::{Claim, ClaimEdge, ClaimStatus, EdgeType};
use crate::domain::DomainError;
use crate::fusion::{Scored, concat, fuse, fused, views};
use crate::order::{Ranked, arrange, arranged};
use crate::rrf::at_most;
use crate::text::{same_text, texts, trim, trim_text};

verus! {

/// How many candidates each leg of the search retrieves.
pub const CANDIDATES_PER_LEG: usize = 20;

/// How many of the best claims are expanded.
pub const MAX_EXPANSION_SEEDS: usize = 5;

/// A claim that only expansion found scores this many tenths of its seed.
pub const EXPANSION_TENTHS: u128 = 3;

/// A claim to expand, with its score.
#[derive(Debug)]
pub struct Seed {
    pub id: String,
    pub score: u128,
}

/// A recalled claim: the id that it was found under, and its score.
pub struct Recalled {
    pub id: String,
    pub claim: Claim,
    pub score: u128,
}

impl Ranked for Recalled {
    /// Higher scores come first.
    open spec fn ranks_before(self, other: Self) -> bool {
        self.score > other.score
    }

    fn goes_before(&self, other: &Self) -> (r: bool) {
        self.score > other.score
    }

    proof fn rank_laws(a: Self, b: Self, c: Self) {
    }
}

impl Ranked for Seed {
    /// Higher scores come first.
    open spec fn ranks_before(self, other: Self) -> bool {
        self.score > other.score
    }

    fn goes_before(&self, other: &Self) -> (r: bool) {
        self.score > other.score
    }

    proof fn rank_laws(a: Self, b: Self, c: Self) {
    }
}

/// The query without white space round it; one that is empty is refused.
pub fn checked_query(query: &str) -> (r: Result<String, DomainError>)
    ensures
        r is Ok == (trim(query@).len() > 0),
        r matches Ok(q) ==> q@ == trim(query@),
        r matches Err(e) ==> e is InvalidInput && e->InvalidInput_0@
            == "query must not be empty"@,
{
    let q = trim_text(query);
    if q.as_str().is_empty() {
        Err(DomainError::InvalidInput("query must not be empty".to_string()))
    } else {
        Ok(q)
    }
}

/// The claims recalled so far.
pub struct RecallRun {
    pub found: Vec<Recalled>,
}

/// The claims of a fused list, each under its id.
pub open spec fn entries_of(s: Seq<Scored<Claim>>) -> Seq<Recalled> {
    Seq::new(
        s.len(),
        |i: int| Recalled { id: s[i].item.id, claim: s[i].item, score: s[i].score },
    )
}

/// The seeds that recalled claims make.
pub open spec fn seeds_of(s: Seq<Recalled>) -> Seq<Seed> {
    Seq::new(s.len(), |i: int| Seed { id: s[i].id, score: s[i].score })
}

/// One of the claims was found under `id`.
pub open spec fn was_found(s: Seq<Recalled>, id: Seq<char>) -> bool {
    exists|i: int| 0 <= i < s.len() && (#[trigger] s[i]).id@ == id
}

/// The claims in the order of their scores.
pub open spec fn results_of(s: Seq<Recalled>) -> Seq<(Claim, u128)> {
    Seq::new(s.len(), |i: int| (s[i].claim, s[i].score))
}

impl RecallRun {
    /// Begins with what the two legs of the search found.
    pub fn start(semantic: Vec<Claim>, keyword: Vec<Claim>) -> (r: RecallRun)
        requires
            semantic@.len() + keyword@.len() <= usize::MAX,
        ensures
            r.found@ == entries_of(fused(seq![semantic@, keyword@])),
    {
        let ghost pair = seq![semantic@, keyword@];
        let mut lists: Vec<Vec<Claim>> = Vec::new();
        lists.push(semantic);
        lists.push(keyword);
        proof {
            assert(views(lists@) =~= pair);
            let one = pair.drop_last();
            assert(one =~= seq![semantic@]);
            assert(one.drop_last() =~= Seq::<Seq<Claim>>::empty());
            assert(concat(one.drop_last()) =~= Seq::<Claim>::empty());
            assert(concat(one) =~= semantic@);
        }
        let entries = fuse(lists);
        let ghost all = entries@;
        let mut found: Vec<Recalled> = Vec::new();
        for e in it: entries
            invariant
                it.seq() == all,
                found@.len() == it.index(),
                forall|k: int| 0 <= k < found@.len() ==> found@[k] == entries_of(all)[k],
        {
            found.push(Recalled { id: e.item.id.clone(), claim: e.item, score: e.score });
        }
        assert(found@ =~= entries_of(all));
        RecallRun { found }
    }

    /// The best claims, which are expanded.
    pub fn seeds(&self) -> (r: Vec<Seed>)
        ensures
            r@ == at_most(arranged(seeds_of(self.found@)), MAX_EXPANSION_SEEDS as int),
    {
        let mut seeds: Vec<Seed> = Vec::new();
        let mut i: usize = 0;
        while i < self.found.len()
            invariant
                i <= self.found@.len(),
                seeds@.len() == i,
                forall|k: int| 0 <= k < i ==> seeds@[k] == seeds_of(self.found@)[k],
            decreases self.found@.len() - i,
        {
            seeds.push(Seed { id: self.found[i].id.clone(), score: self.found[i].score });
            i += 1;
        }
        assert(seeds@ =~= seeds_of(self.found@));
        let mut r = arrange(seeds);
        r.truncate(MAX_EXPANSION_SEEDS);
        r
    }

    /// Whether a neighbour is new, and so is to be looked up.
    pub fn is_new(&self, id: &str) -> (r: bool)
        ensures
            r == !was_found(self.found@, id@),
    {
        let mut i: usize = 0;
        while i < self.found.len()
            invariant
                i <= self.found@.len(),
                forall|k: int| 0 <= k < i ==> (#[trigger] self.found@[k]).id@ != id@,
            decreases self.found@.len() - i,
        {
            if same_text(self.found[i].id.as_str(), id) {
                return false;
            }
            i += 1;
        }
        true
    }

    /// What has been found once a neighbour was looked up.
    pub open spec fn with_neighbor(
        self,
        id: String,
        found: Option<Claim>,
        seed_score: u128,
    ) -> Seq<Recalled> {
        if found is Some && found->Some_0.status == ClaimStatus::Active {
            self.found@.push(
                Recalled {
                    id,
                    claim: found->Some_0,
                    score: (seed_score * EXPANSION_TENTHS / 10) as u128,
                },
            )
        } else {
            self.found@
        }
    }

    /// Takes what was found for a new neighbour: a claim that is current joins
    /// the others, below the seed that led to it.
    pub fn neighbor_found(&mut self, id: String, found: Option<Claim>, seed_score: u128)
        requires
            !was_found(old(self).found@, id@),
            seed_score * EXPANSION_TENTHS <= u128::MAX,
        ensures
            final(self).found@ == match found {
                Some(claim) if claim.status == ClaimStatus::Active => old(self).found@.push(
                    Recalled {
                        id,
                        claim,
                        score: (seed_score * EXPANSION_TENTHS / 10) as u128,
                    },
                ),
                _ => old(self).found@,
            },
            final(self).found@ == old(self).with_neighbor(id, found, seed_score),
    {
        if let Some(claim) = found {
            if claim.status == ClaimStatus::Active {
                let score: u128 = seed_score * EXPANSION_TENTHS / 10;
                self.found.push(Recalled { id, claim, score });
            }
        }
    }

    /// The best claims, at most `limit`, each with its score.
    pub fn finish(self, limit: usize) -> (r: Vec<(Claim, u128)>)
        ensures
            r@ == results_of(at_most(arranged(self.found@), limit as int)),
    {
        let mut ranked = arrange(self.found);
        ranked.truncate(limit);
        let ghost all = ranked@;
        let mut r: Vec<(Claim, u128)> = Vec::new();
        for e in it: ranked
            invariant
                it.seq() == all,
                r@.len() == it.index(),
                forall|k: int| 0 <= k < r@.len() ==> r@[k] == results_of(all)[k],
        {
            r.push((e.claim, e.score));
        }
        assert(r@ =~= results_of(all));
        r
    }
}

/// The far ends of the edges that enrich: of those that leave, where they
/// lead; of those that arrive, where they come from.
pub open spec fn neighbor_ids(edges: Seq<ClaimEdge>, leaving: bool) -> Seq<Seq<char>>
    decreases edges.len(),
{
    if edges.len() == 0 {
        Seq::empty()
    } else {
        let d = neighbor_ids(edges.drop_last(), leaving);
        let e = edges.last();
        if !e.edge_type.enriches() {
            d
        } else if leaving {
            d.push(e.to_claim@)
        } else {
            d.push(e.from_claim@)
        }
    }
}

/// The ids of the claims linked by an edge that enriches, in either direction.
pub fn enrichment_neighbors(from: &[ClaimEdge], to: &[ClaimEdge]) -> (r: Vec<String>)
    ensures
        texts(r@) == neighbor_ids(from@, true) + neighbor_ids(to@, false),
{
    let mut r: Vec<String> = Vec::new();
    let mut i: usize = 0;
    assert(texts(r@) =~= neighbor_ids(from@.take(0), true));
    while i < from.len()
        invariant
            i <= from@.len(),
            texts(r@) == neighbor_ids(from@.take(i as int), true),
        decreases from@.len() - i,
    {
        let ghost before = r@;
        proof {
            assert(from@.take(i + 1).drop_last() =~= from@.take(i as int));
            assert(from@.take(i + 1).last() == from@[i as int]);
        }
        if walked(from[i].edge_type) {
            r.push(from[i].to_claim.clone());
            assert(texts(r@) =~= texts(before).push(from@[i as int].to_claim@));
        }
        i += 1;
    }
    assert(from@.take(i as int) =~= from@);
    let ghost first = neighbor_ids(from@, true);
    let mut j: usize = 0;
    assert(first + neighbor_ids(to@.take(0), false) =~= first);
    while j < to.len()
        invariant
            j <= to@.len(),
            texts(r@) == first + neighbor_ids(to@.take(j as int), false),
        decreases to@.len() - j,
    {
        let ghost before = r@;
        let ghost d = neighbor_ids(to@.take(j as int), false);
        proof {
            assert(to@.take(j + 1).drop_last() =~= to@.take(j as int));
            assert(to@.take(j + 1).last() == to@[j as int]);
        }
        if walked(to[j].edge_type) {
            r.push(to[j].from_claim.clone());
            proof {
                let x = to@[j as int].from_claim@;
                assert(texts(r@) =~= texts(before).push(x));
                assert(first + d.push(x) =~= (first + d).push(x));
            }
        }
        j += 1;
    }
    assert(to@.take(j as int) =~= to@);
    r
}

/// Whether recall walks along edges of the type.
fn walked(t: EdgeType) -> (r: bool)
    ensures
        r == t.enriches(),
{
    t == EdgeType::Refines || t == EdgeType::Corroborates || t == EdgeType::RelatesTo
}

} // verus!
