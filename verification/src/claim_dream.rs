//! Consolidation of the claim graph: near-duplicate claims are clustered and
//! each cluster is abstracted into derived claims. Claims are only ever added;
//! none is rewritten, retired or removed.

use vstd::prelude::*;
use crate::claims::{
    Claim, ClaimEdge, ClaimStatus, EdgeOrigin, EdgeType, EntityRef, SourceKind, claim_ids,
    clamp_confidence, clamped,
};
use crate::clustering::{Cluster, Member, are_clusters, make_clusters};
use crate::collections::TextSet;
use crate::ids::{fresh_id, is_random_id};
use crate::order::{Ranked, lemma_text_order, text_less, text_lt};
use crate::text::{copy_opt, opt_text, same_opt, texts, trim, trim_text};
use crate::union_find::{components, connected};

verus! {

/// Most clusters examined per cycle.
pub const MAX_CLUSTERS_PER_RUN: usize = 8;

/// Most claims sent to the model per cluster.
pub const MAX_CLUSTER_CLAIMS: usize = 8;

/// Most derived claims added by one cycle.
pub const MAX_DERIVED_PER_RUN: usize = 8;

/// The highest confidence of a derived claim.
pub const DERIVED_CONFIDENCE_CAP: i64 = 800_000;

/// What one consolidation cycle did.
#[derive(Debug, PartialEq)]
pub struct ClaimDreamReport {
    /// Similarity clusters of primary claims found.
    pub clusters_examined: usize,
    /// Clusters skipped because they were already abstracted.
    pub clusters_skipped_stable: usize,
    /// Derived claims appended.
    pub derived_claims_added: usize,
    /// Edges added from a source to a derived claim.
    pub edges_added: usize,
}

/// One generalization proposed by the model.
#[derive(Debug)]
pub struct RawDerived {
    pub statement: String,
    /// Parts of [`CONFIDENCE_ONE`].
    pub confidence: i64,
}

/// A derived claim with the edges that lead to it.
#[derive(Debug)]
pub struct Derivation {
    pub claim: Claim,
    pub edges: Vec<ClaimEdge>,
}

/// A claim of a cluster: its place among the claims, and its id.
pub struct ClaimMember {
    pub at: usize,
    pub id: String,
}

impl Ranked for ClaimMember {
    /// By id.
    open spec fn ranks_before(self, other: Self) -> bool {
        text_lt(self.id@, other.id@)
    }

    fn goes_before(&self, other: &Self) -> (r: bool) {
        text_less(self.id.as_str(), other.id.as_str())
    }

    proof fn rank_laws(a: Self, b: Self, c: Self) {
        lemma_text_order(a.id@, b.id@, c.id@);
    }
}

impl Member for ClaimMember {
    open spec fn label(self) -> Seq<char> {
        self.id@
    }

    fn label_text(&self) -> (r: &str) {
        self.id.as_str()
    }

    fn copied(&self) -> (r: Self) {
        ClaimMember { at: self.at, id: self.id.clone() }
    }
}

/// The members are the claims at the given places.
pub open spec fn are_members(s: Seq<ClaimMember>, claims: Seq<Claim>, at: Seq<usize>) -> bool {
    &&& s.len() == at.len()
    &&& forall|i: int|
        0 <= i < s.len() ==> (#[trigger] s[i]).at == at[i] && s[i].id == claims[at[i] as int].id
}

/// The labels tell connected places from others.
pub open spec fn are_components(labels: Seq<usize>, pairs: Seq<(usize, usize)>) -> bool {
    forall|i: int, j: int|
        0 <= i < labels.len() && 0 <= j < labels.len() ==> (#[trigger] labels[i]
            == #[trigger] labels[j] <==> connected(pairs, i, j))
}

/// Groups claims into clusters: the connected components of the similar pairs.
/// `embedded` gives the places in `claims` of those that can be compared, and
/// the pairs are of places in `embedded`. Of each component of two or more the
/// first by id are kept, and of the components the largest.
pub fn build_clusters(claims: &[Claim], embedded: &[usize], similar: &[(usize, usize)]) -> (r: Vec<
    Cluster<ClaimMember>,
>)
    requires
        forall|i: int| 0 <= i < embedded@.len() ==> (#[trigger] embedded@[i]) < claims@.len(),
        forall|k: int|
            0 <= k < similar@.len() ==> (#[trigger] similar@[k]).0 < embedded@.len()
                && similar@[k].1 < embedded@.len(),
    ensures
        exists|members: Seq<ClaimMember>, labels: Seq<usize>| #[trigger]
            are_members(members, claims@, embedded@) && labels.len() == embedded@.len()
                && #[trigger] are_components(labels, similar@) && are_clusters(
                r@,
                members,
                labels,
                MAX_CLUSTER_CLAIMS as int,
                MAX_CLUSTERS_PER_RUN as int,
            ),
{
    let labels = components(embedded.len(), similar);
    let mut members: Vec<ClaimMember> = Vec::new();
    let mut i: usize = 0;
    while i < embedded.len()
        invariant
            i <= embedded@.len(),
            forall|i: int| 0 <= i < embedded@.len() ==> (#[trigger] embedded@[i]) < claims@.len(),
            members@.len() == i,
            forall|k: int|
                0 <= k < i ==> (#[trigger] members@[k]).at == embedded@[k] && members@[k].id
                    == claims@[embedded@[k] as int].id,
        decreases embedded@.len() - i,
    {
        let at: usize = embedded[i];
        members.push(ClaimMember { at, id: claims[at].id.clone() });
        i += 1;
    }
    assert(are_members(members@, claims@, embedded@));
    assert(are_components(labels@, similar@));
    make_clusters(&members, &labels, MAX_CLUSTER_CLAIMS, MAX_CLUSTERS_PER_RUN)
}

/// The places of the claims that are no abstractions themselves.
pub open spec fn primaries_of(active: Seq<Claim>) -> Seq<usize>
    decreases active.len(),
{
    if active.len() == 0 {
        Seq::empty()
    } else {
        let d = primaries_of(active.drop_last());
        if active.last().derived {
            d
        } else {
            d.push((active.len() - 1) as usize)
        }
    }
}

/// The places of the claims that are no abstractions themselves.
pub fn primary_claims(active: &[Claim]) -> (r: Vec<usize>)
    ensures
        r@ == primaries_of(active@),
{
    let mut r: Vec<usize> = Vec::new();
    let mut i: usize = 0;
    while i < active.len()
        invariant
            i <= active@.len(),
            r@ == primaries_of(active@.take(i as int)),
        decreases active@.len() - i,
    {
        proof {
            assert(active@.take(i + 1).drop_last() =~= active@.take(i as int));
            assert(active@.take(i + 1).last() == active@[i as int]);
        }
        if !active[i].derived {
            r.push(i);
        }
        i += 1;
    }
    assert(active@.take(i as int) =~= active@);
    r
}

/// An abstraction among `active` was derived from the claim `id`.
pub open spec fn is_covered(active: Seq<Claim>, id: Seq<char>) -> bool {
    exists|i: int|
        0 <= i < active.len() && (#[trigger] active[i]).derived && texts(
            active[i].derived_from@,
        ).contains(id)
}

/// The ids of the claims that an abstraction was derived from.
pub fn covered_ids(active: &[Claim]) -> (r: TextSet)
    ensures
        forall|id: Seq<char>| #[trigger] r@.contains(id) <==> is_covered(active@, id),
{
    let mut r = TextSet::new();
    let mut i: usize = 0;
    while i < active.len()
        invariant
            i <= active@.len(),
            forall|id: Seq<char>| #[trigger]
                r@.contains(id) <==> exists|k: int|
                    0 <= k < i && (#[trigger] active@[k]).derived && texts(
                        active@[k].derived_from@,
                    ).contains(id),
        decreases active@.len() - i,
    {
        if active[i].derived {
            let from = &active[i].derived_from;
            let ghost before = r@;
            let mut j: usize = 0;
            while j < from.len()
                invariant
                    j <= from@.len(),
                    forall|id: Seq<char>| #[trigger]
                        r@.contains(id) <==> before.contains(id) || exists|k: int|
                            0 <= k < j && #[trigger] texts(from@)[k] == id,
                decreases from@.len() - j,
            {
                let ghost prior = r@;
                let _ = r.insert(from[j].clone());
                proof {
                    assert(texts(from@)[j as int] == from@[j as int]@);
                    assert forall|id: Seq<char>| #[trigger]
                        r@.contains(id) <==> before.contains(id) || exists|k: int|
                            0 <= k < j + 1 && #[trigger] texts(from@)[k] == id by {
                        if prior.contains(id) && !before.contains(id) {
                            let k = choose|k: int| 0 <= k < j && #[trigger] texts(from@)[k] == id;
                            assert(texts(from@)[k] == id);
                        }
                    }
                }
                j += 1;
            }
            proof {
                assert forall|id: Seq<char>| #[trigger]
                    r@.contains(id) <==> exists|k: int|
                        0 <= k < i + 1 && (#[trigger] active@[k]).derived && texts(
                            active@[k].derived_from@,
                        ).contains(id) by {
                    if before.contains(id) {
                        let k = choose|k: int|
                            0 <= k < i && (#[trigger] active@[k]).derived && texts(
                                active@[k].derived_from@,
                            ).contains(id);
                        assert(active@[k].derived);
                    } else if r@.contains(id) {
                        assert(active@[i as int].derived);
                        assert(texts(from@).contains(id));
                    }
                    if texts(from@).contains(id) {
                        let k = choose|k: int| 0 <= k < texts(from@).len() && texts(from@)[k] == id;
                        assert(texts(from@)[k] == id);
                        assert(r@.contains(id));
                    }
                }
            }
        }
        i += 1;
    }
    r
}

/// Every claim of the cluster is covered.
pub open spec fn all_covered(cluster: Seq<Claim>, covered: Set<Seq<char>>) -> bool {
    forall|i: int| 0 <= i < cluster.len() ==> covered.contains((#[trigger] cluster[i]).id@)
}

/// The project that all claims of the cluster share.
pub open spec fn common_project(cluster: Seq<Claim>) -> Option<Seq<char>> {
    if cluster.len() > 0 && (forall|i: int|
        0 <= i < cluster.len() ==> opt_text((#[trigger] cluster[i]).project) == opt_text(
            cluster[0].project,
        )) {
        opt_text(cluster[0].project)
    } else {
        None
    }
}

/// The project shared by every claim of the cluster.
pub fn shared_project(cluster: &[Claim]) -> (r: Option<String>)
    ensures
        opt_text(r) == common_project(cluster@),
{
    if cluster.len() == 0 {
        return None;
    }
    let first = &cluster[0].project;
    let mut i: usize = 0;
    while i < cluster.len()
        invariant
            i <= cluster@.len(),
            cluster@.len() > 0,
            *first == cluster@[0].project,
            forall|k: int|
                0 <= k < i ==> opt_text((#[trigger] cluster@[k]).project) == opt_text(*first),
        decreases cluster@.len() - i,
    {
        if !same_opt(&cluster[i].project, first) {
            return None;
        }
        i += 1;
    }
    copy_opt(first)
}

/// The least confidence of the cluster and of `least`.
pub open spec fn weakest(cluster: Seq<Claim>, least: int) -> int
    decreases cluster.len(),
{
    if cluster.len() == 0 {
        least
    } else {
        let w = weakest(cluster.drop_last(), least);
        if cluster.last().confidence < w {
            cluster.last().confidence as int
        } else {
            w
        }
    }
}

/// The confidence of a claim derived from the cluster: the model's own, but no
/// higher than the weakest source and the cap.
pub open spec fn derived_confidence(model: int, cluster: Seq<Claim>) -> int {
    weakest(
        cluster,
        if clamped(model) < DERIVED_CONFIDENCE_CAP {
            clamped(model)
        } else {
            DERIVED_CONFIDENCE_CAP as int
        },
    )
}

/// A derived claim is trusted no more than the model's estimate, the cap and
/// every one of its sources.
pub proof fn lemma_derived_confidence(model: int, cluster: Seq<Claim>)
    ensures
        derived_confidence(model, cluster) <= DERIVED_CONFIDENCE_CAP,
        derived_confidence(model, cluster) <= clamped(model),
        forall|i: int|
            0 <= i < cluster.len() ==> derived_confidence(model, cluster) <= (
            #[trigger] cluster[i]).confidence,
{
    lemma_weakest(
        cluster,
        if clamped(model) < DERIVED_CONFIDENCE_CAP {
            clamped(model)
        } else {
            DERIVED_CONFIDENCE_CAP as int
        },
    );
}

proof fn lemma_weakest(cluster: Seq<Claim>, least: int)
    ensures
        weakest(cluster, least) <= least,
        forall|i: int|
            0 <= i < cluster.len() ==> weakest(cluster, least) <= (#[trigger] cluster[i]).confidence,
    decreases cluster.len(),
{
    if cluster.len() > 0 {
        let d = cluster.drop_last();
        lemma_weakest(d, least);
        assert forall|i: int| 0 <= i < cluster.len() implies weakest(cluster, least) <= (
        #[trigger] cluster[i]).confidence by {
            if i < d.len() {
                assert(d[i] == cluster[i]);
            }
        }
    }
}

fn confidence_of(model: i64, cluster: &[Claim]) -> (r: i64)
    ensures
        r == derived_confidence(model as int, cluster@),
{
    let own: i64 = clamp_confidence(model);
    let mut least: i64 = if own < DERIVED_CONFIDENCE_CAP {
        own
    } else {
        DERIVED_CONFIDENCE_CAP
    };
    let ghost start = least as int;
    let mut i: usize = 0;
    while i < cluster.len()
        invariant
            i <= cluster@.len(),
            least == weakest(cluster@.take(i as int), start),
        decreases cluster@.len() - i,
    {
        proof {
            assert(cluster@.take(i + 1).drop_last() =~= cluster@.take(i as int));
            assert(cluster@.take(i + 1).last() == cluster@[i as int]);
        }
        if cluster[i].confidence < least {
            least = cluster[i].confidence;
        }
        i += 1;
    }
    assert(cluster@.take(i as int) =~= cluster@);
    least
}

/// The edge says that `from` refines `to`.
pub open spec fn is_refinement(
    e: ClaimEdge,
    from: Seq<char>,
    to: Seq<char>,
    now: i64,
    confidence: int,
) -> bool {
    &&& e.from_claim@ == from
    &&& e.to_claim@ == to
    &&& e.edge_type == EdgeType::Refines
    &&& e.created_at == now
    &&& e.created_by == EdgeOrigin::Consolidation
    &&& e.confidence == confidence
}

/// The derivation abstracts the cluster into `statement`: an active derived
/// claim over all its claims, and an edge from each of them.
pub open spec fn abstracts(
    d: Derivation,
    statement: Seq<char>,
    model: int,
    cluster: Seq<Claim>,
    now: i64,
) -> bool {
    let c = d.claim;
    &&& c.statement@ == statement
    &&& c.predicate@ == "generalizes"@
    &&& if cluster.len() > 0 {
        c.subject == cluster[0].subject
    } else {
        c.subject is Literal && c.subject->Literal_0@.len() == 0
    }
    &&& c.object is Literal && c.object->Literal_0@.len() == 0
    &&& opt_text(c.project) == common_project(cluster)
    &&& c.recorded_at == now && c.valid_from == now && c.valid_to is None
    &&& c.source_session_id is None && c.source_message_index is None
    &&& c.source_kind == SourceKind::Derived
    &&& c.confidence == derived_confidence(model, cluster)
    &&& c.status == ClaimStatus::Active
    &&& c.derived
    &&& texts(c.derived_from@) == claim_ids(cluster)
    &&& d.edges@.len() == cluster.len()
    &&& forall|i: int|
        0 <= i < cluster.len() ==> is_refinement(
            #[trigger] d.edges@[i],
            cluster[i].id@,
            c.id@,
            now,
            derived_confidence(model, cluster),
        )
}

/// Abstracts a cluster into the derived claim `id`.
pub fn derive_claim(
    id: String,
    statement: String,
    model_confidence: i64,
    cluster: &[Claim],
    now: i64,
) -> (r: Derivation)
    ensures
        r.claim.id == id,
        abstracts(r, statement@, model_confidence as int, cluster@, now),
{
    let confidence: i64 = confidence_of(model_confidence, cluster);
    let subject = if cluster.len() > 0 {
        cluster[0].subject.copied()
    } else {
        EntityRef::Literal(String::new())
    };
    let mut derived_from: Vec<String> = Vec::new();
    let mut edges: Vec<ClaimEdge> = Vec::new();
    let mut i: usize = 0;
    while i < cluster.len()
        invariant
            i <= cluster@.len(),
            derived_from@.len() == i,
            edges@.len() == i,
            forall|k: int| 0 <= k < i ==> texts(derived_from@)[k] == claim_ids(cluster@)[k],
            forall|k: int|
                0 <= k < i ==> is_refinement(
                    #[trigger] edges@[k],
                    cluster@[k].id@,
                    id@,
                    now,
                    confidence as int,
                ),
        decreases cluster@.len() - i,
    {
        let ghost before = derived_from@;
        derived_from.push(cluster[i].id.clone());
        edges.push(
            ClaimEdge {
                from_claim: cluster[i].id.clone(),
                to_claim: id.clone(),
                edge_type: EdgeType::Refines,
                created_at: now,
                created_by: EdgeOrigin::Consolidation,
                confidence,
            },
        );
        proof {
            assert forall|k: int| 0 <= k < i + 1 implies texts(derived_from@)[k] == claim_ids(
                cluster@,
            )[k] by {
                if k < i {
                    assert(texts(before)[k] == claim_ids(cluster@)[k]);
                }
            }
        }
        i += 1;
    }
    assert(texts(derived_from@) =~= claim_ids(cluster@));
    let claim = Claim {
        id,
        subject,
        predicate: "generalizes".to_string(),
        object: EntityRef::Literal(String::new()),
        statement,
        project: shared_project(cluster),
        recorded_at: now,
        valid_from: now,
        valid_to: None,
        source_session_id: None,
        source_message_index: None,
        source_kind: SourceKind::Derived,
        confidence,
        status: ClaimStatus::Active,
        derived: true,
        derived_from,
    };
    Derivation { claim, edges }
}

/// Once a claim derived from the cluster is stored, the cluster is covered:
/// a further cycle skips it.
pub proof fn lemma_derivation_covers(
    active: Seq<Claim>,
    d: Derivation,
    statement: Seq<char>,
    model: int,
    cluster: Seq<Claim>,
    now: i64,
)
    requires
        abstracts(d, statement, model, cluster, now),
    ensures
        forall|i: int|
            0 <= i < cluster.len() ==> is_covered(active.push(d.claim), (#[trigger] cluster[i]).id@),
{
    assert forall|i: int| 0 <= i < cluster.len() implies is_covered(
        active.push(d.claim),
        (#[trigger] cluster[i]).id@,
    ) by {
        let all = active.push(d.claim);
        assert(all[active.len() as int] == d.claim);
        assert(claim_ids(cluster)[i] == cluster[i].id@);
        assert(texts(d.claim.derived_from@).contains(cluster[i].id@));
    }
}

/// What to do with a cluster.
#[derive(Debug, Clone, Copy, PartialEq, Eq, Structural)]
pub enum ClusterStep {
    /// Nothing more may be derived in this cycle.
    Stop,
    /// The cluster is abstracted already.
    Skip,
    /// Ask the model to abstract it.
    Abstract,
}

/// A consolidation cycle under way.
pub struct ClaimDreamRun {
    pub report: ClaimDreamReport,
    /// How many more claims may be derived.
    pub budget: usize,
}

/// The proposals that are taken up: those that state something, as far as the
/// budget goes.
pub open spec fn accepted(raws: Seq<RawDerived>, budget: int) -> Seq<RawDerived>
    decreases raws.len(),
{
    if raws.len() == 0 {
        raws
    } else {
        let d = accepted(raws.drop_last(), budget);
        if d.len() >= budget || trim(raws.last().statement@).len() == 0 {
            d
        } else {
            d.push(raws.last())
        }
    }
}

proof fn lemma_accepted_len(raws: Seq<RawDerived>, budget: int)
    requires
        0 <= budget,
    ensures
        accepted(raws, budget).len() <= budget,
    decreases raws.len(),
{
    if raws.len() > 0 {
        lemma_accepted_len(raws.drop_last(), budget);
    }
}

impl ClaimDreamRun {
    /// What was derived and what may still be make up the bound.
    pub open spec fn wf(self) -> bool {
        &&& self.report.derived_claims_added + self.budget == MAX_DERIVED_PER_RUN
        &&& self.report.edges_added <= self.report.derived_claims_added * MAX_CLUSTER_CLAIMS
    }

    /// Begins a cycle over `clusters` clusters.
    pub fn start(clusters: usize) -> (r: ClaimDreamRun)
        ensures
            r.wf(),
            r.budget == MAX_DERIVED_PER_RUN,
            r.report.clusters_examined == clusters,
            r.report.clusters_skipped_stable == 0,
            r.report.derived_claims_added == 0,
            r.report.edges_added == 0,
    {
        ClaimDreamRun {
            report: ClaimDreamReport {
                clusters_examined: clusters,
                clusters_skipped_stable: 0,
                derived_claims_added: 0,
                edges_added: 0,
            },
            budget: MAX_DERIVED_PER_RUN,
        }
    }

    /// What is done with a cluster.
    pub open spec fn step_of(self, cluster: Seq<Claim>, covered: Set<Seq<char>>) -> ClusterStep {
        if self.budget == 0 {
            ClusterStep::Stop
        } else if all_covered(cluster, covered) {
            ClusterStep::Skip
        } else {
            ClusterStep::Abstract
        }
    }

    /// Decides on a cluster: stop where the budget is spent, skip it where it
    /// is covered.
    pub fn consider(&mut self, cluster: &[Claim], covered: &TextSet) -> (r: ClusterStep)
        requires
            old(self).wf(),
            old(self).report.clusters_skipped_stable < usize::MAX,
        ensures
            final(self).wf(),
            final(self).budget == old(self).budget,
            r == if old(self).budget == 0 {
                ClusterStep::Stop
            } else if all_covered(cluster@, covered@) {
                ClusterStep::Skip
            } else {
                ClusterStep::Abstract
            },
            r == old(self).step_of(cluster@, covered@),
            final(self).report == (ClaimDreamReport {
                clusters_skipped_stable: if r == ClusterStep::Skip {
                    (old(self).report.clusters_skipped_stable + 1) as usize
                } else {
                    old(self).report.clusters_skipped_stable
                },
                ..old(self).report
            }),
    {
        if self.budget == 0 {
            return ClusterStep::Stop;
        }
        let mut i: usize = 0;
        while i < cluster.len()
            invariant
                i <= cluster@.len(),
                *self == *old(self),
                self.wf(),
                self.budget > 0,
                self.report.clusters_skipped_stable < usize::MAX,
                forall|k: int| 0 <= k < i ==> covered@.contains((#[trigger] cluster@[k]).id@),
            decreases cluster@.len() - i,
        {
            if !covered.contains(cluster[i].id.as_str()) {
                return ClusterStep::Abstract;
            }
            i += 1;
        }
        self.report.clusters_skipped_stable = self.report.clusters_skipped_stable + 1;
        ClusterStep::Skip
    }

    /// Derives claims from what the model proposed for the cluster, as far as
    /// the budget goes.
    pub fn derive(&mut self, cluster: &[Claim], raws: &[RawDerived], now: i64) -> (r: Vec<
        Derivation,
    >)
        requires
            old(self).wf(),
            cluster@.len() <= MAX_CLUSTER_CLAIMS,
        ensures
            final(self).wf(),
            ({
                let taken = accepted(raws@, old(self).budget as int);
                &&& r@.len() == taken.len()
                &&& forall|i: int|
                    0 <= i < r@.len() ==> abstracts(
                        #[trigger] r@[i],
                        trim(taken[i].statement@),
                        taken[i].confidence as int,
                        cluster@,
                        now,
                    ) && is_random_id(r@[i].claim.id@)
                &&& final(self).budget == old(self).budget - taken.len()
                &&& final(self).report == ClaimDreamReport {
                    derived_claims_added: (old(self).report.derived_claims_added
                        + taken.len()) as usize,
                    edges_added: (old(self).report.edges_added + taken.len()
                        * cluster@.len()) as usize,
                    ..old(self).report
                }
            }),
    {
        let ghost budget = self.budget as int;
        let ghost before = self.report;
        let mut r: Vec<Derivation> = Vec::new();
        let mut i: usize = 0;
        assert(0 * cluster@.len() == 0) by (nonlinear_arith);
        while i < raws.len()
            invariant
                i <= raws@.len(),
                cluster@.len() <= MAX_CLUSTER_CLAIMS,
                budget <= MAX_DERIVED_PER_RUN,
                before.derived_claims_added + budget == MAX_DERIVED_PER_RUN,
                before.edges_added <= before.derived_claims_added * MAX_CLUSTER_CLAIMS,
                self.budget == budget - r@.len(),
                r@.len() <= budget,
                r@.len() == accepted(raws@.take(i as int), budget).len(),
                forall|k: int|
                    0 <= k < r@.len() ==> abstracts(
                        #[trigger] r@[k],
                        trim(accepted(raws@.take(i as int), budget)[k].statement@),
                        accepted(raws@.take(i as int), budget)[k].confidence as int,
                        cluster@,
                        now,
                    ) && is_random_id(r@[k].claim.id@),
                self.report.derived_claims_added == before.derived_claims_added + r@.len(),
                self.report.edges_added == before.edges_added + r@.len() * cluster@.len(),
                self.report.edges_added <= self.report.derived_claims_added * MAX_CLUSTER_CLAIMS,
                self.report == (ClaimDreamReport {
                    derived_claims_added: self.report.derived_claims_added,
                    edges_added: self.report.edges_added,
                    ..before
                }),
            decreases raws@.len() - i,
        {
            proof {
                assert(raws@.take(i + 1).drop_last() =~= raws@.take(i as int));
                assert(raws@.take(i + 1).last() == raws@[i as int]);
            }
            if self.budget > 0 {
                let statement = trim_text(raws[i].statement.as_str());
                if !statement.as_str().is_empty() {
                    let ghost n = r@.len();
                    let d = derive_claim(
                        fresh_id(),
                        statement,
                        raws[i].confidence,
                        cluster,
                        now,
                    );
                    proof {
                        assert((n + 1) * cluster@.len() == n * cluster@.len() + cluster@.len())
                            by (nonlinear_arith);
                    }
                    r.push(d);
                    self.budget = self.budget - 1;
                    self.report.derived_claims_added = self.report.derived_claims_added + 1;
                    self.report.edges_added = self.report.edges_added + cluster.len();
                }
            }
            i += 1;
        }
        assert(raws@.take(i as int) =~= raws@);
        r
    }
}

} // verus!
