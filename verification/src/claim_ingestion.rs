//! Ingestion of claims: what the model extracted from a session is checked,
//! resolved against known entities, and appended. No claim is rewritten.

use vstd::prelude::*;
use crate::claims::{
    Claim, ClaimEdge, ClaimStatus, EdgeOrigin, EdgeType, Entity, EntityRef, SessionTranscript,
    SourceKind, claim_ids, clamp_confidence, clamped,
};
use crate::collections::TextMap;
use crate::ids::{fresh_id, is_random_id};
use crate::text::{copy_opt, is_blank, opt_text, same_text, trim, trim_text};
use crate::unicode::{lowercase, to_lowercase};

verus! {

/// How many prior claims are put into the extraction context.
pub const PREFETCH_LIMIT: usize = 8;

/// Most claims written from one session.
pub const MAX_CLAIMS_PER_RUN: usize = 32;

/// What one ingestion produced.
#[derive(Debug, PartialEq)]
pub struct IngestionReport {
    pub claims_written: usize,
    pub entities_created: usize,
    pub edges_added: usize,
}

/// Outcome of an ingestion request.
#[derive(Debug)]
pub enum IngestionOutcome {
    /// Extraction ran; the report describes what was written.
    Ingested(IngestionReport),
    /// The session already had claims and a repeat was not asked for.
    AlreadyIngested,
}

/// A relation to a prior claim, as the model gave it.
#[derive(Debug)]
pub struct RawRelation {
    pub kind: String,
    pub target: String,
}

/// A claim, as the model gave it.
#[derive(Debug)]
pub struct RawClaim {
    pub subject: String,
    pub subject_is_entity: bool,
    pub predicate: String,
    pub object: String,
    pub object_is_entity: bool,
    pub statement: String,
    pub source_kind: String,
    /// Parts of [`CONFIDENCE_ONE`].
    pub confidence: i64,
    pub relation: Option<RawRelation>,
}

/// What to do with the claims that a session has from before.
#[derive(Debug, Clone, Copy, PartialEq, Eq, Structural)]
pub enum IngestionStart {
    /// Remove them, then ingest.
    Replace,
    /// There are none: ingest.
    Ingest,
    /// There are some: leave it at that.
    AlreadyIngested,
}

/// Decides whether a session is ingested. `existing` is the number of claims
/// that it has from before; a forced ingestion does not ask for it.
pub fn begin_ingestion(force: bool, existing: usize) -> (r: IngestionStart)
    ensures
        r == if force {
            IngestionStart::Replace
        } else if existing > 0 {
            IngestionStart::AlreadyIngested
        } else {
            IngestionStart::Ingest
        },
{
    if force {
        IngestionStart::Replace
    } else if existing > 0 {
        IngestionStart::AlreadyIngested
    } else {
        IngestionStart::Ingest
    }
}

/// What to do with an extracted claim.
#[derive(Debug, Clone, Copy, PartialEq, Eq, Structural)]
pub enum ClaimStep {
    /// No more claims may be written.
    Stop,
    /// The claim states nothing.
    Skip,
    /// Write it.
    Take,
}

/// How a subject or object is resolved.
#[derive(Debug)]
pub enum RefPlan {
    /// It is resolved.
    Ready(EntityRef),
    /// Look for an entity known by `name`; `key` is its place in the cache.
    Lookup { name: String, key: String },
}

/// What a plan says: the reference, or the name and key to look up.
pub enum RefPlanView {
    Entity(Seq<char>),
    Literal(Seq<char>),
    Lookup(Seq<char>, Seq<char>),
}

impl View for RefPlan {
    type V = RefPlanView;

    open spec fn view(&self) -> RefPlanView {
        match self {
            RefPlan::Ready(EntityRef::Entity(s)) => RefPlanView::Entity(s@),
            RefPlan::Ready(EntityRef::Literal(s)) => RefPlanView::Literal(s@),
            RefPlan::Lookup { name, key } => RefPlanView::Lookup(name@, key@),
        }
    }
}

/// The plan for a surface form, given as `name` without white space round it
/// and as `key` in small letters: literals stand for themselves, an entity met
/// before in this run is known, any other is looked up.
pub open spec fn planned(
    cache: Map<Seq<char>, String>,
    name: Seq<char>,
    key: Seq<char>,
    is_entity: bool,
) -> RefPlanView {
    if !is_entity || name.len() == 0 {
        RefPlanView::Literal(name)
    } else if cache.contains_key(key) {
        RefPlanView::Entity(cache[key]@)
    } else {
        RefPlanView::Lookup(name, key)
    }
}

/// The claim is honoured as a relation to a prior one: it names a known edge
/// type and the id of a claim that was shown.
pub open spec fn honoured(raw: RawClaim, prior: Seq<Claim>) -> Option<(EdgeType, Seq<char>)> {
    match raw.relation {
        Some(rel) => match EdgeType::named(rel.kind@) {
            Some(t) if trim(rel.target@).len() > 0 && claim_ids(prior).contains(
                trim(rel.target@),
            ) => Some((t, trim(rel.target@))),
            _ => None,
        },
        None => None,
    }
}

/// The claim says what the raw one does, as claimed in this session.
pub open spec fn is_claim(
    c: Claim,
    raw: RawClaim,
    transcript: SessionTranscript,
    now: i64,
) -> bool {
    &&& c.predicate@ == trim(raw.predicate@)
    &&& c.statement@ == trim(raw.statement@)
    &&& c.project == transcript.project
    &&& c.recorded_at == now && c.valid_from == now && c.valid_to is None
    &&& opt_text(c.source_session_id) == Some(transcript.id@)
    &&& c.source_message_index is None
    &&& c.source_kind == match SourceKind::named(raw.source_kind@) {
        Some(k) => k,
        None => SourceKind::AssistantInferred,
    }
    &&& c.confidence == clamped(raw.confidence as int)
    &&& c.status == ClaimStatus::Active
    &&& !c.derived
    &&& c.derived_from@.len() == 0
}

/// Makes the claim `id` of what the model gave.
pub fn make_claim(
    id: String,
    raw: &RawClaim,
    subject: EntityRef,
    object: EntityRef,
    transcript: &SessionTranscript,
    now: i64,
) -> (r: Claim)
    ensures
        r.id == id,
        r.subject == subject,
        r.object == object,
        is_claim(r, *raw, *transcript, now),
{
    let source_kind = match SourceKind::parse(raw.source_kind.as_str()) {
        Some(k) => k,
        None => SourceKind::AssistantInferred,
    };
    Claim {
        id,
        subject,
        predicate: trim_text(raw.predicate.as_str()),
        object,
        statement: trim_text(raw.statement.as_str()),
        project: copy_opt(&transcript.project),
        recorded_at: now,
        valid_from: now,
        valid_to: None,
        source_session_id: Some(transcript.id.clone()),
        source_message_index: None,
        source_kind,
        confidence: clamp_confidence(raw.confidence),
        status: ClaimStatus::Active,
        derived: false,
        derived_from: Vec::new(),
    }
}

/// Makes a claim, under a fresh id, of what the model gave.
pub fn new_claim(
    raw: &RawClaim,
    subject: EntityRef,
    object: EntityRef,
    transcript: &SessionTranscript,
    now: i64,
) -> (r: Claim)
    ensures
        is_random_id(r.id@),
        r.subject == subject,
        r.object == object,
        is_claim(r, *raw, *transcript, now),
{
    make_claim(fresh_id(), raw, subject, object, transcript, now)
}

/// The entity is one that was just met under `name`.
pub open spec fn is_new_entity(e: Entity, name: Seq<char>, now: i64) -> bool {
    &&& e.entity_type@ == "unknown"@
    &&& e.canonical_name@ == name
    &&& e.aliases@.len() == 0
    &&& e.created_at == now
    &&& e.updated_at == now
}

/// Makes the entity `id` of a name.
pub fn make_entity(id: String, name: String, now: i64) -> (r: Entity)
    ensures
        r.id == id,
        is_new_entity(r, name@, now),
{
    Entity {
        id,
        entity_type: "unknown".to_string(),
        canonical_name: name,
        aliases: Vec::new(),
        created_at: now,
        updated_at: now,
    }
}

/// An ingestion under way.
pub struct IngestionRun {
    pub report: IngestionReport,
    /// The ids of the entities met in this run, by name in small letters.
    pub cache: TextMap<String>,
}

impl IngestionRun {
    /// The ids of the entities met in this run, by name in small letters.
    pub open spec fn known(self) -> Map<Seq<char>, String> {
        self.cache@
    }

    /// Begins a run.
    pub fn start() -> (r: IngestionRun)
        ensures
            r.report.claims_written == 0,
            r.report.entities_created == 0,
            r.report.edges_added == 0,
            r.known() == Map::<Seq<char>, String>::empty(),
    {
        IngestionRun {
            report: IngestionReport { claims_written: 0, entities_created: 0, edges_added: 0 },
            cache: TextMap::new(),
        }
    }

    /// What is done with an extracted claim.
    pub open spec fn step_of(self, raw: RawClaim) -> ClaimStep {
        if self.report.claims_written >= MAX_CLAIMS_PER_RUN {
            ClaimStep::Stop
        } else if trim(raw.statement@).len() > 0 && trim(raw.predicate@).len() > 0 {
            ClaimStep::Take
        } else {
            ClaimStep::Skip
        }
    }

    /// Decides whether an extracted claim is written.
    pub fn decide(&self, raw: &RawClaim) -> (r: ClaimStep)
        ensures
            r == if self.report.claims_written >= MAX_CLAIMS_PER_RUN {
                ClaimStep::Stop
            } else if trim(raw.statement@).len() == 0 || trim(raw.predicate@).len() == 0 {
                ClaimStep::Skip
            } else {
                ClaimStep::Take
            },
            r == self.step_of(*raw),
    {
        if self.report.claims_written >= MAX_CLAIMS_PER_RUN {
            ClaimStep::Stop
        } else if is_blank(raw.statement.as_str()) || is_blank(raw.predicate.as_str()) {
            ClaimStep::Skip
        } else {
            ClaimStep::Take
        }
    }

    /// Plans how a name is resolved that is known in the cache as `key`.
    pub fn plan_name(&self, name: String, key: String, is_entity: bool) -> (r: RefPlan)
        ensures
            r@ == planned(self.known(), name@, key@, is_entity),
    {
        if !is_entity || name.as_str().is_empty() {
            return RefPlan::Ready(EntityRef::Literal(name));
        }
        match self.cache.get(key.as_str()) {
            Some(id) => RefPlan::Ready(EntityRef::Entity(id.clone())),
            None => RefPlan::Lookup { name, key },
        }
    }

    /// Plans how a surface form is resolved.
    pub fn plan_ref(&self, surface: &str, is_entity: bool) -> (r: RefPlan)
        ensures
            r@ == planned(
                self.known(),
                trim(surface@),
                lowercase(trim(surface@)),
                is_entity,
            ),
    {
        let name = trim_text(surface);
        let key = to_lowercase(name.as_str());
        self.plan_name(name, key, is_entity)
    }

    /// Takes up an entity that the store knows.
    pub fn entity_found(&mut self, key: String, id: String) -> (r: EntityRef)
        ensures
            r is Entity && r->Entity_0 == id,
            final(self).known() == old(self).known().insert(key@, id),
            final(self).report == old(self).report,
    {
        self.cache.insert(key, id.clone());
        EntityRef::Entity(id)
    }

    /// Makes the entity `id` for a name that the store does not know.
    pub fn entity_created(&mut self, id: String, name: String, key: String, now: i64) -> (r: (
        Entity,
        EntityRef,
    ))
        requires
            old(self).report.entities_created < usize::MAX,
        ensures
            r.0.id == id,
            is_new_entity(r.0, name@, now),
            r.1 is Entity && r.1->Entity_0 == id,
            final(self).known() == old(self).known().insert(key@, id),
            final(self).report == (IngestionReport {
                entities_created: (old(self).report.entities_created + 1) as usize,
                ..old(self).report
            }),
    {
        self.report.entities_created = self.report.entities_created + 1;
        self.cache.insert(key, id.clone());
        (make_entity(id.clone(), name, now), EntityRef::Entity(id))
    }

    /// Makes an entity, under a fresh id, for a name that the store does not
    /// know.
    pub fn create_entity(&mut self, name: String, key: String, now: i64) -> (r: (
        Entity,
        EntityRef,
    ))
        requires
            old(self).report.entities_created < usize::MAX,
        ensures
            is_random_id(r.0.id@),
            is_new_entity(r.0, name@, now),
            r.1 is Entity && r.1->Entity_0 == r.0.id,
            final(self).known() == old(self).known().insert(key@, r.0.id),
            final(self).report == (IngestionReport {
                entities_created: (old(self).report.entities_created + 1) as usize,
                ..old(self).report
            }),
    {
        self.entity_created(fresh_id(), name, key, now)
    }

    /// Counts a claim that was written, and gives the edge to the prior claim
    /// that it relates to. A relation is honoured only where it names a known
    /// edge type and a claim that was shown.
    pub fn claim_written(&mut self, raw: &RawClaim, claim: &Claim, prior: &[Claim], now: i64) -> (r:
        Option<ClaimEdge>)
        requires
            old(self).report.claims_written < usize::MAX,
            old(self).report.edges_added < usize::MAX,
        ensures
            final(self).known() == old(self).known(),
            final(self).report == (IngestionReport {
                claims_written: (old(self).report.claims_written + 1) as usize,
                edges_added: (old(self).report.edges_added + if r is Some {
                    1int
                } else {
                    0
                }) as usize,
                ..old(self).report
            }),
            r is Some == honoured(*raw, prior@) is Some,
            r matches Some(e) ==> {
                &&& e.from_claim@ == claim.id@
                &&& e.to_claim@ == honoured(*raw, prior@)->Some_0.1
                &&& e.edge_type == honoured(*raw, prior@)->Some_0.0
                &&& e.created_at == now
                &&& e.created_by == EdgeOrigin::Ingestion
                &&& e.confidence == claim.confidence
            },
    {
        self.report.claims_written = self.report.claims_written + 1;
        let rel = match &raw.relation {
            Some(rel) => rel,
            None => {
                return None;
            },
        };
        let edge_type = match EdgeType::parse(rel.kind.as_str()) {
            Some(t) => t,
            None => {
                return None;
            },
        };
        let target = trim_text(rel.target.as_str());
        if target.as_str().is_empty() {
            return None;
        }
        let mut shown = false;
        let mut i: usize = 0;
        while i < prior.len()
            invariant
                i <= prior@.len(),
                shown == exists|k: int| 0 <= k < i && #[trigger] claim_ids(prior@)[k] == target@,
            decreases prior@.len() - i,
        {
            assert(claim_ids(prior@)[i as int] == prior@[i as int].id@);
            if same_text(prior[i].id.as_str(), target.as_str()) {
                shown = true;
            }
            i += 1;
        }
        assert(shown == claim_ids(prior@).contains(target@));
        if !shown {
            return None;
        }
        self.report.edges_added = self.report.edges_added + 1;
        Some(
            ClaimEdge {
                from_claim: claim.id.clone(),
                to_claim: target,
                edge_type,
                created_at: now,
                created_by: EdgeOrigin::Ingestion,
                confidence: claim.confidence,
            },
        )
    }
}

/// What becomes of the claim that an edge leads to, and since when.
pub open spec fn fate_of_target(edge: ClaimEdge) -> Option<(ClaimStatus, i64)> {
    match edge.edge_type {
        EdgeType::Supersedes => Some((ClaimStatus::Superseded, edge.created_at)),
        _ => None,
    }
}

/// The change of status that an edge brings to the claim it leads to: a
/// superseded claim is retired, and ends to hold when the edge was made.
pub fn status_change(edge: &ClaimEdge) -> (r: Option<(ClaimStatus, i64)>)
    ensures
        r == if edge.edge_type == EdgeType::Supersedes {
            Some((ClaimStatus::Superseded, edge.created_at))
        } else {
            None
        },
        r == fate_of_target(*edge),
{
    if edge.edge_type == EdgeType::Supersedes {
        Some((ClaimStatus::Superseded, edge.created_at))
    } else {
        None
    }
}

} // verus!
