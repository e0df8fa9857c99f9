//! The claim graph: claims, the entities they are about, and the edges between
//! them.

use vstd::prelude::*;
use crate::fusion::Keyed;
use crate::text::same_text;

verus! {

/// The confidence that stands for certainty; confidences are whole numbers of
/// parts of it.
pub const CONFIDENCE_ONE: i64 = 1_000_000;

/// A subject or object: an entity by its id, or a literal value.
#[derive(Debug)]
pub enum EntityRef {
    Entity(String),
    Literal(String),
}

/// Where a claim comes from.
#[derive(Debug, Clone, Copy, PartialEq, Eq, Structural)]
pub enum SourceKind {
    UserStated,
    AssistantInferred,
    Derived,
}

/// Whether a claim is current.
#[derive(Debug, Clone, Copy, PartialEq, Eq, Structural)]
pub enum ClaimStatus {
    Active,
    Superseded,
    Retracted,
}

/// How one claim bears on another.
#[derive(Debug, Clone, Copy, PartialEq, Eq, Structural)]
pub enum EdgeType {
    Supersedes,
    Refines,
    Contradicts,
    Corroborates,
    RelatesTo,
    Retracts,
}

/// What made an edge.
#[derive(Debug, Clone, Copy, PartialEq, Eq, Structural)]
pub enum EdgeOrigin {
    Ingestion,
    Consolidation,
}

/// An entity that claims are about.
#[derive(Debug)]
pub struct Entity {
    pub id: String,
    pub entity_type: String,
    pub canonical_name: String,
    pub aliases: Vec<String>,
    pub created_at: i64,
    pub updated_at: i64,
}

/// One fact, as it was claimed.
#[derive(Debug)]
pub struct Claim {
    pub id: String,
    pub subject: EntityRef,
    pub predicate: String,
    pub object: EntityRef,
    pub statement: String,
    pub project: Option<String>,
    pub recorded_at: i64,
    pub valid_from: i64,
    pub valid_to: Option<i64>,
    pub source_session_id: Option<String>,
    pub source_message_index: Option<usize>,
    pub source_kind: SourceKind,
    /// Parts of [`CONFIDENCE_ONE`].
    pub confidence: i64,
    pub status: ClaimStatus,
    pub derived: bool,
    pub derived_from: Vec<String>,
}

/// An edge of the claim graph.
#[derive(Debug)]
pub struct ClaimEdge {
    pub from_claim: String,
    pub to_claim: String,
    pub edge_type: EdgeType,
    pub created_at: i64,
    pub created_by: EdgeOrigin,
    /// Parts of [`CONFIDENCE_ONE`].
    pub confidence: i64,
}

/// One message of a session.
#[derive(Debug)]
pub struct SessionMessage {
    pub role: String,
    pub content: String,
}

/// The messages of a finished session.
#[derive(Debug)]
pub struct SessionTranscript {
    pub id: String,
    pub source: String,
    pub project: Option<String>,
    pub messages: Vec<SessionMessage>,
}

impl EntityRef {
    /// A copy of the reference.
    pub fn copied(&self) -> (r: EntityRef)
        ensures
            r == *self,
    {
        match self {
            EntityRef::Entity(s) => EntityRef::Entity(s.clone()),
            EntityRef::Literal(s) => EntityRef::Literal(s.clone()),
        }
    }
}

impl SourceKind {
    /// The kind of that name.
    pub open spec fn named(s: Seq<char>) -> Option<SourceKind> {
        if s == "user_stated"@ {
            Some(SourceKind::UserStated)
        } else if s == "assistant_inferred"@ {
            Some(SourceKind::AssistantInferred)
        } else if s == "derived"@ {
            Some(SourceKind::Derived)
        } else {
            None
        }
    }

    /// The kind of that name.
    pub fn parse(s: &str) -> (r: Option<SourceKind>)
        ensures
            r == SourceKind::named(s@),
    {
        if same_text(s, "user_stated") {
            Some(SourceKind::UserStated)
        } else if same_text(s, "assistant_inferred") {
            Some(SourceKind::AssistantInferred)
        } else if same_text(s, "derived") {
            Some(SourceKind::Derived)
        } else {
            None
        }
    }
}

impl EdgeType {
    /// The edge type of that name.
    pub open spec fn named(s: Seq<char>) -> Option<EdgeType> {
        if s == "supersedes"@ {
            Some(EdgeType::Supersedes)
        } else if s == "refines"@ {
            Some(EdgeType::Refines)
        } else if s == "contradicts"@ {
            Some(EdgeType::Contradicts)
        } else if s == "corroborates"@ {
            Some(EdgeType::Corroborates)
        } else if s == "relates_to"@ {
            Some(EdgeType::RelatesTo)
        } else if s == "retracts"@ {
            Some(EdgeType::Retracts)
        } else {
            None
        }
    }

    /// The edge type of that name.
    pub fn parse(s: &str) -> (r: Option<EdgeType>)
        ensures
            r == EdgeType::named(s@),
    {
        if same_text(s, "supersedes") {
            Some(EdgeType::Supersedes)
        } else if same_text(s, "refines") {
            Some(EdgeType::Refines)
        } else if same_text(s, "contradicts") {
            Some(EdgeType::Contradicts)
        } else if same_text(s, "corroborates") {
            Some(EdgeType::Corroborates)
        } else if same_text(s, "relates_to") {
            Some(EdgeType::RelatesTo)
        } else if same_text(s, "retracts") {
            Some(EdgeType::Retracts)
        } else {
            None
        }
    }

    /// Edges that recall walks along: they lead to claims that enrich.
    pub open spec fn enriches(self) -> bool {
        self == EdgeType::Refines || self == EdgeType::Corroborates || self == EdgeType::RelatesTo
    }
}

impl Keyed for Claim {
    /// Claims are told apart by their ids.
    open spec fn key(self) -> Seq<char> {
        self.id@
    }

    fn key_text(&self) -> (r: &str) {
        self.id.as_str()
    }
}

/// The ids of claims.
pub open spec fn claim_ids(s: Seq<Claim>) -> Seq<Seq<char>> {
    Seq::new(s.len(), |i: int| s[i].id@)
}

/// A confidence brought into the range from nothing to certainty.
pub open spec fn clamped(c: int) -> int {
    if c < 0 {
        0
    } else if c > CONFIDENCE_ONE {
        CONFIDENCE_ONE as int
    } else {
        c
    }
}

/// A confidence brought into the range from nothing to certainty.
pub fn clamp_confidence(c: i64) -> (r: i64)
    ensures
        r == clamped(c as int),
        0 <= r <= CONFIDENCE_ONE,
{
    if c < 0 {
        0
    } else if c > CONFIDENCE_ONE {
        CONFIDENCE_ONE
    } else {
        c
    }
}

} // verus!
