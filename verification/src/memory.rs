//! The memory store: items, the operations on them, and the nodes of its
//! virtual filesystem.

use vstd::prelude::*;
use vstd::string::*;
use crate::ids::{fresh_id, is_random_id};
use crate::text::{
    chars_of, copy_opt, opt_str, opt_text, replace_char, same_text, string_of, with_replaced,
};

verus! {

/// What a memory is about.
#[derive(Debug, Clone, Copy, PartialEq, Eq, Structural)]
pub enum MemoryKind {
    Preference,
    Experience,
    Skill,
    Fact,
}

/// A remembered item.
#[derive(Debug)]
pub struct MemoryItem {
    pub id: String,
    pub kind: MemoryKind,
    pub name: String,
    pub content: String,
    pub source_session_id: Option<String>,
    /// The project that the item is specific to, or `None` for all.
    pub scope: Option<String>,
    pub created_at: i64,
    pub updated_at: i64,
    pub update_count: u32,
}

/// A change to the store.
#[derive(Debug, PartialEq)]
pub enum MemoryOperation {
    Upsert { kind: MemoryKind, name: String, content: String, scope: Option<String> },
    Delete { kind: MemoryKind, name: String },
}

/// What an operation says.
pub enum OperationView {
    Upsert {
        kind: MemoryKind,
        name: Seq<char>,
        content: Seq<char>,
        scope: Option<Seq<char>>,
    },
    Delete { kind: MemoryKind, name: Seq<char> },
}

impl View for MemoryOperation {
    type V = OperationView;

    open spec fn view(&self) -> OperationView {
        match self {
            MemoryOperation::Upsert { kind, name, content, scope } => OperationView::Upsert {
                kind: *kind,
                name: name@,
                content: content@,
                scope: opt_text(*scope),
            },
            MemoryOperation::Delete { kind, name } => OperationView::Delete {
                kind: *kind,
                name: name@,
            },
        }
    }
}

/// What operations say.
pub open spec fn operation_views(s: Seq<MemoryOperation>) -> Seq<OperationView> {
    Seq::new(s.len(), |i: int| s[i]@)
}

impl MemoryKind {
    /// The name of the kind.
    pub open spec fn text(self) -> Seq<char> {
        match self {
            MemoryKind::Preference => "preference"@,
            MemoryKind::Experience => "experience"@,
            MemoryKind::Skill => "skill"@,
            MemoryKind::Fact => "fact"@,
        }
    }

    /// The kind of that name.
    pub open spec fn named(s: Seq<char>) -> Option<MemoryKind> {
        if s == "preference"@ {
            Some(MemoryKind::Preference)
        } else if s == "experience"@ {
            Some(MemoryKind::Experience)
        } else if s == "skill"@ {
            Some(MemoryKind::Skill)
        } else if s == "fact"@ {
            Some(MemoryKind::Fact)
        } else {
            None
        }
    }

    /// The name of the kind.
    pub fn as_str(&self) -> (r: &'static str)
        ensures
            r@ == self.text(),
    {
        match self {
            MemoryKind::Preference => "preference",
            MemoryKind::Experience => "experience",
            MemoryKind::Skill => "skill",
            MemoryKind::Fact => "fact",
        }
    }

    /// The kind of that name.
    pub fn parse(s: &str) -> (r: Option<MemoryKind>)
        ensures
            r == MemoryKind::named(s@),
    {
        if same_text(s, "preference") {
            Some(MemoryKind::Preference)
        } else if same_text(s, "experience") {
            Some(MemoryKind::Experience)
        } else if same_text(s, "skill") {
            Some(MemoryKind::Skill)
        } else if same_text(s, "fact") {
            Some(MemoryKind::Fact)
        } else {
            None
        }
    }

    /// A kind is found again by its name.
    pub proof fn lemma_named(self)
        ensures
            MemoryKind::named(self.text()) == Some(self),
    {
        reveal_strlit("preference");
        reveal_strlit("experience");
        reveal_strlit("skill");
        reveal_strlit("fact");
        assert("preference"@[0] == 'p' && "experience"@[0] == 'e' && "skill"@[0] == 's'
            && "fact"@[0] == 'f');
    }
}

impl MemoryItem {
    pub fn new(
        id: String,
        kind: MemoryKind,
        name: String,
        content: String,
        source_session_id: Option<String>,
        scope: Option<String>,
        created_at: i64,
        updated_at: i64,
        update_count: u32,
    ) -> (r: MemoryItem)
        ensures
            r == (MemoryItem {
                id,
                kind,
                name,
                content,
                source_session_id,
                scope,
                created_at,
                updated_at,
                update_count,
            }),
    {
        MemoryItem {
            id,
            kind,
            name,
            content,
            source_session_id,
            scope,
            created_at,
            updated_at,
            update_count,
        }
    }

    /// The text that the item is embedded by: its name in words, and its
    /// content.
    pub fn embedding_text(&self) -> (r: String)
        ensures
            r@ == replace_char(self.name@, '_', ' ') + "\n\n"@ + self.content@,
    {
        let name = chars_of(self.name.as_str());
        let mut r = string_of(&with_replaced(&name, '_', ' '));
        r.append("\n\n");
        r.append(self.content.as_str());
        r
    }
}

/// The item is what a write leaves: the text that was written, under the
/// identity and with the history of the item that was there before.
pub open spec fn is_written(
    r: MemoryItem,
    existing: Option<MemoryItem>,
    kind: MemoryKind,
    name: Seq<char>,
    content: Seq<char>,
    scope: Option<Seq<char>>,
    source: Option<Seq<char>>,
    now: i64,
) -> bool {
    &&& r.kind == kind
    &&& r.name@ == name
    &&& r.content@ == content
    &&& opt_text(r.scope) == scope
    &&& r.updated_at == now
    &&& match existing {
        Some(prev) => {
            &&& r.id@ == prev.id@
            &&& r.created_at == prev.created_at
            &&& r.update_count == prev.update_count + 1
            &&& opt_text(r.source_session_id) == if source is Some {
                source
            } else {
                opt_text(prev.source_session_id)
            }
        },
        None => {
            &&& r.created_at == now
            &&& r.update_count == 0
            &&& opt_text(r.source_session_id) == source
        },
    }
}

/// The item that a write leaves; `id` is taken where there was none before.
pub fn written_item(
    existing: Option<MemoryItem>,
    id: String,
    kind: MemoryKind,
    name: &str,
    content: &str,
    scope: Option<String>,
    source_override: Option<&str>,
    now: i64,
) -> (r: MemoryItem)
    requires
        existing matches Some(prev) ==> prev.update_count < u32::MAX,
    ensures
        is_written(
            r,
            existing,
            kind,
            name@,
            content@,
            opt_text(scope),
            opt_str(source_override),
            now,
        ),
        existing is None ==> r.id == id,
{
    let source = match source_override {
        Some(s) => Some(s.to_string()),
        None => match &existing {
            Some(prev) => copy_opt(&prev.source_session_id),
            None => None,
        },
    };
    match existing {
        Some(prev) => MemoryItem {
            id: prev.id,
            kind,
            name: name.to_string(),
            content: content.to_string(),
            source_session_id: source,
            scope,
            created_at: prev.created_at,
            updated_at: now,
            update_count: prev.update_count + 1,
        },
        None => MemoryItem {
            id,
            kind,
            name: name.to_string(),
            content: content.to_string(),
            source_session_id: source,
            scope,
            created_at: now,
            updated_at: now,
            update_count: 0,
        },
    }
}

/// The item that a write leaves: the identity of the item that was there
/// before is kept, and a new item gets a fresh one.
pub fn upsert_preserving_identity(
    existing: Option<MemoryItem>,
    kind: MemoryKind,
    name: &str,
    content: &str,
    scope: Option<String>,
    source_override: Option<&str>,
    now: i64,
) -> (r: MemoryItem)
    requires
        existing matches Some(prev) ==> prev.update_count < u32::MAX,
    ensures
        is_written(
            r,
            existing,
            kind,
            name@,
            content@,
            opt_text(scope),
            opt_str(source_override),
            now,
        ),
        existing is None ==> is_random_id(r.id@),
{
    written_item(existing, fresh_id(), kind, name, content, scope, source_override, now)
}

} // verus!
