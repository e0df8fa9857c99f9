//! Replies in JSON, as far as the library looks into them.

use vstd::prelude::*;
use crate::text::{opt_text, same_text};

verus! {

/// What a text is as a JSON document, one level deep.
#[derive(Debug)]
pub enum Reply {
    /// No JSON document.
    Invalid,
    /// A string.
    Text(String),
    /// An object: each key with its value where that is a string.
    Object(Vec<(String, Option<String>)>),
    /// A document of another type.
    Other,
}

/// What a reply says.
pub enum ReplyView {
    Invalid,
    Text(Seq<char>),
    Object(Seq<(Seq<char>, Option<Seq<char>>)>),
    Other,
}

/// What fields say.
pub open spec fn field_views(s: Seq<(String, Option<String>)>) -> Seq<
    (Seq<char>, Option<Seq<char>>),
> {
    Seq::new(s.len(), |i: int| (s[i].0@, opt_text(s[i].1)))
}

impl View for Reply {
    type V = ReplyView;

    open spec fn view(&self) -> ReplyView {
        match self {
            Reply::Invalid => ReplyView::Invalid,
            Reply::Text(s) => ReplyView::Text(s@),
            Reply::Object(fields) => ReplyView::Object(field_views(fields@)),
            Reply::Other => ReplyView::Other,
        }
    }
}

/// What `serde_json::from_str` reads in a text.
pub uninterp spec fn json_reply(raw: Seq<char>) -> ReplyView;

/// `serde_json::from_str` into a `serde_json::Value`, of which the type, a
/// string, and the string fields of an object are handed on. The result is a
/// function of the text.
#[verifier::external_body]
pub(crate) fn read_json(raw: &str) -> (r: Reply)
    ensures
        r@ == json_reply(raw@),
{
    match serde_json::from_str::<serde_json::Value>(raw) {
        Err(_) => Reply::Invalid,
        Ok(serde_json::Value::String(s)) => Reply::Text(s),
        Ok(serde_json::Value::Object(m)) => Reply::Object(
            m.into_iter().map(|(k, v)| (k, v.as_str().map(str::to_string))).collect(),
        ),
        Ok(_) => Reply::Other,
    }
}

/// The string that the first field of that name holds.
pub open spec fn text_field(
    fields: Seq<(Seq<char>, Option<Seq<char>>)>,
    name: Seq<char>,
) -> Option<Seq<char>>
    decreases fields.len(),
{
    if fields.len() == 0 {
        None
    } else if fields[0].0 == name {
        fields[0].1
    } else {
        text_field(fields.skip(1), name)
    }
}

/// The string that the field of that name holds.
pub fn find_field<'a>(fields: &'a [(String, Option<String>)], name: &str) -> (r: Option<&'a String>)
    ensures
        r is Some == text_field(field_views(fields@), name@) is Some,
        r matches Some(s) ==> text_field(field_views(fields@), name@) == Some(s@),
{
    let ghost all = field_views(fields@);
    let mut i: usize = 0;
    assert(all.skip(0) =~= all);
    while i < fields.len()
        invariant
            i <= fields@.len(),
            all == field_views(fields@),
            text_field(all, name@) == text_field(all.skip(i as int), name@),
        decreases fields@.len() - i,
    {
        proof {
            assert(all.skip(i as int)[0] == all[i as int]);
            assert(all.skip(i as int).skip(1) =~= all.skip(i + 1));
        }
        if same_text(fields[i].0.as_str(), name) {
            return match &fields[i].1 {
                Some(s) => Some(s),
                None => None,
            };
        }
        i += 1;
    }
    None
}

} // verus!
