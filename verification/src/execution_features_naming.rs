//! Short, readable names for the symbols that features start at.

use vstd::prelude::*;
use vstd::slice::slice_subrange;
use vstd::string::*;
use crate::text::{
    begins, char_at, chars_of, find_char, last_at, last_char_at, rfind_char, rfind_text, same_chars,
    starts_with, string_of, trim, trimmed,
};

verus! {

/// What stands behind the last `c`, or all of the text.
pub open spec fn after_last(s: Seq<char>, c: char) -> Seq<char> {
    s.skip(rfind_char(s, c) + 1)
}

/// What stands behind the last `::`, or all of the text.
pub open spec fn after_colons(s: Seq<char>) -> Seq<char> {
    if rfind_text(s, "::"@) >= 0 {
        s.skip(rfind_text(s, "::"@) + "::"@.len())
    } else {
        s
    }
}

/// The last segment of a qualified identifier.
pub open spec fn leaf_text(s: Seq<char>) -> Seq<char> {
    after_last(after_colons(after_last(s, '/')), '.')
}

/// What stands before the first `c`, or all of the text.
pub open spec fn before_first(s: Seq<char>, c: char) -> Seq<char> {
    if find_char(s, c) >= 0 {
        s.take(find_char(s, c))
    } else {
        s
    }
}

/// The member without the mark of an accessor.
pub open spec fn without_accessor(s: Seq<char>) -> Seq<char> {
    if starts_with(s, "<get>"@) {
        s.skip("<get>"@.len() as int)
    } else if starts_with(s, "<set>"@) {
        s.skip("<set>"@.len() as int)
    } else {
        s
    }
}

/// The name of a member, without accessor mark, call parentheses and generic
/// parameters. A constructor has none.
pub open spec fn member_text(member: Seq<char>) -> Option<Seq<char>> {
    let m = trim(member);
    let name = trim(before_first(before_first(without_accessor(m), '('), '<'));
    if m == "<constructor>"@ || name.len() == 0 {
        None
    } else {
        Some(name)
    }
}

/// The readable name of a symbol: `Class.member` for a member, the class for
/// its constructor, and the last segment for anything else.
pub open spec fn feature_name(fqn: Seq<char>) -> Seq<char> {
    let s = trim(after_last(fqn, ' '));
    let hash = rfind_char(s, '#');
    if hash >= 0 {
        let class = leaf_text(s.take(hash));
        match member_text(s.skip(hash + 1)) {
            Some(m) => class + "."@ + m,
            None => class,
        }
    } else {
        match member_text(leaf_text(s)) {
            Some(m) => m,
            None => leaf_text(s),
        }
    }
}

fn behind_last(s: &[char], c: char) -> (r: &[char])
    ensures
        r@ == after_last(s@, c),
{
    let n: usize = s.len();
    let from: usize = match last_char_at(s, c) {
        Some(i) => i + 1,
        None => 0,
    };
    assert(s@.subrange(from as int, n as int) =~= s@.skip(from as int));
    slice_subrange(s, from, n)
}

/// The last segment of a qualified identifier.
pub fn leaf(s: &[char]) -> (r: &[char])
    ensures
        r@ == leaf_text(s@),
{
    let a = behind_last(s, '/');
    let colons = chars_of("::");
    let n: usize = a.len();
    let from: usize = match last_at(a, &colons) {
        Some(i) => i + colons.len(),
        None => 0,
    };
    let b = slice_subrange(a, from, n);
    proof {
        assert(a@.skip(0) =~= a@);
        assert(b@ =~= a@.skip(from as int));
        assert(b@ == after_colons(a@));
    }
    behind_last(b, '.')
}

fn ahead_of(s: &[char], c: char) -> (r: &[char])
    ensures
        r@ == before_first(s@, c),
{
    match char_at(s, c, 0) {
        Some(i) => {
            assert(s@.subrange(0, i as int) =~= s@.take(i as int));
            slice_subrange(s, 0, i)
        },
        None => s,
    }
}

/// The name of a member; a constructor has none.
pub fn member_name(member: &[char]) -> (r: Option<&[char]>)
    ensures
        match r {
            Some(v) => member_text(member@) == Some(v@),
            None => member_text(member@) is None,
        },
{
    let m = trimmed(member);
    let constructor = chars_of("<constructor>");
    if same_chars(m, &constructor) {
        return None;
    }
    let getter = chars_of("<get>");
    let setter = chars_of("<set>");
    let n: usize = m.len();
    let from: usize = if begins(m, &getter) {
        getter.len()
    } else if begins(m, &setter) {
        setter.len()
    } else {
        0
    };
    let plain = slice_subrange(m, from, n);
    proof {
        assert(m@.skip(0) =~= m@);
        assert(plain@ =~= m@.skip(from as int));
        assert(plain@ == without_accessor(m@));
    }
    let name = trimmed(ahead_of(ahead_of(plain, '('), '<'));
    if name.len() == 0 {
        None
    } else {
        Some(name)
    }
}

/// The readable name of a fully qualified symbol.
pub fn short_name(fqn: &str) -> (r: String)
    ensures
        r@ == feature_name(fqn@),
{
    let cs = chars_of(fqn);
    let s = trimmed(behind_last(&cs, ' '));
    let n: usize = s.len();
    match last_char_at(s, '#') {
        Some(hash) => {
            let before = slice_subrange(s, 0, hash);
            let behind = slice_subrange(s, hash + 1, n);
            proof {
                assert(before@ =~= s@.take(hash as int));
                assert(behind@ =~= s@.skip(hash + 1));
            }
            let mut r = string_of(leaf(before));
            if let Some(m) = member_name(behind) {
                r.append(".");
                r.append(string_of(m).as_str());
            }
            r
        },
        None => {
            let last = leaf(s);
            match member_name(last) {
                Some(m) => string_of(m),
                None => string_of(last),
            }
        },
    }
}

} // verus!
