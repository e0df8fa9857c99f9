//! Symbol names: their short form, the class they hint at, and the search
//! pattern that tolerates lost separators.

use vstd::prelude::*;
use vstd::string::*;
use crate::text::{
    chars_of, ends_with, finishes, last_at, last_char_at, opt_str, rfind_char, rfind_text,
    string_of,
};
use crate::unicode::{is_lowercase, is_uppercase, lowercase_char, uppercase_char};

verus! {

/// The symbol without the call suffix `()` or `().`.
pub open spec fn without_call(s: Seq<char>) -> Seq<char> {
    if ends_with(s, "()."@) {
        s.take(s.len() - "()."@.len())
    } else if ends_with(s, "()"@) {
        s.take(s.len() - "()"@.len())
    } else {
        s
    }
}

/// Where the last segment of a class path begins: behind the last `\`, else
/// `::`, else `.`, else `/`, else at the start.
pub open spec fn class_start(s: Seq<char>) -> int {
    if rfind_char(s, '\\') >= 0 {
        rfind_char(s, '\\') + 1
    } else if rfind_text(s, "::"@) >= 0 {
        rfind_text(s, "::"@) + 2
    } else if rfind_char(s, '.') >= 0 {
        rfind_char(s, '.') + 1
    } else if rfind_char(s, '/') >= 0 {
        rfind_char(s, '/') + 1
    } else {
        0
    }
}

/// The last segment of a class path, unless it is empty.
pub open spec fn class_hint(s: Seq<char>) -> Option<Seq<char>> {
    if class_start(s) >= s.len() {
        None
    } else {
        Some(s.skip(class_start(s)))
    }
}

/// The short name of a symbol and the class it hints at. The separators are
/// `#`, `\`, `::`, `.` and `/`, in this precedence.
pub open spec fn fqn_parts(symbol: Seq<char>) -> (Seq<char>, Option<Seq<char>>) {
    let s = without_call(symbol);
    let hash = rfind_char(s, '#');
    let back = rfind_char(s, '\\');
    let colons = rfind_text(s, "::"@);
    let dot = rfind_char(s, '.');
    let slash = rfind_char(s, '/');
    if hash >= 0 {
        (s.skip(hash + 1), class_hint(s.take(hash)))
    } else if back >= 0 {
        (s.skip(back + 1), None)
    } else if colons >= 0 {
        (s.skip(colons + 2), class_hint(s.take(colons)))
    } else if dot >= 0 {
        (s.skip(dot + 1), class_hint(s.take(dot)))
    } else if slash >= 0 {
        (s.skip(slash + 1), class_hint(s.take(slash)))
    } else {
        (s, None)
    }
}

/// The short name of a symbol.
pub open spec fn short_name(symbol: Seq<char>) -> Seq<char> {
    fqn_parts(symbol).0
}

/// The last segment of a class path, unless it is empty.
pub fn extract_class_hint(class_part: &str) -> (r: Option<&str>)
    ensures
        opt_str(r) == class_hint(class_part@),
{
    let s = chars_of(class_part);
    let len: usize = s.len();
    let colons = chars_of("::");
    proof {
        reveal_strlit("::");
    }
    let start: usize = if let Some(p) = last_char_at(&s, '\\') {
        p + 1
    } else if let Some(p) = last_at(&s, &colons) {
        p + 2
    } else if let Some(p) = last_char_at(&s, '.') {
        p + 1
    } else if let Some(p) = last_char_at(&s, '/') {
        p + 1
    } else {
        0
    };
    if start >= len {
        None
    } else {
        assert(s@.subrange(start as int, s@.len() as int) =~= s@.skip(start as int));
        Some(class_part.substring_char(start, len))
    }
}

/// `s` from the character `at + width` on, and the hint of what stands before
/// `at`.
fn cut_at(s: &str, len: usize, at: usize, width: usize) -> (r: (&str, Option<&str>))
    requires
        len == s@.len(),
        at + width <= len,
    ensures
        r.0@ == s@.skip(at + width),
        opt_str(r.1) == class_hint(s@.take(at as int)),
{
    let class_part = s.substring_char(0, at);
    proof {
        assert(s@.subrange(at + width, len as int) =~= s@.skip(at + width));
        assert(s@.subrange(0, at as int) =~= s@.take(at as int));
    }
    (s.substring_char(at + width, len), extract_class_hint(class_part))
}

/// The symbol without the call suffix `()` or `().`.
fn strip_call(symbol: &str) -> (r: &str)
    ensures
        r@ == without_call(symbol@),
{
    let s = chars_of(symbol);
    let dotted = chars_of("().");
    let plain = chars_of("()");
    if finishes(&s, &dotted) {
        let end: usize = s.len() - dotted.len();
        assert(symbol@.subrange(0, end as int) =~= symbol@.take(end as int));
        symbol.substring_char(0, end)
    } else if finishes(&s, &plain) {
        let end: usize = s.len() - plain.len();
        assert(symbol@.subrange(0, end as int) =~= symbol@.take(end as int));
        symbol.substring_char(0, end)
    } else {
        symbol
    }
}

/// Splits a fully qualified symbol into its short name and a class or file
/// hint that tells it from others of that name.
pub fn parse_fqn(symbol: &str) -> (r: (&str, Option<&str>))
    ensures
        r.0@ == fqn_parts(symbol@).0,
        opt_str(r.1) == fqn_parts(symbol@).1,
{
    let symbol = strip_call(symbol);
    let s = chars_of(symbol);
    let colons = chars_of("::");
    proof {
        reveal_strlit("::");
    }
    if let Some(p) = last_char_at(&s, '#') {
        return cut_at(symbol, s.len(), p, 1);
    }
    if let Some(p) = last_char_at(&s, '\\') {
        let short = cut_at(symbol, s.len(), p, 1).0;
        return (short, None);
    }
    if let Some(p) = last_at(&s, &colons) {
        return cut_at(symbol, s.len(), p, 2);
    }
    if let Some(p) = last_char_at(&s, '.') {
        return cut_at(symbol, s.len(), p, 1);
    }
    if let Some(p) = last_char_at(&s, '/') {
        return cut_at(symbol, s.len(), p, 1);
    }
    (symbol, None)
}

/// The short, unqualified name of a symbol.
pub fn short_symbol_name(symbol: &str) -> (r: &str)
    ensures
        r@ == short_name(symbol@),
{
    parse_fqn(symbol).0
}

/// The class or file that a symbol hints at.
pub fn class_hint_from_symbol(symbol: &str) -> (r: Option<&str>)
    ensures
        opt_str(r) == fqn_parts(symbol@).1,
{
    parse_fqn(symbol).1
}

/// The class that matches any run of separators.
pub const ANY_SEPARATORS: &'static str = "[/\\\\#.:]*";

/// A character that separates the parts of a name.
pub open spec fn is_separator(c: char) -> bool {
    c == '\\' || c == '/' || c == '#' || c == '.' || c == ':'
}

/// A character with a meaning of its own in a pattern.
pub open spec fn is_meta(c: char) -> bool {
    c == '+' || c == '*' || c == '?' || c == '(' || c == ')' || c == '[' || c == ']' || c == '{'
        || c == '}' || c == '^' || c == '$' || c == '|'
}

/// `out` with the separator class behind it, unless it stands there already.
pub open spec fn with_separators(out: Seq<char>) -> Seq<char> {
    if ends_with(out, ANY_SEPARATORS@) {
        out
    } else {
        out + ANY_SEPARATORS@
    }
}

/// What the character `c`, behind `prev` where there is one, adds to `out`.
pub open spec fn fuzzy_step(out: Seq<char>, prev: Option<char>, c: char) -> Seq<char> {
    if is_separator(c) {
        with_separators(out)
    } else if is_meta(c) {
        out.push('\\').push(c)
    } else if uppercase_char(c) && prev is Some && lowercase_char(prev->0) {
        with_separators(out).push(c)
    } else {
        out.push(c)
    }
}

/// The pattern that matches `s` with its separators kept, changed or lost:
/// each separator becomes the separator class, and the class also stands where
/// a small letter meets a capital; characters with a meaning in patterns are
/// escaped.
pub open spec fn fuzzy_pattern(s: Seq<char>) -> Seq<char>
    decreases s.len(),
{
    if s.len() == 0 {
        Seq::empty()
    } else {
        let d = s.drop_last();
        fuzzy_step(
            fuzzy_pattern(d),
            if d.len() > 0 {
                Some(d.last())
            } else {
                None
            },
            s.last(),
        )
    }
}

/// Appends the separator class, unless it stands at the end already.
fn push_separators(out: &mut Vec<char>)
    ensures
        final(out)@ == with_separators(old(out)@),
{
    let sep = chars_of(ANY_SEPARATORS);
    if !finishes(out, &sep) {
        let mut i: usize = 0;
        let ghost before = out@;
        assert(before + sep@.take(0) =~= before);
        while i < sep.len()
            invariant
                i <= sep@.len(),
                out@ == before + sep@.take(i as int),
            decreases sep@.len() - i,
        {
            assert(before + sep@.take(i + 1) =~= (before + sep@.take(i as int)).push(
                sep@[i as int],
            ));
            out.push(sep[i]);
            i += 1;
        }
        assert(sep@.take(i as int) =~= sep@);
    }
}

/// A character that separates the parts of a name.
fn separator(c: char) -> (r: bool)
    ensures
        r == is_separator(c),
{
    c == '\\' || c == '/' || c == '#' || c == '.' || c == ':'
}

/// A character with a meaning of its own in a pattern.
fn meta(c: char) -> (r: bool)
    ensures
        r == is_meta(c),
{
    c == '+' || c == '*' || c == '?' || c == '(' || c == ')' || c == '[' || c == ']' || c == '{'
        || c == '}' || c == '^' || c == '$' || c == '|'
}

/// Builds the pattern that finds a symbol whether or not the shell stripped
/// its separators.
pub fn build_fuzzy_pattern(s: &str) -> (r: String)
    ensures
        r@ == fuzzy_pattern(s@),
{
    let cs = chars_of(s);
    let mut out: Vec<char> = Vec::new();
    let mut i: usize = 0;
    while i < cs.len()
        invariant
            i <= cs@.len(),
            cs@ == s@,
            out@ == fuzzy_pattern(s@.take(i as int)),
        decreases cs@.len() - i,
    {
        let c = cs[i];
        proof {
            assert(s@.take(i + 1).drop_last() =~= s@.take(i as int));
            assert(s@.take(i + 1).last() == c);
            if i > 0 {
                assert(s@.take(i as int).last() == s@[i - 1]);
            }
        }
        if separator(c) {
            push_separators(&mut out);
        } else if meta(c) {
            out.push('\\');
            out.push(c);
        } else if is_uppercase(c) && i > 0 && is_lowercase(cs[i - 1]) {
            push_separators(&mut out);
            out.push(c);
        } else {
            out.push(c);
        }
        i += 1;
    }
    assert(s@.take(i as int) =~= s@);
    string_of(&out)
}

} // verus!
