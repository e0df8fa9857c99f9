//! The chunk to show for a place in the code.

use vstd::prelude::*;
use crate::domain::CodeChunk;
use crate::graph_expansion::span;
use crate::patterns::{fqn_parts, parse_fqn};
use crate::text::opt_str;

verus! {

/// The chunk holds the line.
pub open spec fn holds_line(c: CodeChunk, line: u32) -> bool {
    c.start_line <= line && c.end_line >= line
}

/// The place of the first of the tightest chunks that hold the line, or -1.
pub open spec fn tightest(chunks: Seq<CodeChunk>, line: u32) -> int
    decreases chunks.len(),
{
    if chunks.len() == 0 {
        -1
    } else {
        let d = chunks.drop_last();
        let b = tightest(d, line);
        if holds_line(chunks.last(), line) && (b < 0 || span(chunks.last()) < span(d[b])) {
            chunks.len() - 1
        } else {
            b
        }
    }
}

/// The tightest chunk holds the line, none that holds it is tighter, and none
/// before it is as tight.
pub proof fn lemma_tightest(chunks: Seq<CodeChunk>, line: u32)
    ensures
        ({
            let b = tightest(chunks, line);
            &&& -1 <= b < chunks.len()
            &&& b == -1 ==> forall|i: int|
                0 <= i < chunks.len() ==> !holds_line(#[trigger] chunks[i], line)
            &&& b >= 0 ==> holds_line(chunks[b], line)
            &&& b >= 0 ==> forall|i: int|
                0 <= i < chunks.len() && holds_line(#[trigger] chunks[i], line) ==> span(chunks[b])
                    <= span(chunks[i]) && (i < b ==> span(chunks[b]) < span(chunks[i]))
        }),
    decreases chunks.len(),
{
    if chunks.len() > 0 {
        let d = chunks.drop_last();
        lemma_tightest(d, line);
        assert forall|i: int| 0 <= i < d.len() implies d[i] == #[trigger] chunks[i] by {}
    }
}

/// The tightest chunk of a file that holds the line.
pub fn get_snippet(chunks: &[CodeChunk], line: u32) -> (r: Option<CodeChunk>)
    ensures
        r is Some == (tightest(chunks@, line) >= 0),
        r matches Some(c) ==> c == chunks@[tightest(chunks@, line)],
{
    let mut best: Option<usize> = None;
    let mut i: usize = 0;
    while i < chunks.len()
        invariant
            i <= chunks@.len(),
            best matches Some(b) ==> b < i && b == tightest(chunks@.take(i as int), line),
            best is None ==> tightest(chunks@.take(i as int), line) < 0,
        decreases chunks@.len() - i,
    {
        let c = &chunks[i];
        proof {
            assert(chunks@.take(i + 1).drop_last() =~= chunks@.take(i as int));
            assert(chunks@.take(i + 1).last() == chunks@[i as int]);
        }
        if c.start_line <= line && c.end_line >= line {
            match best {
                Some(b) => {
                    let d = &chunks[b];
                    let lines: u32 = c.end_line - c.start_line;
                    let least: u32 = if d.end_line >= d.start_line {
                        d.end_line - d.start_line
                    } else {
                        0
                    };
                    assert(chunks@.take(i as int)[b as int] == chunks@[b as int]);
                    if lines < least {
                        best = Some(i);
                    }
                },
                None => {
                    best = Some(i);
                },
            }
        }
        i += 1;
    }
    assert(chunks@.take(i as int) =~= chunks@);
    match best {
        Some(b) => Some(chunks[b].copied()),
        None => None,
    }
}

/// What the definition of a symbol is looked up by: its short name and the
/// class that it hints at. A symbol without a short name has none.
pub fn symbol_lookup(symbol: &str) -> (r: Option<(&str, Option<&str>)>)
    ensures
        r is Some == (fqn_parts(symbol@).0.len() > 0),
        r matches Some(p) ==> p.0@ == fqn_parts(symbol@).0 && opt_str(p.1) == fqn_parts(
            symbol@,
        ).1,
{
    let parts = parse_fqn(symbol);
    if parts.0.is_empty() {
        None
    } else {
        Some(parts)
    }
}

} // verus!
