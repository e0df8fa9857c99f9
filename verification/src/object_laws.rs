//! Which texts are objects, by how they are put together, and that they are
//! found whole.

use vstd::prelude::*;
use crate::memory_extraction::{Scan, at_start, first_object, object_end, scanned};
use crate::text::{find_char, lacks, lemma_find_char_from};

verus! {

/// A piece of an object: a character that opens and closes nothing, a string, or
/// an object of its own.
pub enum Piece {
    Plain(char),
    Quoted(Seq<char>),
    Nested(Seq<Piece>),
}

/// What can stand between the quotes of a string: a backslash takes the next
/// character with it, and no other quote occurs.
pub open spec fn is_string_body(s: Seq<char>) -> bool
    decreases s.len(),
{
    if s.len() == 0 {
        true
    } else if s[0] == '\\' {
        s.len() >= 2 && is_string_body(s.skip(2))
    } else {
        s[0] != '"' && is_string_body(s.skip(1))
    }
}

/// The piece is rightly formed.
pub open spec fn is_piece(p: Piece) -> bool
    decreases p,
{
    match p {
        Piece::Plain(c) => c != '"' && c != '{' && c != '}',
        Piece::Quoted(s) => is_string_body(s),
        Piece::Nested(ps) => forall|i: int| 0 <= i < ps.len() ==> is_piece(#[trigger] ps[i]),
    }
}

/// The text of a piece.
pub open spec fn piece_text(p: Piece) -> Seq<char>
    decreases p, 1nat, 0nat,
{
    match p {
        Piece::Plain(c) => seq![c],
        Piece::Quoted(s) => seq!['"'] + s + seq!['"'],
        Piece::Nested(ps) => seq!['{'] + pieces_text(p, ps.len()) + seq!['}'],
    }
}

/// The text of the first `n` pieces of a nested one.
pub open spec fn pieces_text(p: Piece, n: nat) -> Seq<char>
    decreases p, 0nat, n,
    when p is Nested && n <= p->Nested_0.len()
{
    if n == 0 {
        Seq::empty()
    } else {
        pieces_text(p, (n - 1) as nat) + piece_text(p->Nested_0[n - 1])
    }
}

/// The text of an object with the given pieces.
pub open spec fn object_text(ps: Seq<Piece>) -> Seq<char> {
    piece_text(Piece::Nested(ps))
}

spec fn outside(depth: usize) -> Scan {
    Scan { depth, in_string: false, escaped: false }
}

spec fn inside(depth: usize) -> Scan {
    Scan { depth, in_string: true, escaped: false }
}

/// The part stands in the text at `i`.
spec fn stands(t: Seq<char>, i: int, part: Seq<char>) -> bool {
    0 <= i && i + part.len() <= t.len() && t.subrange(i, i + part.len()) == part
}

proof fn lemma_stands_parts(t: Seq<char>, i: int, a: Seq<char>, b: Seq<char>)
    requires
        stands(t, i, a + b),
    ensures
        stands(t, i, a),
        stands(t, i + a.len(), b),
{
    let s = a + b;
    assert(t.subrange(i, i + a.len()) =~= a) by {
        assert forall|k: int| 0 <= k < a.len() implies t[i + k] == a[k] by {
            assert(t.subrange(i, i + s.len())[k] == s[k]);
        }
    }
    let j = i + a.len();
    assert(t.subrange(j, j + b.len()) =~= b) by {
        assert forall|k: int| 0 <= k < b.len() implies t[j + k] == b[k] by {
            assert(t.subrange(i, i + s.len())[a.len() + k] == s[a.len() + k]);
        }
    }
}

proof fn lemma_string_passed(t: Seq<char>, i: int, body: Seq<char>, depth: usize)
    requires
        is_string_body(body),
        stands(t, i, body + seq!['"']),
    ensures
        object_end(t, i, inside(depth)) == object_end(
            t,
            i + body.len() + 1,
            outside(depth),
        ),
    decreases body.len(),
{
    let q = seq!['"'];
    let s = body + q;
    assert(t[i] == s[0]) by {
        assert(t.subrange(i, i + s.len())[0] == s[0]);
    }
    if body.len() == 0 {
        assert(s[0] == '"');
    } else if body[0] == '\\' {
        let rest = body.skip(2);
        assert(s[0] == '\\');
        assert(s =~= body.take(2) + (rest + q));
        lemma_stands_parts(t, i, body.take(2), rest + q);
        lemma_string_passed(t, i + 2, rest, depth);
        let escaped = Scan { depth, in_string: true, escaped: true };
        assert(scanned(inside(depth), t[i]) == escaped);
        assert(scanned(escaped, t[i + 1]) == inside(depth));
        assert(object_end(t, i, inside(depth)) == object_end(t, i + 1, escaped));
        assert(object_end(t, i + 1, escaped) == object_end(t, i + 2, inside(depth)));
    } else {
        let rest = body.skip(1);
        assert(s[0] == body[0]);
        assert(s =~= body.take(1) + (rest + q));
        lemma_stands_parts(t, i, body.take(1), rest + q);
        lemma_string_passed(t, i + 1, rest, depth);
        assert(scanned(inside(depth), t[i]) == inside(depth));
    }
}

proof fn lemma_piece_passed(t: Seq<char>, i: int, p: Piece, depth: usize)
    requires
        is_piece(p),
        stands(t, i, piece_text(p)),
        1 <= depth,
        depth + piece_text(p).len() <= usize::MAX,
    ensures
        object_end(t, i, outside(depth)) == object_end(
            t,
            i + piece_text(p).len(),
            outside(depth),
        ),
    decreases p, 1nat, 0nat,
{
    let s = piece_text(p);
    match p {
        Piece::Plain(c) => {
            assert(t[i] == c) by {
                assert(t.subrange(i, i + 1)[0] == s[0]);
            }
        },
        Piece::Quoted(body) => {
            assert(s =~= seq!['"'] + (body + seq!['"']));
            lemma_stands_parts(t, i, seq!['"'], body + seq!['"']);
            assert(t[i] == '"') by {
                assert(t.subrange(i, i + 1)[0] == seq!['"'][0]);
            }
            lemma_string_passed(t, i + 1, body, depth);
        },
        Piece::Nested(ps) => {
            let inner = pieces_text(p, ps.len());
            let deeper = (depth + 1) as usize;
            assert(s =~= seq!['{'] + (inner + seq!['}']));
            lemma_stands_parts(t, i, seq!['{'], inner + seq!['}']);
            lemma_stands_parts(t, i + 1, inner, seq!['}']);
            assert(t[i] == '{') by {
                assert(t.subrange(i, i + 1)[0] == seq!['{'][0]);
            }
            let j = i + 1 + inner.len();
            assert(t[j] == '}') by {
                assert(t.subrange(j, j + 1)[0] == seq!['}'][0]);
            }
            lemma_pieces_passed(t, i + 1, p, ps.len(), deeper);
            assert(scanned(outside(depth), '{') == outside(deeper));
            assert(scanned(outside(deeper), '}') == outside(depth));
            assert(object_end(t, i, outside(depth)) == object_end(t, i + 1, outside(deeper)));
        },
    }
}

proof fn lemma_pieces_passed(t: Seq<char>, i: int, p: Piece, n: nat, depth: usize)
    requires
        p is Nested,
        is_piece(p),
        n <= p->Nested_0.len(),
        stands(t, i, pieces_text(p, n)),
        1 <= depth,
        depth + pieces_text(p, n).len() <= usize::MAX,
    ensures
        object_end(t, i, outside(depth)) == object_end(
            t,
            i + pieces_text(p, n).len(),
            outside(depth),
        ),
    decreases p, 0nat, n,
{
    if n > 0 {
        let a = pieces_text(p, (n - 1) as nat);
        let last = p->Nested_0[n - 1];
        lemma_stands_parts(t, i, a, piece_text(last));
        lemma_pieces_passed(t, i, p, (n - 1) as nat, depth);
        lemma_piece_passed(t, i + a.len(), last, depth);
    }
}

/// An object that is put together of pieces is given back whole, whatever text
/// without an opening brace stands in front of it and whatever text behind:
/// braces and quotes within its strings are no part of its form.
pub proof fn lemma_object_is_found(front: Seq<char>, ps: Seq<Piece>, back: Seq<char>)
    requires
        lacks(front, '{'),
        forall|i: int| 0 <= i < ps.len() ==> is_piece(#[trigger] ps[i]),
        object_text(ps).len() < usize::MAX,
    ensures
        first_object(front + object_text(ps) + back) == Some(object_text(ps)),
{
    let p = Piece::Nested(ps);
    let o = object_text(ps);
    let t = front + o + back;
    let i = front.len() as int;
    let inner = pieces_text(p, ps.len());
    assert(o =~= seq!['{'] + (inner + seq!['}']));
    assert(t.subrange(i, i + o.len()) =~= o);
    lemma_stands_parts(t, i, seq!['{'], inner + seq!['}']);
    lemma_stands_parts(t, i + 1, inner, seq!['}']);
    assert(t[i] == '{') by {
        assert(t.subrange(i, i + 1)[0] == seq!['{'][0]);
    }
    let j = i + 1 + inner.len();
    assert(t[j] == '}') by {
        assert(t.subrange(j, j + 1)[0] == seq!['}'][0]);
    }
    lemma_find_char_from(t, '{', 0);
    assert forall|k: int| 0 <= k < i implies t[k] != '{' by {
        assert(t[k] == front[k]);
    }
    assert(find_char(t, '{') == i);
    lemma_pieces_passed(t, i + 1, p, ps.len(), 1);
    assert(scanned(at_start(), '{') == outside(1));
    assert(scanned(outside(1), '}').depth == 0);
    assert(object_end(t, i, at_start()) == object_end(t, i + 1, outside(1)));
    assert(object_end(t, j, outside(1)) == j + 1);
}

} // verus!
