//! What the readings of text come to: order, space, lines, words, numbers, paths.

use vstd::prelude::*;
use crate::domain::{Language, ReferenceKind};
use crate::memory_laws::{lemma_trim_end_words, lemma_trim_start_words};
use crate::order::text_lt;
use crate::paths::{base_text, directories, lies_under, path_parts, split_dirs, without_dots};
use crate::text::{
    all_lack, blanked, contains_text, decimal, digit, ends_with, is_space, join, lacks,
    lemma_find_char_from, lemma_find_from, lemma_non_empty, lemma_split_append, lemma_split_join,
    lemma_split_lacks, lines, lines_of_pieces, occurs_at, rfind_from, rfind_text, split,
    starts_with, strip_end, strip_start, tail, trim, trim_end, trim_start, without_return, words,
};

verus! {

/// Of two texts that first differ at one place, the one with the lower code point
/// there comes first.
pub proof fn lemma_order_by_first_difference(a: Seq<char>, b: Seq<char>, k: int)
    requires
        0 <= k < a.len(),
        k < b.len(),
        forall|i: int| 0 <= i < k ==> a[i] == b[i],
        (a[k] as u32) < (b[k] as u32),
    ensures
        text_lt(a, b),
        !text_lt(b, a),
    decreases k,
{
    if k > 0 {
        let c = a.skip(1);
        let d = b.skip(1);
        assert(a[0] == b[0]);
        assert forall|i: int| 0 <= i < k - 1 implies c[i] == d[i] by {
            assert(a[i + 1] == b[i + 1]);
        }
        lemma_order_by_first_difference(c, d, k - 1);
    }
}

/// A text comes before any longer one that begins with it.
pub proof fn lemma_prefix_comes_first(a: Seq<char>, b: Seq<char>)
    requires
        b.len() > 0,
    ensures
        text_lt(a, a + b),
    decreases a.len(),
{
    if a.len() > 0 {
        lemma_prefix_comes_first(a.skip(1), b);
        assert((a + b).skip(1) =~= a.skip(1) + b);
        assert((a + b)[0] == a[0]);
    }
}

/// Space, tab and line ends are space; letters and digits are not.
pub proof fn lemma_spaces(c: char)
    ensures
        is_space(' ') && is_space('\t') && is_space('\n') && is_space('\r'),
        'a' <= c <= 'z' || 'A' <= c <= 'Z' || '0' <= c <= '9' || c == '_' || c == '-' || c == '/'
            || c == '.' || c == '"' ==> !is_space(c),
{
}

/// There is nothing but space in the text.
pub open spec fn is_blank(s: Seq<char>) -> bool {
    forall|i: int| 0 <= i < s.len() ==> is_space(#[trigger] s[i])
}

/// What is left of a text between the space around it: it neither begins nor ends
/// in space, and only space was cut.
pub proof fn lemma_trimmed(s: Seq<char>)
    ensures
        trim(s).len() > 0 ==> !is_space(trim(s)[0]) && !is_space(trim(s).last()),
        exists|front: Seq<char>, back: Seq<char>|
            #[trigger] is_blank(front) && #[trigger] is_blank(back) && s == front + trim(s) + back,
{
    let t = trim_start(s);
    let u = trim_end(t);
    lemma_trim_start_words(s);
    lemma_trim_end_words(t);
    let front = s.take(s.len() - t.len());
    let back = t.skip(u.len() as int);
    assert(t =~= u + back);
    assert(s =~= front + u + back);
    assert forall|i: int| 0 <= i < front.len() implies is_space(#[trigger] front[i]) by {
        assert(is_space(s[i]));
    }
    assert forall|i: int| 0 <= i < back.len() implies is_space(#[trigger] back[i]) by {
        assert(is_space(t[u.len() + i]));
    }
    assert(is_blank(front) && is_blank(back));
    if u.len() > 0 {
        assert(u[0] == t[0]);
    }
}

/// What is left when the character is stripped from one end: it does not begin or
/// end with it there, and nothing else was cut.
pub proof fn lemma_stripped(s: Seq<char>, c: char)
    ensures
        ({
            let a = strip_start(s, c);
            &&& a.len() <= s.len() && a == s.skip(s.len() - a.len())
            &&& a.len() > 0 ==> a[0] != c
            &&& forall|i: int| 0 <= i < s.len() - a.len() ==> #[trigger] s[i] == c
        }),
        ({
            let b = strip_end(s, c);
            &&& b.len() <= s.len() && b == s.take(b.len() as int)
            &&& b.len() > 0 ==> b.last() != c
            &&& forall|i: int| b.len() <= i < s.len() ==> #[trigger] s[i] == c
        }),
    decreases s.len(),
{
    assert(s.skip(0) =~= s);
    assert(s.take(s.len() as int) =~= s);
    if s.len() > 0 && s[0] == c {
        let d = s.skip(1);
        lemma_stripped(d, c);
        let a = strip_start(d, c);
        assert(s.skip(s.len() - a.len()) =~= d.skip(d.len() - a.len()));
        assert forall|i: int| 0 <= i < s.len() - a.len() implies #[trigger] s[i] == c by {
            if i > 0 {
                assert(d[i - 1] == c);
            }
        }
    }
    if s.len() > 0 && s.last() == c {
        let d = s.drop_last();
        lemma_stripped(d, c);
        let b = strip_end(d, c);
        assert(s.take(b.len() as int) =~= d.take(b.len() as int));
        assert forall|i: int| b.len() <= i < s.len() implies #[trigger] s[i] == c by {
            if i < d.len() {
                assert(d[i] == c);
            }
        }
    }
}

/// The number that digits stand for.
pub open spec fn number_of(s: Seq<char>) -> int
    decreases s.len(),
{
    if s.len() == 0 {
        0
    } else {
        10 * number_of(s.drop_last()) + (s.last() as u32 - '0' as u32)
    }
}

/// A number is written in digits that stand for it, without a zero in front.
pub proof fn lemma_decimal(n: nat)
    ensures
        number_of(decimal(n)) == n,
        forall|i: int| 0 <= i < decimal(n).len() ==> '0' <= #[trigger] decimal(n)[i] <= '9',
        decimal(n).len() > 0,
        n > 0 ==> decimal(n)[0] != '0',
    decreases n,
{
    let s = decimal(n);
    if n < 10 {
        assert(s.drop_last() =~= Seq::<char>::empty());
        reveal_with_fuel(number_of, 2);
        lemma_digit(n as int);
    } else {
        lemma_decimal(n / 10);
        assert(s.drop_last() =~= decimal(n / 10));
        lemma_digit((n % 10) as int);
        assert forall|i: int| 0 <= i < s.len() implies '0' <= #[trigger] s[i] <= '9' by {
            if i < s.len() - 1 {
                assert(s[i] == decimal(n / 10)[i]);
            }
        }
    }
}

proof fn lemma_digit(d: int)
    requires
        0 <= d < 10,
    ensures
        digit(d) as u32 == '0' as u32 + d,
        '0' <= digit(d) <= '9',
        d > 0 ==> digit(d) != '0',
{
}

/// Lines that are joined by line ends are read back, with or without a last line
/// end.
pub proof fn lemma_lines(ls: Seq<Seq<char>>)
    requires
        ls.len() > 0,
        all_lack(ls, '\n'),
        all_lack(ls, '\r'),
    ensures
        lines(join(ls, seq!['\n']) + seq!['\n']) == ls,
        ls.last().len() > 0 ==> lines(join(ls, seq!['\n'])) == ls,
{
    let s = join(ls, seq!['\n']);
    let e = Seq::<char>::empty();
    lemma_split_join(ls, '\n');
    lemma_split_append(s, '\n', e);
    assert(s + seq!['\n'] + e =~= s + seq!['\n']);
    assert forall|i: int| 0 <= i < ls.len() implies without_return(#[trigger] ls[i]) == ls[i] by {
        assert(lacks(ls[i], '\r'));
    }
    let pieces = ls.push(e);
    assert(lines_of_pieces(pieces) =~= ls);
    if ls.last().len() > 0 {
        assert(lines_of_pieces(ls) =~= ls);
    }
}

/// No line has a line end in it.
pub proof fn lemma_no_line_end(s: Seq<char>)
    ensures
        all_lack(lines(s), '\n'),
{
    let pieces = split(s, '\n');
    lemma_split_lacks(s, '\n', '\n');
    let ls = lines(s);
    assert forall|k: int| 0 <= k < ls.len() implies lacks(#[trigger] ls[k], '\n') by {
        assert(lacks(pieces[k], '\n'));
    }
}

/// The text has no space in it and is not empty.
pub open spec fn is_word(s: Seq<char>) -> bool {
    s.len() > 0 && forall|i: int| 0 <= i < s.len() ==> !is_space(#[trigger] s[i])
}

/// Words that are joined by spaces are read back.
pub proof fn lemma_words(ws: Seq<Seq<char>>)
    requires
        ws.len() > 0,
        forall|k: int| 0 <= k < ws.len() ==> is_word(#[trigger] ws[k]),
    ensures
        words(join(ws, seq![' '])) == ws,
{
    let s = join(ws, seq![' ']);
    lemma_blanked_join(ws);
    assert forall|k: int| 0 <= k < ws.len() implies lacks(#[trigger] ws[k], ' ') by {
        assert(is_word(ws[k]));
        let w = ws[k];
        assert forall|i: int| 0 <= i < w.len() implies w[i] != ' ' by {
            assert(!is_space(w[i]));
        }
    }
    lemma_split_join(ws, ' ');
    assert forall|k: int| 0 <= k < ws.len() implies (#[trigger] ws[k]).len() > 0 by {
        assert(is_word(ws[k]));
    }
    lemma_non_empty(ws);
}

proof fn lemma_blanked_join(ws: Seq<Seq<char>>)
    requires
        ws.len() > 0,
        forall|k: int| 0 <= k < ws.len() ==> is_word(#[trigger] ws[k]),
    ensures
        blanked(join(ws, seq![' '])) == join(ws, seq![' ']),
    decreases ws.len(),
{
    let s = join(ws, seq![' ']);
    assert(is_word(ws[ws.len() - 1]));
    if ws.len() > 1 {
        let front = ws.drop_last();
        assert forall|k: int| 0 <= k < front.len() implies is_word(#[trigger] front[k]) by {
            assert(front[k] == ws[k]);
        }
        lemma_blanked_join(front);
        let f = join(front, seq![' ']);
        assert forall|i: int| 0 <= i < s.len() implies blanked(s)[i] == #[trigger] s[i] by {
            if i < f.len() {
                assert(s[i] == f[i]);
                assert(blanked(f)[i] == f[i]);
            } else if i == f.len() {
                assert(s[i] == ' ');
            } else {
                assert(s[i] == ws.last()[i - f.len() - 1]);
                assert(!is_space(ws.last()[i - f.len() - 1]));
            }
        }
        assert(blanked(s) =~= s);
    } else {
        assert(s == ws[0]);
        assert(blanked(s) =~= s);
    }
}

/// The end of a text is as long as asked for, or the whole text.
pub proof fn lemma_tail(s: Seq<char>, max: int)
    requires
        0 <= max,
    ensures
        tail(s, max).len() == if s.len() < max {
            s.len() as int
        } else {
            max
        },
        ends_with(s, tail(s, max)),
{
    let t = tail(s, max);
    assert(s.subrange(s.len() - t.len(), s.len() as int) =~= t);
}

/// The last occurrence is one, and none comes after it.
pub proof fn lemma_last_occurrence(s: Seq<char>, p: Seq<char>)
    ensures
        ({
            let r = rfind_text(s, p);
            &&& r >= 0 ==> occurs_at(s, p, r)
            &&& forall|i: int| r < i && 0 <= i ==> !#[trigger] occurs_at(s, p, i)
        }),
{
    lemma_rfind_from(s, p, s.len() - p.len());
}

proof fn lemma_rfind_from(s: Seq<char>, p: Seq<char>, from: int)
    ensures
        ({
            let r = rfind_from(s, p, from);
            &&& r >= 0 ==> occurs_at(s, p, r)
            &&& forall|i: int| r < i <= from && 0 <= i ==> !#[trigger] occurs_at(s, p, i)
        }),
    decreases from + 1,
{
    if from >= 0 && !occurs_at(s, p, from) {
        lemma_rfind_from(s, p, from - 1);
    }
}

/// A text begins with its beginning, ends with its end and contains its middle.
pub proof fn lemma_parts_occur(a: Seq<char>, b: Seq<char>, c: Seq<char>)
    ensures
        starts_with(a + b, a),
        ends_with(a + b, b),
        contains_text(a + b + c, b),
{
    assert((a + b).subrange(0, a.len() as int) =~= a);
    assert((a + b).subrange(a.len() as int, (a + b).len() as int) =~= b);
    let s = a + b + c;
    assert(s.subrange(a.len() as int, (a.len() + b.len()) as int) =~= b);
    lemma_find_from(s, b, 0);
    assert(occurs_at(s, b, a.len() as int));
}

/// Languages go by different names.
pub proof fn lemma_language_names(a: Language, b: Language)
    ensures
        a.name() == b.name() ==> a == b,
{
    reveal_strlit("rust");
    reveal_strlit("python");
    reveal_strlit("javascript");
    reveal_strlit("typescript");
    reveal_strlit("go");
    reveal_strlit("hcl");
    reveal_strlit("php");
    reveal_strlit("cpp");
    reveal_strlit("unknown");
    assert("rust"@.len() == 4 && "python"@.len() == 6 && "go"@.len() == 2);
    assert("javascript"@.len() == 10 && "typescript"@.len() == 10 && "unknown"@.len() == 7);
    assert("hcl"@.len() == 3 && "php"@.len() == 3 && "cpp"@.len() == 3);
    assert("javascript"@[0] == 'j' && "typescript"@[0] == 't');
    assert("hcl"@[0] == 'h' && "php"@[0] == 'p' && "cpp"@[0] == 'c');
}

/// Kinds of reference go by different names.
pub proof fn lemma_reference_kind_names(a: ReferenceKind, b: ReferenceKind)
    ensures
        a.name() == b.name() ==> a == b,
        ReferenceKind::Call.name() == "call"@ && ReferenceKind::MethodCall.name()
            == "method_call"@,
        ReferenceKind::Instantiation.name() == "instantiation"@
            && ReferenceKind::MacroInvocation.name() == "macro_invocation"@,
        ReferenceKind::TypeReference.name() == "type_reference"@ && ReferenceKind::Import.name()
            == "import"@,
        ReferenceKind::Inheritance.name() == "inheritance"@ && ReferenceKind::Implementation.name()
            == "implementation"@,
{
    reveal_strlit("call");
    reveal_strlit("method_call");
    reveal_strlit("instantiation");
    reveal_strlit("macro_invocation");
    reveal_strlit("type_reference");
    reveal_strlit("import");
    reveal_strlit("inheritance");
    reveal_strlit("implementation");
    reveal_strlit("unknown");
    assert("call"@.len() == 4 && "method_call"@.len() == 11 && "instantiation"@.len() == 13);
    assert("macro_invocation"@.len() == 16 && "type_reference"@.len() == 14);
    assert("import"@.len() == 6 && "inheritance"@.len() == 11 && "implementation"@.len() == 14);
    assert("unknown"@.len() == 7);
    assert("method_call"@[0] == 'm' && "inheritance"@[0] == 'i');
    assert("type_reference"@[0] == 't' && "implementation"@[0] == 'i');
}

/// The name of a directory, or of a file, on a path.
pub open spec fn is_path_name(s: Seq<char>) -> bool {
    s.len() > 0 && s != "."@ && s != ".."@ && lacks(s, '/') && lacks(s, '\\')
}

/// A file lies under the directories that its path names, from the outermost to
/// its own, and under no other.
pub proof fn lemma_directories(dirs: Seq<Seq<char>>, name: Seq<char>, d: Seq<char>)
    requires
        forall|k: int| 0 <= k < dirs.len() ==> is_path_name(#[trigger] dirs[k]),
        is_path_name(name),
    ensures
        directories(join(dirs.push(name), seq!['/'])) == dirs,
        base_text(join(dirs.push(name), seq!['/'])) == name,
        lies_under(join(dirs.push(name), seq!['/']), d) <==> exists|k: int|
            1 <= k <= dirs.len() && #[trigger] join(dirs.take(k), seq!['/']) == d,
{
    let parts = dirs.push(name);
    let path = join(parts, seq!['/']);
    assert forall|k: int| 0 <= k < parts.len() implies is_path_name(#[trigger] parts[k]) by {
        if k < dirs.len() {
            assert(parts[k] == dirs[k]);
        }
    }
    lemma_split_join(parts, '/');
    lemma_non_empty(parts);
    lemma_plain_parts(parts);
    assert(path_parts(path, '/') == parts);
    assert(parts.drop_last() =~= dirs);
    lemma_plain_dirs(dirs);
    reveal_strlit("/");
    assert("/"@ =~= seq!['/']);
    if lies_under(path, d) {
        let k = choose|k: int| 1 <= k <= dirs.len() && #[trigger] join(dirs.take(k), "/"@) == d;
        assert(join(dirs.take(k), seq!['/']) == d);
    }
    if exists|k: int| 1 <= k <= dirs.len() && #[trigger] join(dirs.take(k), seq!['/']) == d {
        let k = choose|k: int|
            1 <= k <= dirs.len() && #[trigger] join(dirs.take(k), seq!['/']) == d;
        assert(join(dirs.take(k), "/"@) == d);
    }
}

proof fn lemma_plain_parts(parts: Seq<Seq<char>>)
    requires
        forall|k: int| 0 <= k < parts.len() ==> is_path_name(#[trigger] parts[k]),
    ensures
        without_dots(parts) == parts,
    decreases parts.len(),
{
    if parts.len() > 0 {
        let front = parts.drop_last();
        assert forall|k: int| 0 <= k < front.len() implies is_path_name(#[trigger] front[k]) by {
            assert(front[k] == parts[k]);
        }
        lemma_plain_parts(front);
        assert(is_path_name(parts[parts.len() - 1]));
        assert(front.push(parts.last()) =~= parts);
    }
}

proof fn lemma_plain_dirs(dirs: Seq<Seq<char>>)
    requires
        forall|k: int| 0 <= k < dirs.len() ==> is_path_name(#[trigger] dirs[k]),
    ensures
        split_dirs(dirs) == dirs,
    decreases dirs.len(),
{
    if dirs.len() > 0 {
        let front = dirs.drop_last();
        assert forall|k: int| 0 <= k < front.len() implies is_path_name(#[trigger] front[k]) by {
            assert(front[k] == dirs[k]);
        }
        lemma_plain_dirs(front);
        let last = dirs.last();
        assert(is_path_name(dirs[dirs.len() - 1]));
        lemma_find_char_from(last, '\\', 0);
        assert(split(last, '\\') =~= seq![last]);
        let one = seq![last];
        assert forall|k: int| 0 <= k < one.len() implies is_path_name(#[trigger] one[k]) by {}
        lemma_non_empty(one);
        lemma_plain_parts(one);
        assert(front + one =~= dirs);
    }
}

} // verus!
