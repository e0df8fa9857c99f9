//! A model's tagged answer made into Markdown without emphasis.

use vstd::prelude::*;
use vstd::slice::slice_subrange;
use vstd::string::*;
use crate::text::{
    begins, chars_of, contains_text, find_at, find_text, is_space, lemma_find_from, lines, lines_of,
    rows, space, starts_with, string_of, trim, trim_end, trim_start, trimmed, trimmed_end,
    trimmed_start,
};

verus! {

/// The text with each pair of delimiters taken away, and what stands between
/// them kept. The delimiters are those of `shown`, which tells of each character
/// what it counts as. A delimiter without a partner stays.
pub open spec fn unpaired(s: Seq<char>, shown: Seq<char>, delim: Seq<char>) -> Seq<char>
    decreases shown.len(),
{
    let start = find_text(shown, delim);
    let inner = start + delim.len();
    if delim.len() == 0 || start < 0 || inner > shown.len() {
        s
    } else {
        let end = find_text(shown.skip(inner), delim);
        let next = inner + end + delim.len();
        if end < 0 || next > shown.len() {
            s
        } else {
            s.take(start) + s.subrange(inner, inner + end) + unpaired(
                s.skip(next),
                shown.skip(next),
                delim,
            )
        }
    }
}

/// A text that shows no delimiter stays as it is.
pub proof fn lemma_unpaired_absent(s: Seq<char>, shown: Seq<char>, delim: Seq<char>)
    requires
        !contains_text(shown, delim),
    ensures
        unpaired(s, shown, delim) == s,
{
}

proof fn lemma_unpaired_len(s: Seq<char>, shown: Seq<char>, delim: Seq<char>)
    requires
        s.len() == shown.len(),
    ensures
        unpaired(s, shown, delim).len() == unpaired(shown, shown, delim).len(),
    decreases shown.len(),
{
    let start = find_text(shown, delim);
    let inner = start + delim.len();
    if delim.len() == 0 || start < 0 || inner > shown.len() {
    } else {
        let end = find_text(shown.skip(inner), delim);
        let next = inner + end + delim.len();
        if end < 0 || next > shown.len() {
        } else {
            lemma_unpaired_len(s.skip(next), shown.skip(next), delim);
        }
    }
}

fn push_chars(out: &mut Vec<char>, part: &[char])
    ensures
        final(out)@ == old(out)@ + part@,
{
    let ghost before = out@;
    let mut i: usize = 0;
    assert(before + part@.take(0) =~= before);
    while i < part.len()
        invariant
            i <= part@.len(),
            out@ == before + part@.take(i as int),
        decreases part@.len() - i,
    {
        assert(before + part@.take(i + 1) =~= (before + part@.take(i as int)).push(
            part@[i as int],
        ));
        out.push(part[i]);
        i += 1;
    }
    assert(part@.take(i as int) =~= part@);
}

/// Takes away the pairs of a delimiter, as far as they are shown.
pub fn remove_paired(s: &[char], shown: &[char], delim: &[char]) -> (r: Vec<char>)
    requires
        s@.len() == shown@.len(),
        delim@.len() > 0,
    ensures
        r@ == unpaired(s@, shown@, delim@),
{
    let mut out: Vec<char> = Vec::new();
    let mut from: usize = 0;
    let n: usize = s.len();
    let d: usize = delim.len();
    proof {
        assert(s@.skip(0) =~= s@);
        assert(shown@.skip(0) =~= shown@);
        assert(out@ + unpaired(s@, shown@, delim@) =~= unpaired(s@, shown@, delim@));
    }
    loop
        invariant
            from <= n,
            n == s@.len(),
            n == shown@.len(),
            d == delim@.len(),
            d > 0,
            out@ + unpaired(s@.skip(from as int), shown@.skip(from as int), delim@) == unpaired(
                s@,
                shown@,
                delim@,
            ),
        decreases n - from,
    {
        let rest = slice_subrange(s, from, n);
        let rest_shown = slice_subrange(shown, from, n);
        assert(rest@ =~= s@.skip(from as int));
        assert(rest_shown@ =~= shown@.skip(from as int));
        let ghost before = out@;
        if let Some(start) = find_at(rest_shown, delim, 0) {
            let inner: usize = start + d;
            let after = slice_subrange(rest_shown, inner, rest_shown.len());
            assert(after@ =~= rest_shown@.skip(inner as int));
            if let Some(end) = find_at(after, delim, 0) {
                let head = slice_subrange(rest, 0, start);
                let middle = slice_subrange(rest, inner, inner + end);
                let next: usize = inner + end + d;
                push_chars(&mut out, head);
                push_chars(&mut out, middle);
                proof {
                    assert(head@ =~= rest@.take(start as int));
                    assert(middle@ =~= rest@.subrange(inner as int, inner + end));
                    assert(rest@.skip(next as int) =~= s@.skip(from + next));
                    assert(rest_shown@.skip(next as int) =~= shown@.skip(from + next));
                    let u = unpaired(s@.skip(from + next), shown@.skip(from + next), delim@);
                    assert(before + (head@ + middle@ + u) =~= (before + head@ + middle@) + u);
                }
                from = from + next;
                continue;
            }
        }
        push_chars(&mut out, rest);
        return out;
    }
}

/// A run of exactly `n` backticks begins at `i`.
pub open spec fn is_run(s: Seq<char>, i: int, n: int) -> bool {
    &&& 0 <= i && 0 < n && i + n <= s.len()
    &&& forall|k: int| i <= k < i + n ==> #[trigger] s[k] == '`'
    &&& i == 0 || s[i - 1] != '`'
    &&& i + n == s.len() || s[i + n] != '`'
}

/// The end of the backticks at `i`.
pub open spec fn run_end(s: Seq<char>, i: int) -> int
    decreases s.len() - i,
{
    if 0 <= i < s.len() && s[i] == '`' {
        run_end(s, i + 1)
    } else {
        i
    }
}

/// The first place from `from` on where a run of exactly `n` backticks begins,
/// or -1.
pub open spec fn find_run(s: Seq<char>, n: int, from: int) -> int
    decreases s.len() - from,
{
    if from < 0 || from >= s.len() {
        -1
    } else if is_run(s, from, n) {
        from
    } else {
        find_run(s, n, from + 1)
    }
}

/// The end of what begins with the backticks at `i`: of the code span up to
/// the next run of as many backticks, or of the backticks alone where there is
/// none.
pub open spec fn span_end(s: Seq<char>, i: int) -> int {
    let n = run_end(s, i) - i;
    let close = find_run(s, n, i + n);
    if close < 0 {
        i + n
    } else {
        close + n
    }
}

/// `n` backticks.
pub open spec fn backticks(n: nat) -> Seq<char> {
    Seq::new(n, |k: int| '`')
}

/// The line from `i` on with a backtick in place of each character of a code
/// span.
pub open spec fn shown_from(s: Seq<char>, i: int) -> Seq<char>
    decreases s.len() - i,
{
    if i < 0 || i >= s.len() {
        Seq::empty()
    } else if s[i] != '`' || span_end(s, i) <= i || span_end(s, i) > s.len() {
        seq![s[i]] + shown_from(s, i + 1)
    } else {
        backticks((span_end(s, i) - i) as nat) + shown_from(s, span_end(s, i))
    }
}

/// The line with a backtick in place of each character of a code span.
pub open spec fn outside_code(s: Seq<char>) -> Seq<char> {
    shown_from(s, 0)
}

proof fn lemma_run_end(s: Seq<char>, i: int)
    requires
        0 <= i <= s.len(),
    ensures
        i <= run_end(s, i) <= s.len(),
        i < s.len() && s[i] == '`' ==> i < run_end(s, i),
    decreases s.len() - i,
{
    if i < s.len() && s[i] == '`' {
        lemma_run_end(s, i + 1);
    }
}

proof fn lemma_find_run(s: Seq<char>, n: int, from: int)
    requires
        0 <= from,
    ensures
        find_run(s, n, from) >= 0 ==> from <= find_run(s, n, from) && is_run(
            s,
            find_run(s, n, from),
            n,
        ),
        find_run(s, n, from) < 0 ==> find_run(s, n, from) == -1,
    decreases s.len() - from,
{
    if from < s.len() && !is_run(s, from, n) {
        lemma_find_run(s, n, from + 1);
    }
}

proof fn lemma_span_end(s: Seq<char>, i: int)
    requires
        0 <= i < s.len(),
        s[i] == '`',
    ensures
        i < span_end(s, i) <= s.len(),
{
    lemma_run_end(s, i);
    lemma_find_run(s, run_end(s, i) - i, run_end(s, i));
}

proof fn lemma_shown_len(s: Seq<char>, i: int)
    requires
        0 <= i <= s.len(),
    ensures
        shown_from(s, i).len() == s.len() - i,
    decreases s.len() - i,
{
    if i < s.len() {
        if s[i] == '`' {
            lemma_span_end(s, i);
            lemma_shown_len(s, span_end(s, i));
        } else {
            lemma_shown_len(s, i + 1);
        }
    }
}

fn end_of_run(s: &[char], from: usize) -> (r: usize)
    requires
        from <= s@.len(),
    ensures
        r == run_end(s@, from as int),
        from <= r <= s@.len(),
{
    let mut i: usize = from;
    while i < s.len() && s[i] == '`'
        invariant
            from <= i <= s@.len(),
            run_end(s@, from as int) == run_end(s@, i as int),
        decreases s@.len() - i,
    {
        i += 1;
    }
    i
}

fn begins_run(s: &[char], i: usize, n: usize) -> (r: bool)
    requires
        i < s@.len(),
    ensures
        r == is_run(s@, i as int, n as int),
{
    if n == 0 || s[i] != '`' || (i > 0 && s[i - 1] == '`') {
        return false;
    }
    let mut k: usize = i;
    while k < s.len() && s[k] == '`'
        invariant
            i <= k <= s@.len(),
            forall|m: int| i <= m < k ==> #[trigger] s@[m] == '`',
        decreases s@.len() - k,
    {
        k += 1;
    }
    proof {
        if k - i < n && i + n <= s@.len() {
            assert(s@[k as int] != '`');
        }
        if k - i > n {
            assert(s@[i + n] == '`');
        }
    }
    k - i == n
}

fn place_of_run(s: &[char], n: usize, from: usize) -> (r: Option<usize>)
    ensures
        r matches Some(i) ==> i == find_run(s@, n as int, from as int) && from <= i && is_run(
            s@,
            i as int,
            n as int,
        ),
        r is None ==> find_run(s@, n as int, from as int) == -1,
{
    let mut i: usize = from;
    while i < s.len()
        invariant
            from <= i,
            find_run(s@, n as int, from as int) == find_run(s@, n as int, i as int),
        decreases s@.len() - i,
    {
        if begins_run(s, i, n) {
            return Some(i);
        }
        i += 1;
    }
    None
}

/// Puts a backtick in place of each character of a code span.
pub fn hide_code(s: &[char]) -> (r: Vec<char>)
    ensures
        r@ == outside_code(s@),
        r@.len() == s@.len(),
{
    let mut out: Vec<char> = Vec::new();
    let mut i: usize = 0;
    assert(out@ + shown_from(s@, 0) =~= shown_from(s@, 0));
    while i < s.len()
        invariant
            i <= s@.len(),
            out@.len() == i,
            out@ + shown_from(s@, i as int) == outside_code(s@),
        decreases s@.len() - i,
    {
        let ghost before = out@;
        if s[i] == '`' {
            let run: usize = end_of_run(s, i);
            proof {
                lemma_span_end(s@, i as int);
                lemma_run_end(s@, i as int);
            }
            let n: usize = run - i;
            let end: usize = match place_of_run(s, n, run) {
                Some(close) => close + n,
                None => run,
            };
            assert(end == span_end(s@, i as int));
            let ghost want = backticks((end - i) as nat);
            let ghost rest = shown_from(s@, end as int);
            let ghost start = i as int;
            assert(before + want.take(0) =~= before);
            while i < end
                invariant
                    start <= i <= end,
                    end <= s@.len(),
                    want == backticks((end - start) as nat),
                    out@ == before + want.take(i - start),
                decreases end - i,
            {
                assert(want.take(i - start + 1) =~= want.take(i - start).push('`'));
                out.push('`');
                assert(out@ =~= before + want.take(i - start + 1));
                i += 1;
            }
            proof {
                assert(want.take(end - start) =~= want);
                assert(before + (want + rest) =~= (before + want) + rest);
            }
        } else {
            let c = s[i];
            out.push(c);
            proof {
                let rest = shown_from(s@, i + 1);
                assert(before + (seq![c] + rest) =~= before.push(c) + rest);
            }
            i += 1;
        }
    }
    assert(out@ + shown_from(s@, i as int) =~= out@);
    out
}

/// A star stands at `i` with no other beside it.
pub open spec fn is_lone_star(s: Seq<char>, i: int) -> bool {
    &&& 0 <= i < s.len() && s[i] == '*'
    &&& i == 0 || s[i - 1] != '*'
    &&& i + 1 == s.len() || s[i + 1] != '*'
}

/// The star at `i` can begin italics: text follows it.
pub open spec fn opens_italics(s: Seq<char>, i: int) -> bool {
    is_lone_star(s, i) && i + 1 < s.len() && !is_space(s[i + 1])
}

/// The star at `i` can end italics: text stands before it.
pub open spec fn closes_italics(s: Seq<char>, i: int) -> bool {
    is_lone_star(s, i) && i > 0 && !is_space(s[i - 1])
}

/// The first star from `from` on that can begin (`opening`) or end italics, or
/// -1.
pub open spec fn find_star(s: Seq<char>, opening: bool, from: int) -> int
    decreases s.len() - from,
{
    if from < 0 || from >= s.len() {
        -1
    } else if (if opening {
        opens_italics(s, from)
    } else {
        closes_italics(s, from)
    }) {
        from
    } else {
        find_star(s, opening, from + 1)
    }
}

/// The text from `from` on with the stars round italics taken away, as far as
/// they are shown.
pub open spec fn upright(s: Seq<char>, shown: Seq<char>, from: int) -> Seq<char>
    decreases shown.len() - from,
{
    let a = find_star(shown, true, from);
    let b = find_star(shown, false, a + 1);
    if a < from || b <= a || b >= shown.len() {
        s.skip(from)
    } else {
        s.subrange(from, a) + s.subrange(a + 1, b) + upright(s, shown, b + 1)
    }
}

proof fn lemma_find_star(s: Seq<char>, opening: bool, from: int)
    requires
        0 <= from,
    ensures
        find_star(s, opening, from) >= 0 ==> from <= find_star(s, opening, from) < s.len()
            && s[find_star(s, opening, from)] == '*',
        find_star(s, opening, from) < 0 ==> find_star(s, opening, from) == -1,
    decreases s.len() - from,
{
    if from < s.len() {
        lemma_find_star(s, opening, from + 1);
    }
}

fn lone_star(s: &[char], i: usize) -> (r: bool)
    requires
        i < s@.len(),
    ensures
        r == is_lone_star(s@, i as int),
{
    s[i] == '*' && (i == 0 || s[i - 1] != '*') && (i + 1 == s.len() || s[i + 1] != '*')
}

fn place_of_star(s: &[char], opening: bool, from: usize) -> (r: Option<usize>)
    ensures
        r matches Some(i) ==> i == find_star(s@, opening, from as int) && from <= i < s@.len(),
        r is None ==> find_star(s@, opening, from as int) == -1,
{
    let mut i: usize = from;
    while i < s.len()
        invariant
            from <= i,
            find_star(s@, opening, from as int) == find_star(s@, opening, i as int),
        decreases s@.len() - i,
    {
        let fits = if opening {
            lone_star(s, i) && i + 1 < s.len() && !space(s[i + 1])
        } else {
            lone_star(s, i) && i > 0 && !space(s[i - 1])
        };
        if fits {
            return Some(i);
        }
        i += 1;
    }
    None
}

/// Takes away the stars round italics, as far as they are shown.
pub fn remove_italics(s: &[char], shown: &[char]) -> (r: Vec<char>)
    requires
        s@.len() == shown@.len(),
    ensures
        r@ == upright(s@, shown@, 0),
{
    let mut out: Vec<char> = Vec::new();
    let mut from: usize = 0;
    let n: usize = s.len();
    assert(out@ + upright(s@, shown@, 0) =~= upright(s@, shown@, 0));
    loop
        invariant
            from <= n,
            n == s@.len(),
            n == shown@.len(),
            out@ + upright(s@, shown@, from as int) == upright(s@, shown@, 0),
        decreases n - from,
    {
        let ghost before = out@;
        if let Some(a) = place_of_star(shown, true, from) {
            if let Some(b) = place_of_star(shown, false, a + 1) {
                let head = slice_subrange(s, from, a);
                let middle = slice_subrange(s, a + 1, b);
                push_chars(&mut out, head);
                push_chars(&mut out, middle);
                proof {
                    let rest = upright(s@, shown@, b + 1);
                    assert(before + (head@ + middle@ + rest) =~= (before + head@ + middle@) + rest);
                }
                from = b + 1;
                continue;
            }
        }
        let rest = slice_subrange(s, from, n);
        assert(rest@ =~= s@.skip(from as int));
        push_chars(&mut out, rest);
        return out;
    }
}

/// A line without the marks of bold and italics outside its code spans.
pub open spec fn plain_line(line: Seq<char>) -> Seq<char> {
    let shown = outside_code(line);
    upright(unpaired(line, shown, "**"@), unpaired(shown, shown, "**"@), 0)
}

/// Takes the marks of bold and italics out of a line, but not out of its code
/// spans.
pub fn strip_emphasis_in_line(line: &[char]) -> (r: Vec<char>)
    ensures
        r@ == plain_line(line@),
{
    let stars = chars_of("**");
    proof {
        reveal_strlit("**");
    }
    let shown = hide_code(line);
    let light = remove_paired(line, &shown, &stars);
    let light_shown = remove_paired(&shown, &shown, &stars);
    proof {
        lemma_unpaired_len(line@, shown@, stars@);
    }
    remove_italics(&light, &light_shown)
}

/// The characters of the text that are shown as backticks: those of its code
/// spans, and backticks without a partner.
pub open spec fn code_of(s: Seq<char>, shown: Seq<char>) -> Seq<char>
    decreases s.len(),
{
    if s.len() == 0 || shown.len() != s.len() {
        Seq::empty()
    } else {
        let d = code_of(s.drop_last(), shown.drop_last());
        if shown.last() == '`' {
            d.push(s.last())
        } else {
            d
        }
    }
}

proof fn lemma_code_of_add(a: Seq<char>, x: Seq<char>, b: Seq<char>, y: Seq<char>)
    requires
        a.len() == x.len(),
        b.len() == y.len(),
    ensures
        code_of(a + b, x + y) == code_of(a, x) + code_of(b, y),
    decreases b.len(),
{
    if b.len() == 0 {
        assert(a + b =~= a && x + y =~= x);
        assert(code_of(a, x) + code_of(b, y) =~= code_of(a, x));
    } else {
        lemma_code_of_add(a, x, b.drop_last(), y.drop_last());
        assert((a + b).drop_last() =~= a + b.drop_last());
        assert((x + y).drop_last() =~= x + y.drop_last());
        let d = code_of(b.drop_last(), y.drop_last());
        assert((code_of(a, x) + d).push(b.last()) =~= code_of(a, x) + d.push(b.last()));
    }
}

proof fn lemma_no_code(s: Seq<char>, shown: Seq<char>)
    requires
        s.len() == shown.len(),
        forall|i: int| 0 <= i < shown.len() ==> #[trigger] shown[i] != '`',
    ensures
        code_of(s, shown) == Seq::<char>::empty(),
    decreases s.len(),
{
    if s.len() > 0 {
        assert(shown.last() == shown[shown.len() - 1]);
        assert forall|i: int| 0 <= i < shown.drop_last().len() implies #[trigger]
            shown.drop_last()[i] != '`' by {
            assert(shown.drop_last()[i] == shown[i]);
        }
        lemma_no_code(s.drop_last(), shown.drop_last());
    }
}

/// Two marks that are cut out of a text hold no code, so what remains holds all
/// of it.
proof fn lemma_cut_keeps_code(
    s: Seq<char>,
    shown: Seq<char>,
    a: int,
    b: int,
    c: int,
    d: int,
)
    requires
        s.len() == shown.len(),
        0 <= a <= b <= c <= d <= s.len(),
        forall|i: int| a <= i < b || c <= i < d ==> #[trigger] shown[i] != '`',
    ensures
        code_of(s, shown) == code_of(s.take(a), shown.take(a)) + code_of(
            s.subrange(b, c),
            shown.subrange(b, c),
        ) + code_of(s.skip(d), shown.skip(d)),
{
    let none = Seq::<char>::empty();
    assert(s =~= s.take(a) + (s.subrange(a, b) + (s.subrange(b, c) + (s.subrange(c, d) + s.skip(
        d,
    )))));
    assert(shown =~= shown.take(a) + (shown.subrange(a, b) + (shown.subrange(b, c)
        + (shown.subrange(c, d) + shown.skip(d)))));
    lemma_code_of_add(
        s.take(a),
        shown.take(a),
        s.subrange(a, b) + (s.subrange(b, c) + (s.subrange(c, d) + s.skip(d))),
        shown.subrange(a, b) + (shown.subrange(b, c) + (shown.subrange(c, d) + shown.skip(d))),
    );
    lemma_code_of_add(
        s.subrange(a, b),
        shown.subrange(a, b),
        s.subrange(b, c) + (s.subrange(c, d) + s.skip(d)),
        shown.subrange(b, c) + (shown.subrange(c, d) + shown.skip(d)),
    );
    lemma_code_of_add(
        s.subrange(b, c),
        shown.subrange(b, c),
        s.subrange(c, d) + s.skip(d),
        shown.subrange(c, d) + shown.skip(d),
    );
    lemma_code_of_add(s.subrange(c, d), shown.subrange(c, d), s.skip(d), shown.skip(d));
    lemma_no_code(s.subrange(a, b), shown.subrange(a, b));
    lemma_no_code(s.subrange(c, d), shown.subrange(c, d));
    assert(none + code_of(s.skip(d), shown.skip(d)) =~= code_of(s.skip(d), shown.skip(d)));
    let rest = code_of(s.subrange(b, c), shown.subrange(b, c)) + code_of(s.skip(d), shown.skip(d));
    assert(none + rest =~= rest);
    assert(code_of(s.take(a), shown.take(a)) + rest =~= code_of(s.take(a), shown.take(a))
        + code_of(s.subrange(b, c), shown.subrange(b, c)) + code_of(s.skip(d), shown.skip(d)));
}

proof fn lemma_unpaired_keeps_code(s: Seq<char>, shown: Seq<char>, delim: Seq<char>)
    requires
        s.len() == shown.len(),
        forall|i: int| 0 <= i < delim.len() ==> #[trigger] delim[i] != '`',
    ensures
        code_of(unpaired(s, shown, delim), unpaired(shown, shown, delim)) == code_of(s, shown),
    decreases shown.len(),
{
    let start = find_text(shown, delim);
    let inner = start + delim.len();
    if delim.len() == 0 || start < 0 || inner > shown.len() {
    } else {
        let rest = shown.skip(inner);
        let end = find_text(rest, delim);
        let next = inner + end + delim.len();
        if end < 0 || next > shown.len() {
        } else {
            lemma_find_from(shown, delim, 0);
            lemma_find_from(rest, delim, 0);
            assert forall|i: int| start <= i < inner || inner + end <= i < next implies #[trigger]
                shown[i] != '`' by {
                if i < inner {
                    assert(shown.subrange(start, inner)[i - start] == delim[i - start]);
                } else {
                    assert(rest.subrange(end, end + delim.len())[i - inner - end] == delim[i
                        - inner - end]);
                }
            }
            lemma_cut_keeps_code(s, shown, start, inner, inner + end, next);
            lemma_unpaired_keeps_code(s.skip(next), shown.skip(next), delim);
            lemma_unpaired_len(s.skip(next), shown.skip(next), delim);
            let u = unpaired(s.skip(next), shown.skip(next), delim);
            let v = unpaired(shown.skip(next), shown.skip(next), delim);
            lemma_code_of_add(
                s.take(start) + s.subrange(inner, inner + end),
                shown.take(start) + shown.subrange(inner, inner + end),
                u,
                v,
            );
            lemma_code_of_add(
                s.take(start),
                shown.take(start),
                s.subrange(inner, inner + end),
                shown.subrange(inner, inner + end),
            );
        }
    }
}

proof fn lemma_upright_keeps_code(s: Seq<char>, shown: Seq<char>, from: int)
    requires
        s.len() == shown.len(),
        0 <= from <= s.len(),
    ensures
        upright(s, shown, from).len() == upright(shown, shown, from).len(),
        code_of(upright(s, shown, from), upright(shown, shown, from)) == code_of(
            s.skip(from),
            shown.skip(from),
        ),
    decreases shown.len() - from,
{
    let a = find_star(shown, true, from);
    let b = find_star(shown, false, a + 1);
    if a < from || b <= a || b >= shown.len() {
    } else {
        lemma_find_star(shown, true, from);
        lemma_find_star(shown, false, a + 1);
        lemma_upright_keeps_code(s, shown, b + 1);
        let t = s.skip(from);
        let x = shown.skip(from);
        lemma_cut_keeps_code(t, x, a - from, a + 1 - from, b - from, b + 1 - from);
        assert(t.take(a - from) =~= s.subrange(from, a));
        assert(x.take(a - from) =~= shown.subrange(from, a));
        assert(t.subrange(a + 1 - from, b - from) =~= s.subrange(a + 1, b));
        assert(x.subrange(a + 1 - from, b - from) =~= shown.subrange(a + 1, b));
        assert(t.skip(b + 1 - from) =~= s.skip(b + 1));
        assert(x.skip(b + 1 - from) =~= shown.skip(b + 1));
        lemma_code_of_add(
            s.subrange(from, a) + s.subrange(a + 1, b),
            shown.subrange(from, a) + shown.subrange(a + 1, b),
            upright(s, shown, b + 1),
            upright(shown, shown, b + 1),
        );
        lemma_code_of_add(
            s.subrange(from, a),
            shown.subrange(from, a),
            s.subrange(a + 1, b),
            shown.subrange(a + 1, b),
        );
    }
}

/// Taking the marks of emphasis out of a line keeps every character of its code
/// spans, in order.
pub proof fn lemma_code_spans_stay(line: Seq<char>)
    ensures
        ({
            let shown = outside_code(line);
            code_of(plain_line(line), plain_shown(line)) == code_of(line, shown)
        }),
{
    let shown = outside_code(line);
    reveal_strlit("**");
    lemma_shown_len(line, 0);
    lemma_unpaired_len(line, shown, "**"@);
    lemma_unpaired_keeps_code(line, shown, "**"@);
    let light = unpaired(line, shown, "**"@);
    let light_shown = unpaired(shown, shown, "**"@);
    lemma_upright_keeps_code(light, light_shown, 0);
    assert(light.skip(0) =~= light);
    assert(light_shown.skip(0) =~= light_shown);
}

/// What the characters of the plain line count as.
pub open spec fn plain_shown(line: Seq<char>) -> Seq<char> {
    let shown = unpaired(outside_code(line), outside_code(line), "**"@);
    upright(shown, shown, 0)
}

/// A line that shows no star stays as it is, whatever stands in its code spans.
pub proof fn lemma_starless_line_stays(line: Seq<char>)
    requires
        !outside_code(line).contains('*'),
    ensures
        plain_line(line) == line,
{
    let shown = outside_code(line);
    reveal_strlit("**");
    lemma_find_from(shown, "**"@, 0);
    let at = find_text(shown, "**"@);
    if at >= 0 {
        assert(shown.subrange(at, at + 2)[0] == shown[at]);
        assert(shown.contains(shown[at]));
    }
    lemma_find_star(shown, true, 0);
    let star = find_star(shown, true, 0);
    if star >= 0 {
        assert(shown.contains(shown[star]));
    }
    assert(line.skip(0) =~= line);
}

/// The line opens or closes a code fence.
pub open spec fn is_fence(line: Seq<char>) -> bool {
    starts_with(trim_start(line), "```"@)
}

/// Whether code is open behind the lines.
pub open spec fn fence_open(ls: Seq<Seq<char>>) -> bool
    decreases ls.len(),
{
    if ls.len() == 0 {
        false
    } else {
        fence_open(ls.drop_last()) != is_fence(ls.last())
    }
}

/// The lines without marks of emphasis outside code, each with a line feed.
pub open spec fn plain_lines(ls: Seq<Seq<char>>) -> Seq<char>
    decreases ls.len(),
{
    if ls.len() == 0 {
        Seq::empty()
    } else {
        let d = ls.drop_last();
        let line = ls.last();
        plain_lines(d) + (if is_fence(line) || fence_open(d) {
            line
        } else {
            plain_line(line)
        }) + seq!['\n']
    }
}

/// The text without marks of bold and italics outside code. It ends in a line feed only where
/// the text did.
pub open spec fn plain_text(s: Seq<char>) -> Seq<char> {
    let out = plain_lines(lines(s));
    if (s.len() == 0 || s.last() != '\n') && out.len() > 0 {
        out.drop_last()
    } else {
        out
    }
}

/// Takes the marks of bold and italics out of a text, but not out of code.
pub fn strip_markdown_emphasis(s: &[char]) -> (r: Vec<char>)
    ensures
        r@ == plain_text(s@),
{
    let ls = lines_of(s);
    let fence = chars_of("```");
    let ghost all = rows(ls@);
    let mut out: Vec<char> = Vec::new();
    let mut open = false;
    let mut i: usize = 0;
    assert(out@ =~= plain_lines(all.take(0)));
    while i < ls.len()
        invariant
            i <= ls@.len(),
            all == rows(ls@),
            fence@ == "```"@,
            open == fence_open(all.take(i as int)),
            out@ == plain_lines(all.take(i as int)),
        decreases ls@.len() - i,
    {
        let line = &ls[i];
        let ghost before = out@;
        proof {
            assert(all.take(i + 1).drop_last() =~= all.take(i as int));
            assert(all.take(i + 1).last() == line@);
        }
        let marks = begins(trimmed_start(line), &fence);
        if marks || open {
            push_chars(&mut out, line);
        } else {
            let plain = strip_emphasis_in_line(line);
            push_chars(&mut out, &plain);
        }
        let ghost middle = out@;
        out.push('\n');
        assert(out@ =~= middle + seq!['\n']);
        if marks {
            open = !open;
        }
        i += 1;
    }
    assert(all.take(i as int) =~= all);
    let n: usize = s.len();
    if (n == 0 || s[n - 1] != '\n') && out.len() > 0 {
        let _ = out.pop();
    }
    out
}

/// What stands between `<tag>` and `</tag>`.
pub open spec fn tag_content(s: Seq<char>, tag: Seq<char>) -> Option<Seq<char>> {
    let open = "<"@ + tag + ">"@;
    let close = "</"@ + tag + ">"@;
    let at = find_text(s, open);
    if at < 0 {
        None
    } else {
        let rest = s.skip(at + open.len());
        let end = find_text(rest, close);
        if end < 0 {
            None
        } else {
            Some(rest.take(end))
        }
    }
}

/// What stands between `<tag>` and `</tag>`.
pub fn extract_xml_tag(s: &[char], tag: &str) -> (r: Option<Vec<char>>)
    ensures
        match r {
            Some(v) => tag_content(s@, tag@) == Some(v@),
            None => tag_content(s@, tag@) is None,
        },
{
    let mut open = "<".to_string();
    open.append(tag);
    open.append(">");
    let mut close = "</".to_string();
    close.append(tag);
    close.append(">");
    let open = chars_of(open.as_str());
    let close = chars_of(close.as_str());
    let n: usize = s.len();
    match find_at(s, &open, 0) {
        Some(at) => {
            let rest = slice_subrange(s, at + open.len(), n);
            assert(rest@ =~= s@.skip(at + open@.len()));
            match find_at(rest, &close, 0) {
                Some(end) => {
                    let inner = slice_subrange(rest, 0, end);
                    assert(inner@ =~= rest@.take(end as int));
                    Some(vstd::slice::slice_to_vec(inner))
                },
                None => None,
            }
        },
        None => None,
    }
}

/// One section: its heading and the content of its tag, if it has any.
pub open spec fn section(s: Seq<char>, tag: Seq<char>, heading: Seq<char>) -> Seq<char> {
    match tag_content(s, tag) {
        Some(c) => heading + "\n"@ + trim_end(plain_text(trim(c))) + "\n\n"@,
        None => Seq::empty(),
    }
}

/// The sections of an answer.
pub open spec fn sections(s: Seq<char>) -> Seq<char> {
    section(s, "summary"@, "## Summary"@) + section(s, "flow"@, "## Flow"@) + section(
        s,
        "focus"@,
        "## Where to focus"@,
    )
}

/// The answer in Markdown: its sections, or all of it where it has none.
pub open spec fn answer_markdown(s: Seq<char>) -> Seq<char> {
    if sections(s).len() == 0 {
        plain_text(s)
    } else {
        trim_end(sections(s))
    }
}

fn push_section(out: &mut String, s: &[char], tag: &str, heading: &str)
    ensures
        final(out)@ == old(out)@ + section(s@, tag@, heading@),
{
    let ghost before = out@;
    match extract_xml_tag(s, tag) {
        Some(content) => {
            let plain = strip_markdown_emphasis(trimmed(&content));
            let body = string_of(trimmed_end(&plain));
            out.append(heading);
            out.append("\n");
            out.append(body.as_str());
            out.append("\n\n");
            assert(out@ =~= before + (heading@ + "\n"@ + body@ + "\n\n"@));
        },
        None => {
            assert(out@ =~= before + Seq::<char>::empty());
        },
    }
}

/// Makes Markdown of a model's tagged answer.
pub fn xml_to_markdown(s: &str) -> (r: String)
    ensures
        r@ == answer_markdown(s@),
{
    let cs = chars_of(s);
    let mut out = String::new();
    let ghost a = section(s@, "summary"@, "## Summary"@);
    let ghost b = section(s@, "flow"@, "## Flow"@);
    let ghost c = section(s@, "focus"@, "## Where to focus"@);
    push_section(&mut out, &cs, "summary", "## Summary");
    push_section(&mut out, &cs, "flow", "## Flow");
    push_section(&mut out, &cs, "focus", "## Where to focus");
    assert(out@ =~= a + b + c);
    if out.as_str().is_empty() {
        string_of(&strip_markdown_emphasis(&cs))
    } else {
        let all = chars_of(out.as_str());
        string_of(trimmed_end(&all))
    }
}

} // verus!
