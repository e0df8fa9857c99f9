//! Names of channels: HTTP routes, MQTT topics and glob patterns, how they are
//! brought into a normal form and when they match.

use vstd::prelude::*;
use vstd::slice::slice_subrange;
use vstd::string::*;
use crate::text::{
    all_lack, begins, char_at, chars_of, find_char, join, join_texts, lacks, lemma_join_lacks,
    lemma_join_leading, lemma_non_empty, lemma_split_append, lemma_split_join, lemma_split_lacks,
    non_empty, non_empty_parts, opt_text, rows, same_chars, same_text, split, split_at_char,
    starts_with, string_of, texts,
};

verus! {

/// A text matches a glob: `*` stands for any run of characters, `?` for any
/// one character, and any other character for itself.
pub open spec fn globs(pattern: Seq<char>, text: Seq<char>) -> bool
    decreases pattern.len() + text.len(),
{
    if pattern.len() == 0 {
        text.len() == 0
    } else if pattern[0] == '*' {
        globs(pattern.skip(1), text) || (text.len() > 0 && globs(pattern, text.skip(1)))
    } else {
        text.len() > 0 && (pattern[0] == '?' || pattern[0] == text[0]) && globs(
            pattern.skip(1),
            text.skip(1),
        )
    }
}

/// The rest of the pattern from `p` matches the rest of the text from `t`.
spec fn globs_at(pattern: Seq<char>, text: Seq<char>, p: int, t: int) -> bool {
    globs(pattern.skip(p), text.skip(t))
}

/// The pattern from `a` on stands, character for character, for the text from
/// `b` on, over the length `n`, without a `*`.
spec fn literal_run(pattern: Seq<char>, text: Seq<char>, a: int, b: int, n: int) -> bool {
    forall|i: int|
        0 <= i < n ==> #[trigger] pattern[a + i] != '*' && (pattern[a + i] == '?' || pattern[a + i]
            == text[b + i])
}

proof fn lemma_globs_at_step(pattern: Seq<char>, text: Seq<char>, p: int, t: int)
    requires
        0 <= p < pattern.len(),
        0 <= t <= text.len(),
    ensures
        pattern[p] == '*' ==> globs_at(pattern, text, p, t) == (globs_at(pattern, text, p + 1, t)
            || (t < text.len() && globs_at(pattern, text, p, t + 1))),
        pattern[p] != '*' ==> globs_at(pattern, text, p, t) == (t < text.len() && (pattern[p] == '?'
            || pattern[p] == text[t]) && globs_at(pattern, text, p + 1, t + 1)),
{
    assert(pattern.skip(p)[0] == pattern[p]);
    assert(pattern.skip(p).skip(1) =~= pattern.skip(p + 1));
    if t < text.len() {
        assert(text.skip(t)[0] == text[t]);
        assert(text.skip(t).skip(1) =~= text.skip(t + 1));
    }
}

proof fn lemma_star_absorbs(pattern: Seq<char>, text: Seq<char>, p: int, t: int, later: int)
    requires
        0 <= p < pattern.len(),
        pattern[p] == '*',
        0 <= t <= later <= text.len(),
        globs_at(pattern, text, p, later),
    ensures
        globs_at(pattern, text, p, t),
    decreases later - t,
{
    if t < later {
        lemma_star_absorbs(pattern, text, p, t + 1, later);
        lemma_globs_at_step(pattern, text, p, t);
    }
}

/// A `*` matches from `t` exactly where what follows it matches from some
/// later place.
proof fn lemma_star_starts(pattern: Seq<char>, text: Seq<char>, p: int, t: int)
    requires
        0 <= p < pattern.len(),
        pattern[p] == '*',
        0 <= t <= text.len(),
        globs_at(pattern, text, p, t),
    ensures
        exists|k: int| t <= k <= text.len() && #[trigger] globs_at(pattern, text, p + 1, k),
    decreases text.len() - t,
{
    lemma_globs_at_step(pattern, text, p, t);
    if !globs_at(pattern, text, p + 1, t) {
        lemma_star_starts(pattern, text, p, t + 1);
    }
}

proof fn lemma_literal_run(pattern: Seq<char>, text: Seq<char>, a: int, b: int, n: int)
    requires
        0 <= a,
        0 <= b,
        0 <= n,
        a + n <= pattern.len(),
        b + n <= text.len(),
        literal_run(pattern, text, a, b, n),
    ensures
        globs_at(pattern, text, a, b) == globs_at(pattern, text, a + n, b + n),
    decreases n,
{
    if n > 0 {
        assert(pattern[a + 0] != '*');
        lemma_globs_at_step(pattern, text, a, b);
        assert forall|i: int| 0 <= i < n - 1 implies #[trigger] pattern[(a + 1) + i] != '*' && (
        pattern[(a + 1) + i] == '?' || pattern[(a + 1) + i] == text[(b + 1) + i]) by {
            assert(pattern[a + (i + 1)] != '*');
        }
        lemma_literal_run(pattern, text, a + 1, b + 1, n - 1);
    }
}

/// Where a run of pattern characters without `*` matches from `k`, the text is
/// long enough, and what follows matches behind it.
proof fn lemma_run_fits(pattern: Seq<char>, text: Seq<char>, a: int, n: int, k: int)
    requires
        0 <= a,
        0 <= n,
        a + n <= pattern.len(),
        0 <= k <= text.len(),
        forall|i: int| 0 <= i < n ==> #[trigger] pattern[a + i] != '*',
        globs_at(pattern, text, a, k),
    ensures
        k + n <= text.len(),
        globs_at(pattern, text, a + n, k + n),
    decreases n,
{
    if n > 0 {
        assert(pattern[a + 0] != '*');
        lemma_globs_at_step(pattern, text, a, k);
        assert forall|i: int| 0 <= i < n - 1 implies #[trigger] pattern[(a + 1) + i] != '*' by {
            assert(pattern[a + (i + 1)] != '*');
        }
        lemma_run_fits(pattern, text, a + 1, n - 1, k + 1);
    }
}

/// Behind the end of the text only `*` match.
proof fn lemma_globs_end(pattern: Seq<char>, text: Seq<char>, p: int)
    requires
        0 <= p <= pattern.len(),
    ensures
        p == pattern.len() ==> globs_at(pattern, text, p, text.len() as int),
        p < pattern.len() ==> globs_at(pattern, text, p, text.len() as int) == (pattern[p] == '*'
            && globs_at(pattern, text, p + 1, text.len() as int)),
{
    if p < pattern.len() {
        lemma_globs_at_step(pattern, text, p, text.len() as int);
    }
}

/// Whether `text` matches the glob `pattern`.
pub fn glob_match(pattern: &str, text: &str) -> (r: bool)
    ensures
        r == globs(pattern@, text@),
{
    let pc = chars_of(pattern);
    let tc = chars_of(text);
    let ghost ps = pc@;
    let ghost ts = tc@;
    let mut p: usize = 0;
    let mut t: usize = 0;
    let mut star: Option<usize> = None;
    let mut star_t: usize = 0;
    proof {
        assert(ps.skip(0) =~= ps);
        assert(ts.skip(0) =~= ts);
    }
    while t < tc.len()
        invariant
            ps == pc@,
            ts == tc@,
            ps == pattern@,
            ts == text@,
            p <= ps.len(),
            t <= ts.len(),
            star_t <= t,
            star is None ==> star_t == 0 && globs(ps, ts) == globs_at(
                ps,
                ts,
                p as int,
                t as int,
            ),
            star matches Some(sp) ==> {
                &&& sp < ps.len()
                &&& ps[sp as int] == '*'
                &&& p - (sp + 1) == t - star_t
                &&& literal_run(ps, ts, sp + 1, star_t as int, t - star_t)
                &&& globs(ps, ts) == globs_at(ps, ts, sp as int, star_t as int)
            },
        decreases ts.len() - star_t, ps.len() - p,
    {
        proof {
            if p < ps.len() {
                lemma_globs_at_step(ps, ts, p as int, t as int);
            }
        }
        if p < pc.len() && pc[p] == '*' {
            proof {
                if let Some(sp) = star {
                    let n = t - star_t;
                    lemma_literal_run(ps, ts, sp + 1, star_t as int, n);
                    lemma_globs_at_step(ps, ts, sp as int, star_t as int);
                    if globs_at(ps, ts, sp as int, star_t as int) {
                        lemma_star_starts(ps, ts, sp as int, star_t as int);
                        let k = choose|k: int|
                            star_t <= k <= ts.len() && #[trigger] globs_at(ps, ts, sp + 1, k);
                        assert forall|i: int| 0 <= i < n implies #[trigger] ps[(sp + 1) + i]
                            != '*' by {}
                        lemma_run_fits(ps, ts, sp + 1, n, k);
                        lemma_star_absorbs(ps, ts, p as int, t as int, k + n);
                    }
                }
            }
            star = Some(p);
            star_t = t;
            p += 1;
        } else if p < pc.len() && (pc[p] == '?' || pc[p] == tc[t]) {
            proof {
                if let Some(sp) = star {
                    let n = t - star_t;
                    assert forall|i: int| 0 <= i < n + 1 implies #[trigger] ps[(sp + 1) + i] != '*'
                        && (ps[(sp + 1) + i] == '?' || ps[(sp + 1) + i] == ts[star_t + i]) by {
                        if i == n {
                            assert((sp + 1) + i == p);
                            assert(star_t + i == t);
                        }
                    }
                }
            }
            p += 1;
            t += 1;
        } else if let Some(sp) = star {
            proof {
                let n = t - star_t;
                lemma_literal_run(ps, ts, sp + 1, star_t as int, n);
                lemma_globs_at_step(ps, ts, sp as int, star_t as int);
                if p == ps.len() {
                    assert(ps.skip(p as int).len() == 0);
                    assert(ts.skip(t as int).len() > 0);
                }
            }
            p = sp + 1;
            star_t += 1;
            t = star_t;
        } else {
            proof {
                if p == ps.len() {
                    assert(ps.skip(p as int).len() == 0);
                    assert(ts.skip(t as int).len() > 0);
                }
            }
            return false;
        }
    }
    proof {
        if let Some(sp) = star {
            let n = t - star_t;
            lemma_literal_run(ps, ts, sp + 1, star_t as int, n);
            lemma_globs_at_step(ps, ts, sp as int, star_t as int);
            if globs_at(ps, ts, sp as int, star_t as int) {
                lemma_star_starts(ps, ts, sp as int, star_t as int);
                let k = choose|k: int|
                    star_t <= k <= ts.len() && #[trigger] globs_at(ps, ts, sp + 1, k);
                assert forall|i: int| 0 <= i < n implies #[trigger] ps[(sp + 1) + i] != '*' by {}
                lemma_run_fits(ps, ts, sp + 1, n, k);
            }
        }
    }
    while p < pc.len() && pc[p] == '*'
        invariant
            ps == pc@,
            p <= ps.len(),
            globs(ps, ts) == globs_at(ps, ts, p as int, ts.len() as int),
        decreases ps.len() - p,
    {
        proof {
            lemma_globs_end(ps, ts, p as int);
        }
        p += 1;
    }
    proof {
        lemma_globs_end(ps, ts, p as int);
    }
    p == pc.len()
}

/// A text without `*` and `?` matches itself and nothing else.
pub proof fn lemma_glob_literal(pattern: Seq<char>, text: Seq<char>)
    requires
        forall|i: int| 0 <= i < pattern.len() ==> pattern[i] != '*' && pattern[i] != '?',
    ensures
        globs(pattern, text) == (pattern == text),
    decreases pattern.len(),
{
    if pattern.len() == 0 {
        assert(text.len() == 0 ==> pattern =~= text);
    } else if text.len() > 0 {
        let p = pattern.skip(1);
        let t = text.skip(1);
        assert forall|i: int| 0 <= i < p.len() implies p[i] != '*' && p[i] != '?' by {
            assert(p[i] == pattern[i + 1]);
        }
        lemma_glob_literal(p, t);
        if pattern[0] == text[0] && p == t {
            assert forall|i: int| 0 <= i < pattern.len() implies pattern[i] == text[i] by {
                if i > 0 {
                    assert(p[i - 1] == t[i - 1]);
                }
            }
            assert(p.len() == t.len());
            assert(pattern =~= text);
        }
    }
}

/// The pattern `*` matches everything.
pub proof fn lemma_glob_star(text: Seq<char>)
    ensures
        globs(seq!['*'], text),
    decreases text.len(),
{
    if text.len() > 0 {
        lemma_glob_star(text.skip(1));
    } else {
        assert(seq!['*'].skip(1) =~= Seq::<char>::empty());
        assert(globs(seq!['*'].skip(1), text));
    }
}

/// The segments of a path: what stands between slashes, empty parts left out.
pub open spec fn path_segments(path: Seq<char>) -> Seq<Seq<char>> {
    non_empty(split(path, '/'))
}

/// The segments of a path.
pub fn segments_of(path: &[char]) -> (r: Vec<String>)
    ensures
        texts(r@) == path_segments(path@),
{
    non_empty_parts(&split_at_char(path, '/'))
}

/// The path before its query and fragment.
pub open spec fn before_query(path: Seq<char>) -> Seq<char>
    decreases path.len(),
{
    if path.len() == 0 {
        path
    } else if path[0] == '?' || path[0] == '#' {
        Seq::empty()
    } else {
        seq![path[0]] + before_query(path.skip(1))
    }
}

proof fn lemma_before_query(path: Seq<char>, n: int)
    requires
        0 <= n <= path.len(),
        forall|i: int| 0 <= i < n ==> path[i] != '?' && path[i] != '#',
        n == path.len() || path[n] == '?' || path[n] == '#',
    ensures
        before_query(path) == path.take(n),
    decreases n,
{
    if n > 0 {
        let rest = path.skip(1);
        assert forall|i: int| 0 <= i < n - 1 implies rest[i] != '?' && rest[i] != '#' by {
            assert(rest[i] == path[i + 1]);
        }
        if n < path.len() {
            assert(rest[n - 1] == path[n]);
        }
        lemma_before_query(rest, n - 1);
        assert(seq![path[0]] + rest.take(n - 1) =~= path.take(n));
    } else {
        assert(path.take(0) =~= Seq::<char>::empty());
    }
}

/// A segment that names a parameter: `:id`, `{id}` or `<id>`.
pub open spec fn is_param(segment: Seq<char>) -> bool {
    segment.len() > 0 && (segment[0] == ':' || (segment[0] == '{' && segment.last() == '}') || (
    segment[0] == '<' && segment.last() == '>'))
}

/// A segment in its normal form: a parameter loses its name.
pub open spec fn plain_segment(segment: Seq<char>) -> Seq<char> {
    if is_param(segment) {
        "{}"@
    } else {
        segment
    }
}

/// Segments in their normal form.
pub open spec fn plain_segments(segments: Seq<Seq<char>>) -> Seq<Seq<char>> {
    Seq::new(segments.len(), |i: int| plain_segment(segments[i]))
}

/// A route in its normal form: parameters without names, no query, fragment,
/// doubled or trailing slash.
pub open spec fn normal_route(path: Seq<char>) -> Seq<char> {
    "/"@ + join(plain_segments(path_segments(before_query(path))), "/"@)
}

/// Brings an HTTP route or client path into its normal form.
pub fn normalize_http_route(path: &str) -> (r: String)
    ensures
        r@ == normal_route(path@),
{
    let cs = chars_of(path);
    let mut n: usize = 0;
    while n < cs.len() && cs[n] != '?' && cs[n] != '#'
        invariant
            n <= cs@.len(),
            forall|i: int| 0 <= i < n ==> cs@[i] != '?' && cs@[i] != '#',
        decreases cs@.len() - n,
    {
        n += 1;
    }
    let head = slice_subrange(&cs, 0, n);
    proof {
        lemma_before_query(cs@, n as int);
        assert(head@ =~= cs@.take(n as int));
    }
    let segments = segments_of(head);
    let ghost want = plain_segments(texts(segments@));
    let mut plain: Vec<String> = Vec::new();
    let mut i: usize = 0;
    while i < segments.len()
        invariant
            i <= segments@.len(),
            want == plain_segments(texts(segments@)),
            texts(plain@) == want.take(i as int),
        decreases segments@.len() - i,
    {
        let ghost before = plain@;
        let s = chars_of(segments[i].as_str());
        let param = s.len() > 0 && (s[0] == ':' || (s[0] == '{' && s[s.len() - 1] == '}') || (s[0]
            == '<' && s[s.len() - 1] == '>'));
        let one = if param {
            "{}".to_string()
        } else {
            segments[i].clone()
        };
        let ghost o = one@;
        plain.push(one);
        proof {
            assert(texts(segments@)[i as int] == segments@[i as int]@);
            assert(texts(plain@) =~= texts(before).push(o));
            assert(want.take(i + 1) =~= want.take(i as int).push(o));
        }
        i += 1;
    }
    assert(want.take(i as int) =~= want);
    let mut r = "/".to_string();
    r.append(join_texts(&plain, "/").as_str());
    r
}

/// The segments of a route in its normal form are the segments that it was
/// made of.
pub proof fn lemma_normal_route_segments(path: Seq<char>)
    ensures
        path_segments(normal_route(path)) == plain_segments(path_segments(before_query(path))),
        before_query(normal_route(path)) == normal_route(path),
{
    let head = before_query(path);
    let raw = path_segments(head);
    let segs = plain_segments(raw);
    let slash = "/"@;
    let e = Seq::<char>::empty();
    reveal_strlit("/");
    reveal_strlit("{}");
    assert(slash =~= seq!['/']);
    lemma_head_clean(path);
    lemma_split_lacks(head, '/', '?');
    lemma_split_lacks(head, '/', '#');
    lemma_non_empty(split(head, '/'));
    assert(all_lack(raw, '/') && all_lack(raw, '?') && all_lack(raw, '#'));
    assert forall|k: int| 0 <= k < segs.len() implies (#[trigger] segs[k]).len() > 0 && lacks(
        segs[k],
        '/',
    ) && lacks(segs[k], '?') && lacks(segs[k], '#') by {
        assert(raw[k].len() > 0);
        assert(lacks(raw[k], '/') && lacks(raw[k], '?') && lacks(raw[k], '#'));
        assert(lacks("{}"@, '/') && lacks("{}"@, '?') && lacks("{}"@, '#'));
    }
    let r = normal_route(path);
    lemma_join_lacks(segs, slash, '?');
    lemma_join_lacks(segs, slash, '#');
    assert forall|i: int| 0 <= i < r.len() implies r[i] != '?' && r[i] != '#' by {
        if i > 0 {
            assert(r[i] == join(segs, slash)[i - 1]);
        }
    }
    lemma_before_query(r, r.len() as int);
    assert(r.take(r.len() as int) =~= r);
    if segs.len() == 0 {
        assert(r =~= e + seq!['/'] + e);
        lemma_split_append(e, '/', e);
        assert(split(e, '/') =~= seq![e]);
        assert(split(r, '/') =~= seq![e, e]);
        assert(seq![e, e].drop_last() =~= seq![e]);
        assert(seq![e].drop_last() =~= Seq::<Seq<char>>::empty());
        assert(non_empty(seq![e].drop_last()) =~= Seq::<Seq<char>>::empty());
        assert(non_empty(seq![e]) =~= Seq::<Seq<char>>::empty());
        assert(non_empty(seq![e, e]) =~= Seq::<Seq<char>>::empty());
        assert(segs =~= Seq::<Seq<char>>::empty());
    } else {
        let all = seq![e] + segs;
        lemma_join_leading(segs, slash);
        assert(all_lack(all, '/')) by {
            assert forall|k: int| 0 <= k < all.len() implies lacks(#[trigger] all[k], '/') by {
                if k > 0 {
                    assert(all[k] == segs[k - 1]);
                }
            }
        }
        lemma_split_join(all, '/');
        lemma_non_empty_leading(segs);
        lemma_non_empty(segs);
    }
}

proof fn lemma_non_empty_leading(parts: Seq<Seq<char>>)
    ensures
        non_empty(seq![Seq::<char>::empty()] + parts) == non_empty(parts),
    decreases parts.len(),
{
    let e = Seq::<char>::empty();
    let all = seq![e] + parts;
    if parts.len() == 0 {
        assert(all.drop_last() =~= parts);
        assert(all.last() == e);
    } else {
        assert(all.last() == parts.last());
        assert(all.drop_last() =~= seq![e] + parts.drop_last());
        lemma_non_empty_leading(parts.drop_last());
    }
}

proof fn lemma_head_clean(path: Seq<char>)
    ensures
        lacks(before_query(path), '?'),
        lacks(before_query(path), '#'),
    decreases path.len(),
{
    if path.len() > 0 && path[0] != '?' && path[0] != '#' {
        lemma_head_clean(path.skip(1));
        let b = before_query(path);
        let rest = before_query(path.skip(1));
        assert forall|i: int| 0 <= i < b.len() implies b[i] != '?' && b[i] != '#' by {
            if i > 0 {
                assert(b[i] == rest[i - 1]);
            }
        }
    }
}

/// A normal form is its own normal form.
pub proof fn lemma_normal_route_idempotent(path: Seq<char>)
    ensures
        normal_route(normal_route(path)) == normal_route(path),
{
    lemma_normal_route_segments(path);
    let segs = plain_segments(path_segments(before_query(path)));
    reveal_strlit("{}");
    assert(is_param("{}"@));
    assert(plain_segments(segs) =~= segs);
}

/// A route matches its own normal form: names of parameters do not matter.
pub proof fn lemma_route_matches_normal(path: Seq<char>)
    ensures
        route_matches(before_query(path), normal_route(path)),
{
    lemma_normal_route_segments(path);
}

/// The host and the path of a URL; anything else is a path without a host.
pub open spec fn url_parts(raw: Seq<char>) -> (Option<Seq<char>>, Seq<char>) {
    if starts_with(raw, "http://"@) {
        rest_parts(raw.skip("http://"@.len() as int))
    } else if starts_with(raw, "https://"@) {
        rest_parts(raw.skip("https://"@.len() as int))
    } else {
        (None, raw)
    }
}

/// The host and the path of what follows a scheme.
pub open spec fn rest_parts(rest: Seq<char>) -> (Option<Seq<char>>, Seq<char>) {
    let slash = find_char(rest, '/');
    if slash >= 0 {
        (Some(rest.take(slash)), rest.skip(slash))
    } else {
        (Some(rest), "/"@)
    }
}

fn split_rest(rest: &[char]) -> (r: (Option<String>, String))
    ensures
        (opt_text(r.0), r.1@) == rest_parts(rest@),
{
    match char_at(rest, '/', 0) {
        Some(slash) => {
            assert(rest@.subrange(0, slash as int) =~= rest@.take(slash as int));
            assert(rest@.subrange(slash as int, rest@.len() as int) =~= rest@.skip(slash as int));
            (
                Some(string_of(slice_subrange(rest, 0, slash))),
                string_of(slice_subrange(rest, slash, rest.len())),
            )
        },
        None => (Some(string_of(rest)), "/".to_string()),
    }
}

/// Splits an HTTP client URL into its host and its path.
pub fn split_http_url(raw: &str) -> (r: (Option<String>, String))
    ensures
        (opt_text(r.0), r.1@) == url_parts(raw@),
{
    let cs = chars_of(raw);
    let plain = chars_of("http://");
    let secure = chars_of("https://");
    if begins(&cs, &plain) {
        let rest = slice_subrange(&cs, plain.len(), cs.len());
        assert(rest@ =~= raw@.skip("http://"@.len() as int));
        return split_rest(rest);
    }
    if begins(&cs, &secure) {
        let rest = slice_subrange(&cs, secure.len(), cs.len());
        assert(rest@ =~= raw@.skip("https://"@.len() as int));
        return split_rest(rest);
    }
    (None, raw.to_string())
}

/// Two segments match: they are equal, or one of them is a parameter.
pub open spec fn segment_matches(a: Seq<char>, b: Seq<char>) -> bool {
    a == b || a == "{}"@ || b == "{}"@
}

/// Two lists of segments match, place by place.
pub open spec fn segments_match(a: Seq<Seq<char>>, b: Seq<Seq<char>>) -> bool {
    a.len() == b.len() && forall|i: int|
        0 <= i < a.len() ==> segment_matches(#[trigger] a[i], #[trigger] b[i])
}

/// A client path matches a server's route.
pub open spec fn route_matches(client: Seq<char>, server: Seq<char>) -> bool {
    segments_match(path_segments(client), path_segments(server))
}

/// Whether a client path matches a server's route, segment by segment.
pub fn http_route_matches(client_path: &str, server_template: &str) -> (r: bool)
    ensures
        r == route_matches(client_path@, server_template@),
{
    let c = chars_of(client_path);
    let s = chars_of(server_template);
    let client = segments_of(&c);
    let server = segments_of(&s);
    let ghost a = texts(client@);
    let ghost b = texts(server@);
    if client.len() != server.len() {
        assert(a.len() != b.len());
        return false;
    }
    let mut i: usize = 0;
    while i < client.len()
        invariant
            i <= client@.len(),
            client@.len() == server@.len(),
            a == texts(client@),
            b == texts(server@),
            a == path_segments(client_path@),
            b == path_segments(server_template@),
            forall|k: int| 0 <= k < i ==> segment_matches(#[trigger] a[k], #[trigger] b[k]),
        decreases client@.len() - i,
    {
        let x = client[i].as_str();
        let y = server[i].as_str();
        assert(a[i as int] == x@ && b[i as int] == y@);
        if !(same_text(x, y) || same_text(x, "{}") || same_text(y, "{}")) {
            assert(!segment_matches(a[i as int], b[i as int]));
            return false;
        }
        i += 1;
    }
    true
}

/// Matching of routes is symmetric: `{}` stands for any segment on either
/// side.
pub proof fn lemma_route_matches_symmetric(a: Seq<char>, b: Seq<char>)
    ensures
        route_matches(a, b) == route_matches(b, a),
{
    let x = path_segments(a);
    let y = path_segments(b);
    if route_matches(a, b) {
        assert forall|i: int| 0 <= i < y.len() implies segment_matches(
            #[trigger] y[i],
            #[trigger] x[i],
        ) by {
            assert(segment_matches(x[i], y[i]));
        }
    }
    if route_matches(b, a) {
        assert forall|i: int| 0 <= i < x.len() implies segment_matches(
            #[trigger] x[i],
            #[trigger] y[i],
        ) by {
            assert(segment_matches(y[i], x[i]));
        }
    }
}

/// Every route matches itself.
pub proof fn lemma_route_matches_itself(a: Seq<char>)
    ensures
        route_matches(a, a),
{
}

/// A topic matches a subscription: `+` stands for one segment, `#` for all
/// that follow, if any.
pub open spec fn topic_matches(pattern: Seq<Seq<char>>, topic: Seq<Seq<char>>) -> bool
    decreases pattern.len(),
{
    if pattern.len() == 0 {
        topic.len() == 0
    } else if pattern[0] == "#"@ {
        true
    } else {
        topic.len() > 0 && (pattern[0] == "+"@ || pattern[0] == topic[0]) && topic_matches(
            pattern.skip(1),
            topic.skip(1),
        )
    }
}

/// Whether a topic matches a subscription.
pub fn mqtt_topic_matches(pattern: &str, topic: &str) -> (r: bool)
    ensures
        r == topic_matches(split(pattern@, '/'), split(topic@, '/')),
{
    let p = chars_of(pattern);
    let t = chars_of(topic);
    let ps = split_at_char(&p, '/');
    let ts = split_at_char(&t, '/');
    let hash = chars_of("#");
    let plus = chars_of("+");
    let ghost a = rows(ps@);
    let ghost b = rows(ts@);
    let mut i: usize = 0;
    assert(a.skip(0) =~= a);
    assert(b.skip(0) =~= b);
    while i < ps.len()
        invariant
            i <= ps@.len(),
            i <= ts@.len(),
            a == rows(ps@),
            b == rows(ts@),
            a == split(pattern@, '/'),
            b == split(topic@, '/'),
            hash@ == "#"@,
            plus@ == "+"@,
            topic_matches(a, b) == topic_matches(a.skip(i as int), b.skip(i as int)),
        decreases ps@.len() - i,
    {
        let ghost x = a.skip(i as int);
        let ghost y = b.skip(i as int);
        proof {
            assert(x[0] == ps@[i as int]@);
            assert(x.skip(1) =~= a.skip(i + 1));
        }
        if same_chars(&ps[i], &hash) {
            return true;
        }
        if i >= ts.len() {
            return false;
        }
        proof {
            assert(y[0] == ts@[i as int]@);
            assert(y.skip(1) =~= b.skip(i + 1));
        }
        if !same_chars(&ps[i], &plus) && !same_chars(&ps[i], &ts[i]) {
            return false;
        }
        i += 1;
    }
    assert(a.skip(i as int).len() == 0);
    ps.len() == ts.len()
}

/// A subscription without wildcards matches the topic of that name and no
/// other.
pub proof fn lemma_topic_literal(pattern: Seq<Seq<char>>, topic: Seq<Seq<char>>)
    requires
        forall|i: int| 0 <= i < pattern.len() ==> pattern[i] != "#"@ && pattern[i] != "+"@,
    ensures
        topic_matches(pattern, topic) == (pattern == topic),
    decreases pattern.len(),
{
    if pattern.len() == 0 {
        assert(topic.len() == 0 ==> pattern =~= topic);
    } else if topic.len() > 0 {
        let p = pattern.skip(1);
        let t = topic.skip(1);
        assert forall|i: int| 0 <= i < p.len() implies p[i] != "#"@ && p[i] != "+"@ by {
            assert(p[i] == pattern[i + 1]);
        }
        lemma_topic_literal(p, t);
        if pattern[0] == topic[0] && p == t {
            assert(p.len() == t.len());
            assert forall|i: int| 0 <= i < pattern.len() implies pattern[i] == topic[i] by {
                if i > 0 {
                    assert(p[i - 1] == t[i - 1]);
                }
            }
            assert(pattern =~= topic);
        }
    }
}

} // verus!
