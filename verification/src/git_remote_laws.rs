//! What the canonical form of a remote promises: it does not depend on how the
//! repository was cloned.

use vstd::prelude::*;
use crate::git_remote::{
    after_first, before_first, canonical_remote, host_and_path, namespace_name, without_git,
    without_scheme,
};
use crate::text::{
    contains_text, ends_with, find_char, find_text, is_space, lacks, lemma_find_char_from,
    lemma_find_from, occurs_at, strip_end, strip_start, trim, trim_start,
};
use crate::unicode::{ascii_lower, ascii_lower_char, lemma_ascii_lower_idempotent};

verus! {

/// A host: not empty, without the characters that end it, and without space
/// around it.
pub open spec fn plain_host(h: Seq<char>) -> bool {
    &&& h.len() > 0
    &&& !is_space(h[0])
    &&& !is_space(h.last())
    &&& lacks(h, '/')
    &&& lacks(h, ':')
    &&& lacks(h, '@')
}

/// A path, written with the suffix: not empty, without slash or space in front.
/// Written without a suffix it also ends in no slash, space or suffix.
pub open spec fn plain_path(p: Seq<char>, suffix: Seq<char>) -> bool {
    &&& p.len() > 0
    &&& !is_space(p[0])
    &&& p[0] != '/'
    &&& suffix == ".git"@ || (suffix == ""@ && !is_space(p.last()) && p.last() != '/' && !ends_with(
        p,
        ".git"@,
    ))
}

/// Nothing but slashes.
pub open spec fn is_slashes(s: Seq<char>) -> bool {
    forall|i: int| 0 <= i < s.len() ==> #[trigger] s[i] == '/'
}

/// What can stand round a path.
pub struct WrittenPath {
    pub front: Seq<char>,
    pub suffix: Seq<char>,
    pub back: Seq<char>,
}

impl WrittenPath {
    /// The path with what stands round it.
    pub open spec fn around(self, p: Seq<char>) -> Seq<char> {
        self.front + p + self.suffix + self.back
    }
}

/// A way to write the path `p`: with or without its suffix, and with slashes
/// round it.
pub open spec fn writes_path(w: WrittenPath, p: Seq<char>) -> bool {
    plain_path(p, w.suffix) && is_slashes(w.front) && is_slashes(w.back)
}

/// A path with nothing round it.
pub open spec fn bare() -> WrittenPath {
    WrittenPath { front: Seq::empty(), suffix: Seq::empty(), back: Seq::empty() }
}

proof fn lemma_find_char_is(s: Seq<char>, c: char, i: int)
    requires
        0 <= i < s.len(),
        s[i] == c,
        forall|k: int| 0 <= k < i ==> s[k] != c,
    ensures
        find_char(s, c) == i,
{
    lemma_find_char_from(s, c, 0);
}

proof fn lemma_no_char(s: Seq<char>, c: char)
    requires
        lacks(s, c),
    ensures
        find_char(s, c) < 0,
{
    lemma_find_char_from(s, c, 0);
}

proof fn lemma_without_scheme(scheme: Seq<char>, rest: Seq<char>)
    requires
        lacks(scheme, ':'),
    ensures
        without_scheme(scheme + "://"@ + rest) == rest,
        contains_text(scheme + "://"@ + rest, "://"@),
{
    reveal_strlit("://");
    let mark = "://"@;
    let s = scheme + mark + rest;
    let n = scheme.len() as int;
    assert(s.subrange(n, n + 3) =~= mark);
    assert(occurs_at(s, mark, n));
    lemma_find_from(s, mark, 0);
    assert forall|i: int| 0 <= i < n implies !occurs_at(s, mark, i) by {
        if occurs_at(s, mark, i) {
            assert(s.subrange(i, i + 3)[0] == mark[0]);
            assert(s[i] == scheme[i]);
        }
    }
    assert(find_text(s, mark) == n);
    assert(s.skip(n + 3) =~= rest);
}

proof fn lemma_after_user(user: Seq<char>, rest: Seq<char>)
    requires
        lacks(user, '@'),
    ensures
        after_first(user + "@"@ + rest, '@') == rest,
{
    reveal_strlit("@");
    let s = user + "@"@ + rest;
    lemma_find_char_is(s, '@', user.len() as int);
    assert(s.skip(user.len() as int + 1) =~= rest);
}

proof fn lemma_strip_front(front: Seq<char>, rest: Seq<char>)
    requires
        is_slashes(front),
        rest.len() > 0,
        rest[0] != '/',
    ensures
        strip_start(front + rest, '/') == rest,
    decreases front.len(),
{
    let s = front + rest;
    if front.len() == 0 {
        assert(s =~= rest);
    } else {
        assert(s[0] == front[0]);
        let f = front.skip(1);
        assert forall|i: int| 0 <= i < f.len() implies #[trigger] f[i] == '/' by {
            assert(f[i] == front[i + 1]);
        }
        assert(s.skip(1) =~= f + rest);
        lemma_strip_front(f, rest);
    }
}

proof fn lemma_strip_back(rest: Seq<char>, back: Seq<char>)
    requires
        is_slashes(back),
        rest.len() > 0,
        rest.last() != '/',
    ensures
        strip_end(rest + back, '/') == rest,
    decreases back.len(),
{
    let s = rest + back;
    if back.len() == 0 {
        assert(s =~= rest);
    } else {
        assert(s.last() == back.last());
        assert(back.last() == back[back.len() - 1]);
        let b = back.drop_last();
        assert forall|i: int| 0 <= i < b.len() implies #[trigger] b[i] == '/' by {
            assert(b[i] == back[i]);
        }
        assert(s.drop_last() =~= rest + b);
        lemma_strip_back(rest, b);
    }
}

/// However a path is written, it has no space at its ends.
proof fn lemma_path_ends(w: WrittenPath, p: Seq<char>)
    requires
        writes_path(w, p),
    ensures
        w.around(p).len() > 0,
        !is_space(w.around(p)[0]),
        !is_space(w.around(p).last()),
        trim(w.around(p)) == w.around(p),
{
    reveal_strlit(".git");
    reveal_strlit("");
    let body = w.around(p);
    if w.front.len() > 0 {
        assert(body[0] == w.front[0]);
    } else {
        assert(body[0] == p[0]);
    }
    if w.back.len() > 0 {
        assert(w.back.last() == w.back[w.back.len() - 1]);
        assert(body.last() == w.back.last());
    } else if w.suffix.len() > 0 {
        assert(body.last() == w.suffix.last());
    } else {
        assert(body.last() == p.last());
    }
    assert(trim_start(body) == body);
}

proof fn lemma_path_found(w: WrittenPath, p: Seq<char>)
    requires
        writes_path(w, p),
    ensures
        without_git(strip_end(strip_start(trim(w.around(p)), '/'), '/')) == p,
{
    reveal_strlit(".git");
    reveal_strlit("");
    lemma_path_ends(w, p);
    let named = p + w.suffix;
    assert(w.around(p) =~= w.front + (named + w.back));
    assert((named + w.back)[0] == p[0]);
    lemma_strip_front(w.front, named + w.back);
    if w.suffix == ".git"@ {
        assert(named.last() == 't');
        assert(named.subrange(p.len() as int, named.len() as int) =~= ".git"@);
        assert(ends_with(named, ".git"@));
        assert(named.take(named.len() - 4) =~= p);
    } else {
        assert(named =~= p);
    }
    lemma_strip_back(named, w.back);
}

proof fn lemma_host_kept(h: Seq<char>, port: Seq<char>, p: Seq<char>, w: WrittenPath)
    requires
        plain_host(h),
        writes_path(w, p),
        port.len() == 0 || port[0] == ':',
    ensures
        host_and_path(h + port, w.around(p)) == Some(ascii_lower(h) + "/"@ + p),
{
    let host = h + port;
    if port.len() == 0 {
        assert(host =~= h);
        lemma_no_char(h, ':');
    } else {
        assert(host[h.len() as int] == port[0]);
        lemma_find_char_is(host, ':', h.len() as int);
        assert(host.take(h.len() as int) =~= h);
    }
    assert(before_first(host, ':') == h);
    assert(trim(h) == h);
    lemma_path_found(w, p);
}

/// What a remote has in front of its host.
pub open spec fn user_part(user: Option<Seq<char>>) -> Seq<char> {
    match user {
        Some(u) => u + "@"@,
        None => Seq::empty(),
    }
}

/// What a remote has behind its host.
pub open spec fn port_part(port: Option<Seq<char>>) -> Seq<char> {
    match port {
        Some(n) => ":"@ + n,
        None => Seq::empty(),
    }
}

/// A remote written as a URL, such as `ssh://git@host:22/path`.
pub open spec fn url_remote(
    scheme: Seq<char>,
    user: Option<Seq<char>>,
    h: Seq<char>,
    port: Option<Seq<char>>,
    path: Seq<char>,
) -> Seq<char> {
    scheme + "://"@ + user_part(user) + h + port_part(port) + "/"@ + path
}

/// A remote written in the short form, such as `git@host:path`.
pub open spec fn short_remote(user: Option<Seq<char>>, h: Seq<char>, path: Seq<char>) -> Seq<char> {
    user_part(user) + h + ":"@ + path
}

/// A remote written without a scheme, such as `host/path`.
pub open spec fn bare_remote(user: Option<Seq<char>>, h: Seq<char>, path: Seq<char>) -> Seq<char> {
    user_part(user) + h + "/"@ + path
}

/// A user in front of a host: without a sign that ends it. Where there is none,
/// what follows has no such sign either.
pub open spec fn plain_user(user: Option<Seq<char>>, p: Seq<char>) -> bool {
    match user {
        Some(u) => lacks(u, '@'),
        None => lacks(p, '@'),
    }
}

/// A user that a remote can begin with.
pub open spec fn begins_plainly(user: Option<Seq<char>>) -> bool {
    user matches Some(u) ==> u.len() == 0 || !is_space(u[0])
}

proof fn lemma_user_removed(user: Option<Seq<char>>, place: Seq<char>)
    requires
        plain_user(user, place),
    ensures
        after_first(user_part(user) + place, '@') == place,
{
    match user {
        Some(u) => {
            lemma_after_user(u, place);
        },
        None => {
            assert(user_part(user) + place =~= place);
            lemma_no_char(place, '@');
        },
    }
}

/// A written path lacks what its path lacks, but for a slash and the letters
/// of a suffix.
proof fn lemma_around_lacks(w: WrittenPath, p: Seq<char>, c: char)
    requires
        writes_path(w, p),
        lacks(p, c),
        c == '@' || c == ':',
    ensures
        lacks(w.around(p), c),
{
    reveal_strlit(".git");
    reveal_strlit("");
    let body = w.around(p);
    let a = w.front.len() as int;
    let b = a + p.len();
    let d = b + w.suffix.len();
    assert forall|i: int| 0 <= i < body.len() implies body[i] != c by {
        if i < a {
            assert(body[i] == w.front[i]);
        } else if i < b {
            assert(body[i] == p[i - a]);
        } else if i < d {
            assert(body[i] == w.suffix[i - b]);
        } else {
            assert(body[i] == w.back[i - d]);
        }
    }
}

/// A remote that is a URL: whatever its scheme, user and port, and whatever
/// stands round its path, its canonical form is the host in small letters and
/// the path.
pub proof fn lemma_url_form(
    scheme: Seq<char>,
    user: Option<Seq<char>>,
    h: Seq<char>,
    port: Option<Seq<char>>,
    p: Seq<char>,
    w: WrittenPath,
)
    requires
        scheme.len() > 0 ==> !is_space(scheme[0]),
        lacks(scheme, ':'),
        plain_user(user, p),
        plain_host(h),
        port matches Some(n) ==> lacks(n, '/') && lacks(n, '@'),
        writes_path(w, p),
    ensures
        canonical_remote(url_remote(scheme, user, h, port, w.around(p))) == Some(
            ascii_lower(h) + "/"@ + p,
        ),
{
    reveal_strlit("://");
    reveal_strlit(":");
    reveal_strlit("/");
    reveal_strlit("@");
    let body = w.around(p);
    let host = h + port_part(port);
    let place = host + "/"@ + body;
    let rest = user_part(user) + place;
    let raw = scheme + "://"@ + rest;
    assert(raw =~= url_remote(scheme, user, h, port, body));
    lemma_path_ends(w, p);
    if scheme.len() > 0 {
        assert(raw[0] == scheme[0]);
    } else {
        assert(raw[0] == ':');
    }
    assert(raw.last() == body.last());
    assert(trim(raw) == raw);
    lemma_without_scheme(scheme, rest);
    if user is None {
        lemma_around_lacks(w, p, '@');
        assert(lacks(place, '@'));
    }
    lemma_user_removed(user, place);
    lemma_find_char_is(place, '/', host.len() as int);
    assert(place.take(host.len() as int) =~= host);
    assert(place.skip(host.len() as int + 1) =~= body);
    lemma_host_kept(h, port_part(port), p, w);
}

/// A remote in the short form has the same canonical form as a URL.
pub proof fn lemma_short_form(
    user: Option<Seq<char>>,
    h: Seq<char>,
    p: Seq<char>,
    w: WrittenPath,
)
    requires
        begins_plainly(user),
        plain_user(user, p),
        plain_host(h),
        writes_path(w, p),
        !contains_text(short_remote(user, h, w.around(p)), "://"@),
    ensures
        canonical_remote(short_remote(user, h, w.around(p))) == Some(ascii_lower(h) + "/"@ + p),
{
    reveal_strlit(":");
    reveal_strlit("@");
    let body = w.around(p);
    let place = h + ":"@ + body;
    let raw = user_part(user) + place;
    assert(raw =~= short_remote(user, h, body));
    lemma_path_ends(w, p);
    lemma_first_char(user, place, h);
    assert(raw.last() == body.last());
    assert(trim(raw) == raw);
    if user is None {
        lemma_around_lacks(w, p, '@');
        assert(lacks(place, '@'));
    }
    lemma_user_removed(user, place);
    lemma_find_char_is(place, ':', h.len() as int);
    assert(place.take(h.len() as int) =~= h);
    assert(place.skip(h.len() as int + 1) =~= body);
    lemma_host_kept(h, Seq::empty(), p, w);
    assert(h + Seq::<char>::empty() =~= h);
}

proof fn lemma_first_char(user: Option<Seq<char>>, place: Seq<char>, h: Seq<char>)
    requires
        begins_plainly(user),
        plain_host(h),
        place.len() > 0,
        place[0] == h[0],
    ensures
        (user_part(user) + place).len() > 0,
        !is_space((user_part(user) + place)[0]),
{
    reveal_strlit("@");
    let raw = user_part(user) + place;
    match user {
        Some(u) => {
            if u.len() > 0 {
                assert(raw[0] == u[0]);
            } else {
                assert(raw[0] == '@');
            }
        },
        None => {
            assert(raw =~= place);
        },
    }
}

/// A remote without a scheme or a colon has the same canonical form as a URL.
pub proof fn lemma_bare_form(
    user: Option<Seq<char>>,
    h: Seq<char>,
    p: Seq<char>,
    w: WrittenPath,
)
    requires
        begins_plainly(user),
        user matches Some(u) ==> !contains_text(u + "@"@, "://"@),
        plain_user(user, p),
        plain_host(h),
        writes_path(w, p),
        lacks(p, ':'),
    ensures
        canonical_remote(bare_remote(user, h, w.around(p))) == Some(ascii_lower(h) + "/"@ + p),
{
    reveal_strlit("://");
    reveal_strlit("/");
    reveal_strlit("@");
    let body = w.around(p);
    let place = h + "/"@ + body;
    let front = user_part(user);
    let raw = front + place;
    let mark = "://"@;
    assert(raw =~= bare_remote(user, h, body));
    lemma_path_ends(w, p);
    lemma_first_char(user, place, h);
    assert(raw.last() == body.last());
    assert(trim(raw) == raw);
    lemma_around_lacks(w, p, ':');
    assert(lacks(place, ':'));
    lemma_find_from(raw, mark, 0);
    if find_text(raw, mark) >= 0 {
        let i = find_text(raw, mark);
        let n = front.len() as int;
        assert(raw.subrange(i, i + 3)[0] == raw[i]);
        assert(raw.subrange(i, i + 3)[1] == raw[i + 1]);
        assert(raw.subrange(i, i + 3)[2] == raw[i + 2]);
        if i >= n {
            assert(raw[i] == place[i - n]);
        } else if i + 3 <= n {
            assert(front.subrange(i, i + 3) =~= mark);
            assert(occurs_at(front, mark, i));
            lemma_find_from(front, mark, 0);
        } else {
            assert(raw[n - 1] == '@');
        }
    }
    if user is None {
        lemma_around_lacks(w, p, '@');
        assert(lacks(place, '@'));
    }
    lemma_user_removed(user, place);
    lemma_no_char(place, ':');
    lemma_find_char_is(place, '/', h.len() as int);
    assert(place.take(h.len() as int) =~= h);
    assert(place.skip(h.len() as int + 1) =~= body);
    lemma_host_kept(h, Seq::empty(), p, w);
    assert(h + Seq::<char>::empty() =~= h);
}

proof fn lemma_small_letter(c: char)
    ensures
        ascii_lower_char(c) == '/' ==> c == '/',
        ascii_lower_char(c) == ':' ==> c == ':',
        ascii_lower_char(c) == '@' ==> c == '@',
        is_space(ascii_lower_char(c)) ==> is_space(c),
{
}

proof fn lemma_small_host(h: Seq<char>)
    requires
        plain_host(h),
    ensures
        plain_host(ascii_lower(h)),
{
    let l = ascii_lower(h);
    assert forall|i: int| 0 <= i < h.len() implies l[i] != '/' && l[i] != ':' && l[i] != '@' && (
    is_space(#[trigger] l[i]) ==> is_space(h[i])) by {
        lemma_small_letter(h[i]);
    }
    lemma_small_letter(h[0]);
    lemma_small_letter(h.last());
}

/// A canonical remote is its own canonical form.
pub proof fn lemma_canonical_is_stable(h: Seq<char>, p: Seq<char>)
    requires
        plain_host(h),
        plain_path(p, ""@),
        lacks(p, ':'),
        lacks(p, '@'),
    ensures
        canonical_remote(ascii_lower(h) + "/"@ + p) == Some(ascii_lower(h) + "/"@ + p),
{
    reveal_strlit("");
    lemma_small_host(h);
    lemma_ascii_lower_idempotent(h);
    let l = ascii_lower(h);
    assert(bare().suffix =~= ""@);
    lemma_bare_form(None, l, p, bare());
    assert(bare().around(p) =~= p);
    assert(bare_remote(None, l, p) =~= l + "/"@ + p);
}

/// The namespace of a repository is the path of its canonical remote: neither
/// the way that the remote is written, nor the host, nor the directory that the
/// repository was cloned to plays a part.
pub proof fn lemma_namespace_is_path(
    raw: Seq<char>,
    h: Seq<char>,
    p: Seq<char>,
    directory: Option<Seq<char>>,
)
    requires
        plain_host(h),
        p.len() > 0,
        canonical_remote(raw) == Some(ascii_lower(h) + "/"@ + p),
    ensures
        namespace_name(Some(raw), directory) == Some(p),
{
    reveal_strlit("/");
    lemma_small_host(h);
    let l = ascii_lower(h);
    let c = l + "/"@ + p;
    lemma_find_char_is(c, '/', l.len() as int);
    assert(c.skip(l.len() as int + 1) =~= p);
}

} // verus!
