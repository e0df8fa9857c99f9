//! Git remotes: reading them out of a configuration, and the canonical form in
//! which the same repository is known however it was cloned.

use vstd::prelude::*;
use vstd::slice::slice_subrange;
use vstd::string::*;
use crate::text::{
    begins, char_at, chars_of, contains_text, ends_with, find_at, find_char, find_text, finishes,
    is_space, lines, lines_of, opt_str, opt_text, rows, same_chars, same_text, space, starts_with,
    string_of, strip_end, strip_start, stripped_end, stripped_start, trim, trim_text, trimmed,
};
use crate::unicode::{ascii_lower, small_chars};

verus! {

/// What stands before the first `c`; all of the text where there is none.
pub open spec fn before_first(s: Seq<char>, c: char) -> Seq<char> {
    if find_char(s, c) >= 0 {
        s.take(find_char(s, c))
    } else {
        s
    }
}

/// What stands behind the first `c`; all of the text where there is none.
pub open spec fn after_first(s: Seq<char>, c: char) -> Seq<char> {
    if find_char(s, c) >= 0 {
        s.skip(find_char(s, c) + 1)
    } else {
        s
    }
}

/// The text without the suffix `.git`.
pub open spec fn without_git(s: Seq<char>) -> Seq<char> {
    if ends_with(s, ".git"@) {
        s.take(s.len() - ".git"@.len())
    } else {
        s
    }
}

/// The canonical form of a host, with or without a port, and a path.
pub open spec fn host_and_path(host: Seq<char>, path: Seq<char>) -> Option<Seq<char>> {
    let h = ascii_lower(trim(before_first(host, ':')));
    let p = without_git(strip_end(strip_start(trim(path), '/'), '/'));
    if h.len() == 0 && p.len() == 0 {
        None
    } else if p.len() == 0 {
        Some(h)
    } else if h.len() == 0 {
        Some(p)
    } else {
        Some(h + "/"@ + p)
    }
}

/// The remote without the scheme in front of it.
pub open spec fn without_scheme(s: Seq<char>) -> Seq<char> {
    if find_text(s, "://"@) >= 0 {
        s.skip(find_text(s, "://"@) + 3)
    } else {
        s
    }
}

/// Where the host ends: at the first slash, or at the first colon in a remote
/// without a scheme that has one; -1 where there is neither.
pub open spec fn host_end(place: Seq<char>, has_scheme: bool) -> int {
    if !has_scheme && find_char(place, ':') >= 0 {
        find_char(place, ':')
    } else {
        find_char(place, '/')
    }
}

/// The canonical form of a remote: its host in small letters and its path,
/// without scheme, user, port and suffix.
pub open spec fn canonical_remote(raw: Seq<char>) -> Option<Seq<char>> {
    let s = trim(raw);
    let place = after_first(without_scheme(s), '@');
    let end = host_end(place, contains_text(s, "://"@));
    if s.len() == 0 {
        None
    } else if end >= 0 {
        host_and_path(place.take(end), place.skip(end + 1))
    } else {
        host_and_path(place, Seq::empty())
    }
}

fn join_host(host: &[char], path: &[char]) -> (r: Option<String>)
    ensures
        opt_text(r) == host_and_path(host@, path@),
{
    let host_end: usize = match char_at(host, ':', 0) {
        Some(i) => i,
        None => host.len(),
    };
    let head = slice_subrange(host, 0, host_end);
    assert(head@ =~= before_first(host@, ':'));
    let h = small_chars(trimmed(head));
    let p = stripped_end(stripped_start(trimmed(path), '/'), '/');
    let suffix = chars_of(".git");
    let p_end: usize = if finishes(p, &suffix) {
        p.len() - suffix.len()
    } else {
        p.len()
    };
    let q = slice_subrange(p, 0, p_end);
    assert(q@ =~= without_git(p@));
    if h.len() == 0 && q.len() == 0 {
        None
    } else if q.len() == 0 {
        Some(string_of(&h))
    } else if h.len() == 0 {
        Some(string_of(q))
    } else {
        let mut r = string_of(&h);
        r.append("/");
        r.append(string_of(q).as_str());
        Some(r)
    }
}

/// The canonical `host/path` form of a remote, the same for each protocol that
/// the repository can be cloned with.
pub fn normalize_remote(raw: &str) -> (r: Option<String>)
    ensures
        opt_text(r) == canonical_remote(raw@),
{
    let all = chars_of(raw);
    let s = trimmed(&all);
    if s.len() == 0 {
        return None;
    }
    let mark = chars_of("://");
    proof {
        reveal_strlit("://");
    }
    let found = find_at(s, &mark, 0);
    let from: usize = match found {
        Some(i) => i + 3,
        None => 0,
    };
    let rest = slice_subrange(s, from, s.len());
    assert(rest@ =~= without_scheme(s@));
    let user_end: usize = match char_at(rest, '@', 0) {
        Some(i) => i + 1,
        None => 0,
    };
    let place = slice_subrange(rest, user_end, rest.len());
    assert(place@ =~= after_first(rest@, '@'));
    let colon = char_at(place, ':', 0);
    let end = if found.is_none() && colon.is_some() {
        colon
    } else {
        char_at(place, '/', 0)
    };
    match end {
        Some(i) => {
            let host = slice_subrange(place, 0, i);
            let path = slice_subrange(place, i + 1, place.len());
            proof {
                assert(host@ =~= place@.take(i as int));
                assert(path@ =~= place@.skip(i + 1));
            }
            join_host(host, path)
        },
        None => {
            let none: Vec<char> = Vec::new();
            assert(none@ =~= Seq::<char>::empty());
            join_host(place, &none)
        },
    }
}

/// The name of a remote in the header of its section, such as `origin` in
/// `[remote "origin"]`; nothing for the header of another section.
pub open spec fn section_name(line: Seq<char>) -> Option<Seq<char>> {
    if line.len() < 2 || line[0] != '[' || line.last() != ']' {
        None
    } else {
        let inner = trim(line.subrange(1, line.len() - 1));
        let rest = inner.skip("remote"@.len() as int);
        let name = trim(strip_end(strip_start(trim(rest), '"'), '"'));
        if !starts_with(inner, "remote"@) || rest.len() == 0 || !(is_space(rest[0]) || rest[0]
            == '"') || name.len() == 0 {
            None
        } else {
            Some(name)
        }
    }
}

/// The name of a remote in the header of its section.
pub fn parse_remote_section(line: &str) -> (r: Option<String>)
    ensures
        opt_text(r) == section_name(line@),
{
    let s = chars_of(line);
    if s.len() < 2 || s[0] != '[' || s[s.len() - 1] != ']' {
        return None;
    }
    let inner = trimmed(slice_subrange(&s, 1, s.len() - 1));
    let word = chars_of("remote");
    if !begins(inner, &word) {
        return None;
    }
    let rest = slice_subrange(inner, word.len(), inner.len());
    assert(rest@ =~= inner@.skip("remote"@.len() as int));
    if rest.len() == 0 || !(space(rest[0]) || rest[0] == '"') {
        return None;
    }
    let name = trimmed(stripped_end(stripped_start(trimmed(rest), '"'), '"'));
    if name.len() == 0 {
        None
    } else {
        Some(string_of(name))
    }
}

/// The URL in a line of a section, such as `url = git@host:path`.
pub open spec fn url_of(line: Seq<char>) -> Option<Seq<char>> {
    if find_char(line, '=') >= 0 && ascii_lower(trim(before_first(line, '='))) == "url"@ {
        Some(trim(after_first(line, '=')))
    } else {
        None
    }
}

fn find_url(line: &[char]) -> (r: Option<String>)
    ensures
        opt_text(r) == url_of(line@),
{
    match char_at(line, '=', 0) {
        Some(i) => {
            let n: usize = line.len();
            let key = slice_subrange(line, 0, i);
            let value = slice_subrange(line, i + 1, n);
            proof {
                assert(key@ =~= before_first(line@, '='));
                assert(value@ =~= after_first(line@, '='));
            }
            let small = small_chars(trimmed(key));
            let url = chars_of("url");
            if same_chars(&small, &url) {
                Some(string_of(trimmed(value)))
            } else {
                None
            }
        },
        None => None,
    }
}

/// The remote whose section the end of the lines stands in, and the remotes
/// read so far, as names with URLs.
pub open spec fn read_lines(lines: Seq<Seq<char>>) -> (
    Option<Seq<char>>,
    Seq<(Seq<char>, Seq<char>)>,
)
    decreases lines.len(),
{
    if lines.len() == 0 {
        (None, Seq::empty())
    } else {
        let (current, out) = read_lines(lines.drop_last());
        let line = trim(lines.last());
        if line.len() > 0 && line[0] == '[' {
            (section_name(line), out)
        } else if current is Some && url_of(line) is Some {
            (current, out.push((current->Some_0, url_of(line)->Some_0)))
        } else {
            (current, out)
        }
    }
}

/// The remotes of a configuration in the order in which they are declared.
pub open spec fn remotes_of(config: Seq<char>) -> Seq<(Seq<char>, Seq<char>)> {
    read_lines(lines(config)).1
}

/// What pairs of texts say.
pub open spec fn text_pairs(s: Seq<(String, String)>) -> Seq<(Seq<char>, Seq<char>)> {
    Seq::new(s.len(), |i: int| (s[i].0@, s[i].1@))
}

/// The remotes of a configuration: names with URLs.
pub fn parse_remote_urls(config: &str) -> (r: Vec<(String, String)>)
    ensures
        text_pairs(r@) == remotes_of(config@),
{
    let cs = chars_of(config);
    let all = lines_of(&cs);
    let ghost ls = rows(all@);
    let mut out: Vec<(String, String)> = Vec::new();
    let mut current: Option<String> = None;
    let mut i: usize = 0;
    assert(text_pairs(out@) =~= Seq::<(Seq<char>, Seq<char>)>::empty());
    while i < all.len()
        invariant
            i <= all@.len(),
            ls == rows(all@),
            (opt_text(current), text_pairs(out@)) == read_lines(ls.take(i as int)),
        decreases all@.len() - i,
    {
        let ghost before = out@;
        proof {
            assert(ls.take(i + 1).drop_last() =~= ls.take(i as int));
            assert(ls.take(i + 1).last() == all@[i as int]@);
        }
        let line = trimmed(&all[i]);
        if line.len() > 0 && line[0] == '[' {
            current = parse_remote_section(string_of(line).as_str());
        } else if let Some(name) = &current {
            if let Some(url) = find_url(line) {
                let ghost row = (name@, url@);
                out.push((name.clone(), url));
                assert(text_pairs(out@) =~= text_pairs(before).push(row));
            }
        }
        i += 1;
    }
    assert(ls.take(i as int) =~= ls);
    out
}

/// The place of the first remote of that name, or -1.
pub open spec fn remote_named(remotes: Seq<(Seq<char>, Seq<char>)>, name: Seq<char>) -> int
    decreases remotes.len(),
{
    if remotes.len() == 0 {
        -1
    } else {
        let d = remote_named(remotes.drop_last(), name);
        if d < 0 && remotes.last().0 == name {
            remotes.len() - 1
        } else {
            d
        }
    }
}

/// The URL that a repository is known by: that of `origin`, else of the first
/// remote.
pub open spec fn chosen_url(remotes: Seq<(Seq<char>, Seq<char>)>) -> Option<Seq<char>> {
    if remotes.len() == 0 {
        None
    } else if remote_named(remotes, "origin"@) >= 0 {
        Some(remotes[remote_named(remotes, "origin"@)].1)
    } else {
        Some(remotes[0].1)
    }
}

/// The URL that a repository is known by.
pub fn choose_remote(remotes: &[(String, String)]) -> (r: Option<&String>)
    ensures
        r is Some == chosen_url(text_pairs(remotes@)) is Some,
        r matches Some(u) ==> chosen_url(text_pairs(remotes@)) == Some(u@),
{
    let ghost all = text_pairs(remotes@);
    let mut found: Option<usize> = None;
    let mut i: usize = 0;
    while i < remotes.len()
        invariant
            i <= remotes@.len(),
            all == text_pairs(remotes@),
            found is Some == (remote_named(all.take(i as int), "origin"@) >= 0),
            found matches Some(k) ==> k < i && k == remote_named(all.take(i as int), "origin"@),
        decreases remotes@.len() - i,
    {
        proof {
            assert(all.take(i + 1).drop_last() =~= all.take(i as int));
            assert(all.take(i + 1).last() == all[i as int]);
        }
        if found.is_none() && same_text(remotes[i].0.as_str(), "origin") {
            found = Some(i);
        }
        i += 1;
    }
    proof {
        assert(all.take(i as int) =~= all);
        assert(all.len() == remotes@.len());
    }
    match found {
        Some(k) => Some(&remotes[k].1),
        None => if remotes.len() > 0 {
            assert(all[0] == (remotes@[0].0@, remotes@[0].1@));
            Some(&remotes[0].1)
        } else {
            None
        },
    }
}

/// The canonical remote that a configuration declares.
pub open spec fn declared_remote(config: Seq<char>) -> Option<Seq<char>> {
    match chosen_url(remotes_of(config)) {
        Some(url) => canonical_remote(url),
        None => None,
    }
}

/// The canonical remote of the repository with the given configuration.
pub fn remote_of_config(config: &str) -> (r: Option<String>)
    ensures
        opt_text(r) == declared_remote(config@),
{
    let remotes = parse_remote_urls(config);
    match choose_remote(&remotes) {
        Some(url) => normalize_remote(url.as_str()),
        None => None,
    }
}

/// The directory that a `.git` file points to.
pub open spec fn gitdir_target(content: Seq<char>) -> Option<Seq<char>> {
    let s = trim(content);
    let rest = trim(s.skip("gitdir:"@.len() as int));
    if starts_with(s, "gitdir:"@) && rest.len() > 0 {
        Some(rest)
    } else {
        None
    }
}

/// The directory that a `.git` file points to.
pub fn parse_gitdir(content: &str) -> (r: Option<String>)
    ensures
        opt_text(r) == gitdir_target(content@),
{
    let all = chars_of(content);
    let s = trimmed(&all);
    let word = chars_of("gitdir:");
    if !begins(s, &word) {
        return None;
    }
    let tail = slice_subrange(s, word.len(), s.len());
    assert(tail@ =~= s@.skip("gitdir:"@.len() as int));
    let rest = trimmed(tail);
    if rest.len() == 0 {
        None
    } else {
        Some(string_of(rest))
    }
}

/// The shared directory that a `commondir` file points to.
pub fn parse_commondir(content: &str) -> (r: Option<String>)
    ensures
        opt_text(r) == if trim(content@).len() == 0 {
            None
        } else {
            Some(trim(content@))
        },
{
    let s = trim_text(content);
    if s.as_str().is_empty() {
        None
    } else {
        Some(s)
    }
}

/// What stands behind the host of a canonical remote, unless it is empty.
pub open spec fn remote_path(remote: Seq<char>) -> Option<Seq<char>> {
    if find_char(remote, '/') >= 0 && after_first(remote, '/').len() > 0 {
        Some(after_first(remote, '/'))
    } else {
        None
    }
}

/// The namespace of a repository: its remote without the host, else the name of
/// its directory, unless that is empty.
pub open spec fn namespace_name(remote: Option<Seq<char>>, directory: Option<Seq<char>>) -> Option<
    Seq<char>,
> {
    let canonical = match remote {
        Some(r) => canonical_remote(r),
        None => None,
    };
    match canonical {
        Some(c) if remote_path(c) is Some => remote_path(c),
        _ => match directory {
            Some(d) if d.len() > 0 => Some(d),
            _ => None,
        },
    }
}

/// The namespace of a repository with the given remote and directory name.
pub fn derive_namespace(remote: Option<&str>, directory: Option<&str>) -> (r: Option<String>)
    ensures
        opt_text(r) == namespace_name(opt_str(remote), opt_str(directory)),
{
    let canonical = match remote {
        Some(s) => normalize_remote(s),
        None => None,
    };
    if let Some(c) = canonical {
        let s = chars_of(c.as_str());
        if let Some(i) = char_at(&s, '/', 0) {
            let n: usize = s.len();
            let rest = slice_subrange(&s, i + 1, n);
            assert(rest@ =~= after_first(s@, '/'));
            if rest.len() > 0 {
                return Some(string_of(rest));
            }
        }
    }
    match directory {
        Some(d) => if d.is_empty() {
            None
        } else {
            Some(d.to_string())
        },
        None => None,
    }
}

} // verus!
