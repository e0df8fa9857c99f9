//! File paths as texts: their parts, their last part, and the directories that
//! lead to them.

use vstd::prelude::*;
use vstd::string::*;
use crate::collections::TextMap;
use crate::text::{
    chars_of, join, lemma_non_empty, non_empty, non_empty_parts, same_text, split, split_at_char,
    texts,
};

verus! {

/// The parts that are no `.`.
pub open spec fn without_dots(parts: Seq<Seq<char>>) -> Seq<Seq<char>>
    decreases parts.len(),
{
    if parts.len() == 0 {
        parts
    } else if parts.last() == "."@ {
        without_dots(parts.drop_last())
    } else {
        without_dots(parts.drop_last()).push(parts.last())
    }
}

/// The parts of a path between its separators; empty ones and `.` do not
/// count.
pub open spec fn path_parts(path: Seq<char>, separator: char) -> Seq<Seq<char>> {
    without_dots(non_empty(split(path, separator)))
}

/// The parts of a path between its separators.
pub fn parts_of(path: &[char], separator: char) -> (r: Vec<String>)
    ensures
        texts(r@) == path_parts(path@, separator),
{
    let parts = non_empty_parts(&split_at_char(path, separator));
    let ghost all = texts(parts@);
    let mut r: Vec<String> = Vec::new();
    let mut i: usize = 0;
    assert(texts(r@) =~= without_dots(all.take(0)));
    while i < parts.len()
        invariant
            i <= parts@.len(),
            all == texts(parts@),
            texts(r@) == without_dots(all.take(i as int)),
        decreases parts@.len() - i,
    {
        let ghost before = r@;
        proof {
            assert(all.take(i + 1).drop_last() =~= all.take(i as int));
            assert(all.take(i + 1).last() == parts@[i as int]@);
        }
        if !same_text(parts[i].as_str(), ".") {
            r.push(parts[i].clone());
            assert(texts(r@) =~= texts(before).push(parts@[i as int]@));
        }
        i += 1;
    }
    assert(all.take(i as int) =~= all);
    r
}

/// The last part of a path; the path itself where it has none.
pub open spec fn base_text(path: Seq<char>) -> Seq<char> {
    let parts = path_parts(path, '/');
    if parts.len() > 0 && parts.last() != ".."@ {
        parts.last()
    } else {
        path
    }
}

/// The last part of a path, as a short label.
pub fn basename(path: &str) -> (r: String)
    ensures
        r@ == base_text(path@),
{
    let cs = chars_of(path);
    let parts = parts_of(&cs, '/');
    assert(texts(parts@).len() == parts@.len());
    if parts.len() > 0 {
        let last = &parts[parts.len() - 1];
        assert(texts(parts@).last() == last@);
        if !same_text(last.as_str(), "..") {
            return last.clone();
        }
    }
    path.to_string()
}

/// The parts of each of `dirs` between backslashes, one after the other.
pub open spec fn split_dirs(dirs: Seq<Seq<char>>) -> Seq<Seq<char>>
    decreases dirs.len(),
{
    if dirs.len() == 0 {
        dirs
    } else {
        split_dirs(dirs.drop_last()) + path_parts(dirs.last(), '\\')
    }
}

/// The directories on the way to a file.
pub open spec fn directories(path: Seq<char>) -> Seq<Seq<char>> {
    let parts = path_parts(path, '/');
    if parts.len() == 0 {
        parts
    } else {
        split_dirs(parts.drop_last())
    }
}

/// The directories on the way to a file.
pub fn directories_of(path: &str) -> (r: Vec<String>)
    ensures
        texts(r@) == directories(path@),
{
    let cs = chars_of(path);
    let parts = parts_of(&cs, '/');
    let ghost all = texts(parts@);
    if parts.len() == 0 {
        assert(texts(parts@) =~= Seq::<Seq<char>>::empty());
        return parts;
    }
    let last: usize = parts.len() - 1;
    let mut r: Vec<String> = Vec::new();
    let mut i: usize = 0;
    assert(texts(r@) =~= split_dirs(all.take(0)));
    while i < last
        invariant
            i <= last,
            last == parts@.len() - 1,
            all == texts(parts@),
            texts(r@) == split_dirs(all.take(i as int)),
        decreases last - i,
    {
        let ghost before = r@;
        proof {
            assert(all.take(i + 1).drop_last() =~= all.take(i as int));
            assert(all.take(i + 1).last() == parts@[i as int]@);
        }
        let part = chars_of(parts[i].as_str());
        let mut more = parts_of(&part, '\\');
        let ghost m = more@;
        r.append(&mut more);
        assert(texts(r@) =~= texts(before) + texts(m));
        i += 1;
    }
    assert(all.take(last as int) =~= all.drop_last());
    r
}

/// The file lies under the directory: it is named by the first parts of the
/// way to the file.
pub open spec fn lies_under(path: Seq<char>, dir: Seq<char>) -> bool {
    names_prefix(directories(path), directories(path).len(), dir)
}

/// The directory is named by some of the first `n` parts.
pub open spec fn names_prefix(dirs: Seq<Seq<char>>, n: nat, dir: Seq<char>) -> bool {
    exists|k: int| 1 <= k <= n && #[trigger] join(dirs.take(k), "/"@) == dir
}

/// How many of the files lie under the directory.
pub open spec fn count_under(members: Seq<Seq<char>>, dir: Seq<char>) -> nat
    decreases members.len(),
{
    if members.len() == 0 {
        0
    } else {
        count_under(members.drop_last(), dir) + if lies_under(members.last(), dir) {
            1nat
        } else {
            0
        }
    }
}

proof fn lemma_count_under(members: Seq<Seq<char>>, dir: Seq<char>)
    ensures
        count_under(members, dir) <= members.len(),
    decreases members.len(),
{
    if members.len() > 0 {
        lemma_count_under(members.drop_last(), dir);
    }
}

/// None of the parts is empty.
pub open spec fn none_empty(parts: Seq<Seq<char>>) -> bool {
    forall|i: int| 0 <= i < parts.len() ==> (#[trigger] parts[i]).len() > 0
}

proof fn lemma_without_dots(parts: Seq<Seq<char>>)
    requires
        none_empty(parts),
    ensures
        none_empty(without_dots(parts)),
    decreases parts.len(),
{
    if parts.len() > 0 {
        let d = parts.drop_last();
        assert forall|i: int| 0 <= i < d.len() implies (#[trigger] d[i]).len() > 0 by {
            assert(d[i] == parts[i]);
        }
        lemma_without_dots(d);
        assert(parts[parts.len() - 1].len() > 0);
    }
}

proof fn lemma_split_dirs(dirs: Seq<Seq<char>>)
    ensures
        none_empty(split_dirs(dirs)),
    decreases dirs.len(),
{
    if dirs.len() > 0 {
        lemma_split_dirs(dirs.drop_last());
        lemma_non_empty(split(dirs.last(), '\\'));
        lemma_without_dots(non_empty(split(dirs.last(), '\\')));
    }
}

proof fn lemma_prefixes_differ(dirs: Seq<Seq<char>>, j: int, k: int)
    requires
        none_empty(dirs),
        1 <= j < k <= dirs.len(),
    ensures
        join(dirs.take(j), "/"@).len() < join(dirs.take(k), "/"@).len(),
    decreases k,
{
    let p = dirs.take(k);
    assert(p.drop_last() =~= dirs.take(k - 1));
    assert(p.last() == dirs[k - 1]);
    assert(dirs[k - 1].len() > 0);
    if j < k - 1 {
        lemma_prefixes_differ(dirs, j, k - 1);
    }
}

/// A longer way names a directory that the shorter ways do not.
proof fn lemma_new_prefix(dirs: Seq<Seq<char>>, k: int)
    requires
        none_empty(dirs),
        0 <= k < dirs.len(),
    ensures
        !names_prefix(dirs, k as nat, join(dirs.take(k + 1), "/"@)),
        forall|d: Seq<char>| #[trigger]
            names_prefix(dirs, (k + 1) as nat, d) <==> names_prefix(dirs, k as nat, d) || d == join(
                dirs.take(k + 1),
                "/"@,
            ),
{
    let acc = join(dirs.take(k + 1), "/"@);
    if names_prefix(dirs, k as nat, acc) {
        let j = choose|j: int| 1 <= j <= k && #[trigger] join(dirs.take(j), "/"@) == acc;
        lemma_prefixes_differ(dirs, j, k + 1);
    }
    assert forall|d: Seq<char>| #[trigger]
        names_prefix(dirs, (k + 1) as nat, d) <==> names_prefix(dirs, k as nat, d) || d == acc by {
        if names_prefix(dirs, (k + 1) as nat, d) {
            let j = choose|j: int| 1 <= j <= k + 1 && #[trigger] join(dirs.take(j), "/"@) == d;
            if j <= k {
                assert(names_prefix(dirs, k as nat, d));
            }
        }
        if names_prefix(dirs, k as nat, d) {
            let j = choose|j: int| 1 <= j <= k && #[trigger] join(dirs.take(j), "/"@) == d;
            assert(1 <= j <= k + 1);
        }
    }
}

/// How often a directory is counted once the first `k` parts of a way have been
/// taken.
spec fn counted(done: Seq<Seq<char>>, dirs: Seq<Seq<char>>, k: nat, d: Seq<char>) -> nat {
    count_under(done, d) + if names_prefix(dirs, k, d) {
        1nat
    } else {
        0
    }
}

/// For each directory, how many of the files lie under it.
pub fn ancestor_dir_frequencies(members: &[String]) -> (r: TextMap<usize>)
    ensures
        forall|d: Seq<char>| #[trigger]
            r@.contains_key(d) <==> count_under(texts(members@), d) > 0,
        forall|d: Seq<char>| #[trigger]
            r@.contains_key(d) ==> r@[d] == count_under(texts(members@), d),
{
    let ghost all = texts(members@);
    let total: usize = members.len();
    let mut freq: TextMap<usize> = TextMap::new();
    let mut i: usize = 0;
    while i < total
        invariant
            i <= total,
            total == members@.len(),
            all == texts(members@),
            forall|d: Seq<char>| #[trigger]
                freq@.contains_key(d) <==> count_under(all.take(i as int), d) > 0,
            forall|d: Seq<char>| #[trigger]
                freq@.contains_key(d) ==> freq@[d] == count_under(all.take(i as int), d),
        decreases members@.len() - i,
    {
        let ghost done = all.take(i as int);
        let ghost next = all.take(i + 1);
        let dirs = directories_of(members[i].as_str());
        let ghost ds = texts(dirs@);
        proof {
            assert(next.drop_last() =~= done);
            assert(next.last() == members@[i as int]@);
            assert(ds.len() == dirs@.len());
            let parts = path_parts(members@[i as int]@, '/');
            if parts.len() > 0 {
                lemma_split_dirs(parts.drop_last());
            }
            assert(none_empty(ds));
            assert forall|d: Seq<char>| #[trigger] counted(done, ds, 0, d) == count_under(
                done,
                d,
            ) by {}
        }
        let mut acc = String::new();
        let mut k: usize = 0;
        while k < dirs.len()
            invariant
                k <= dirs@.len(),
                i < total,
                done.len() == i,
                ds == texts(dirs@),
                ds.len() == dirs@.len(),
                none_empty(ds),
                acc@ == join(ds.take(k as int), "/"@),
                forall|d: Seq<char>| #[trigger]
                    freq@.contains_key(d) <==> counted(done, ds, k as nat, d) > 0,
                forall|d: Seq<char>| #[trigger]
                    freq@.contains_key(d) ==> freq@[d] == counted(done, ds, k as nat, d),
            decreases dirs@.len() - k,
        {
            let ghost before = freq@;
            proof {
                assert(ds.take(k + 1).drop_last() =~= ds.take(k as int));
                assert(ds.take(k + 1).last() == dirs@[k as int]@);
            }
            if k > 0 {
                acc.append("/");
            }
            proof {
                if k == 0 {
                    assert(acc@ =~= Seq::<char>::empty());
                    assert(acc@ + dirs@[0]@ =~= dirs@[0]@);
                }
            }
            acc.append(dirs[k].as_str());
            assert(acc@ == join(ds.take(k + 1), "/"@));
            let count: usize = match freq.get(acc.as_str()) {
                Some(n) => *n,
                None => 0,
            };
            proof {
                lemma_count_under(done, acc@);
                lemma_new_prefix(ds, k as int);
            }
            freq.insert(acc.clone(), count + 1);
            proof {
                assert forall|d: Seq<char>| #[trigger]
                    freq@.contains_key(d) <==> counted(done, ds, (k + 1) as nat, d) > 0 by {
                    assert(freq@.contains_key(d) == (before.contains_key(d) || d == acc@));
                }
                assert forall|d: Seq<char>| #[trigger] freq@.contains_key(d) implies freq@[d]
                    == counted(done, ds, (k + 1) as nat, d) by {
                    if d != acc@ {
                        assert(before.contains_key(d));
                    }
                }
            }
            k += 1;
        }
        proof {
            assert forall|d: Seq<char>| #[trigger]
                freq@.contains_key(d) <==> count_under(next, d) > 0 by {
                assert(counted(done, ds, k as nat, d) == count_under(next, d));
            }
            assert forall|d: Seq<char>| #[trigger] freq@.contains_key(d) implies freq@[d]
                == count_under(next, d) by {
                assert(counted(done, ds, k as nat, d) == count_under(next, d));
            }
        }
        i += 1;
    }
    assert(all.take(i as int) =~= all);
    freq
}

} // verus!
