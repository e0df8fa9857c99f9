//! What changed between two looks at a tree of files, each given as the content
//! hash of every path.

use vstd::prelude::*;
use crate::collections::{Entry, TextMap, entry_map, has_entry, keys_rise};
use crate::order::{text_lt, texts_rise};
use crate::text::{copy_all, same_text, texts};

verus! {

/// The paths that changed, each list rising.
#[derive(Debug)]
pub struct Changes {
    pub added: Vec<String>,
    pub modified: Vec<String>,
    pub deleted: Vec<String>,
    pub unchanged: Vec<String>,
}

/// How a path of one look stands to the other look.
pub enum Standing {
    /// The other look lacks it.
    Lacking,
    /// It has other content there.
    Different,
    /// It has the same content there.
    Same,
}

/// How a path with the given content stands to a look.
pub open spec fn standing(path: Seq<char>, hash: Seq<char>, look: Map<Seq<char>, String>) -> Standing {
    if !look.contains_key(path) {
        Standing::Lacking
    } else if look[path]@ != hash {
        Standing::Different
    } else {
        Standing::Same
    }
}

/// The path is in the look and stands so to the other.
pub open spec fn stands(
    look: Map<Seq<char>, String>,
    other: Map<Seq<char>, String>,
    how: Standing,
    path: Seq<char>,
) -> bool {
    look.contains_key(path) && standing(path, look[path]@, other) == how
}

/// The list has, rising, the paths of the look that stand so to the other.
pub open spec fn lists_paths(
    list: Seq<Seq<char>>,
    look: Map<Seq<char>, String>,
    other: Map<Seq<char>, String>,
    how: Standing,
) -> bool {
    &&& texts_rise(list)
    &&& forall|path: Seq<char>| list.contains(path) <==> #[trigger] stands(look, other, how, path)
}

/// The paths among entries that stand so to a look, in order.
spec fn select(entries: Seq<Entry<String>>, other: Map<Seq<char>, String>, how: Standing) -> Seq<
    Seq<char>,
>
    decreases entries.len(),
{
    if entries.len() == 0 {
        Seq::empty()
    } else {
        let d = select(entries.drop_last(), other, how);
        let e = entries.last();
        if standing(e.key@, e.value@, other) == how {
            d.push(e.key@)
        } else {
            d
        }
    }
}

proof fn lemma_select(entries: Seq<Entry<String>>, other: Map<Seq<char>, String>, how: Standing)
    requires
        keys_rise(entries),
    ensures
        texts_rise(select(entries, other, how)),
        forall|i: int|
            0 <= i < entries.len() && standing(
                (#[trigger] entries[i]).key@,
                entries[i].value@,
                other,
            ) == how ==> select(entries, other, how).contains(entries[i].key@),
        forall|x: Seq<char>| #[trigger]
            select(entries, other, how).contains(x) ==> exists|i: int|
                0 <= i < entries.len() && (#[trigger] entries[i]).key@ == x && standing(
                    x,
                    entries[i].value@,
                    other,
                ) == how,
    decreases entries.len(),
{
    if entries.len() > 0 {
        let p = entries.drop_last();
        let e = entries.last();
        assert(keys_rise(p)) by {
            assert forall|i: int, j: int| 0 <= i < j < p.len() implies text_lt(
                (#[trigger] p[i]).key@,
                (#[trigger] p[j]).key@,
            ) by {
                assert(p[i] == entries[i] && p[j] == entries[j]);
            }
        }
        lemma_select(p, other, how);
        let d = select(p, other, how);
        let s = select(entries, other, how);
        assert forall|x: Seq<char>| #[trigger] d.contains(x) implies text_lt(x, e.key@) by {
            let i = choose|i: int|
                0 <= i < p.len() && (#[trigger] p[i]).key@ == x && standing(x, p[i].value@, other)
                    == how;
            assert(p[i] == entries[i]);
            assert(text_lt(entries[i].key@, entries[entries.len() - 1].key@));
        }
        assert forall|i: int, j: int| 0 <= i < j < s.len() implies text_lt(
            #[trigger] s[i],
            #[trigger] s[j],
        ) by {
            assert(s[i] == d[i]);
            assert(d.contains(d[i]));
            if j < d.len() {
                assert(text_lt(d[i], d[j]));
            }
        }
        assert forall|i: int|
            0 <= i < entries.len() && standing(
                (#[trigger] entries[i]).key@,
                entries[i].value@,
                other,
            ) == how implies s.contains(entries[i].key@) by {
            if i < p.len() {
                assert(p[i] == entries[i]);
                assert(d.contains(p[i].key@));
                let k = choose|k: int| 0 <= k < d.len() && d[k] == p[i].key@;
                assert(s[k] == d[k]);
            } else {
                assert(s[d.len() as int] == e.key@);
            }
        }
        assert forall|x: Seq<char>| #[trigger] s.contains(x) implies exists|i: int|
            0 <= i < entries.len() && (#[trigger] entries[i]).key@ == x && standing(
                x,
                entries[i].value@,
                other,
            ) == how by {
            let k = choose|k: int| 0 <= k < s.len() && s[k] == x;
            if k < d.len() {
                assert(d[k] == x);
                assert(d.contains(x));
                let i = choose|i: int|
                    0 <= i < p.len() && (#[trigger] p[i]).key@ == x && standing(
                        x,
                        p[i].value@,
                        other,
                    ) == how;
                assert(entries[i] == p[i]);
            } else {
                assert(entries[entries.len() - 1].key@ == x);
            }
        }
    }
}

proof fn lemma_lists(
    entries: Seq<Entry<String>>,
    look: Map<Seq<char>, String>,
    other: Map<Seq<char>, String>,
    how: Standing,
)
    requires
        keys_rise(entries),
        look == entry_map(entries),
        forall|i: int|
            0 <= i < entries.len() ==> look.contains_key((#[trigger] entries[i]).key@)
                && look[entries[i].key@] == entries[i].value,
    ensures
        lists_paths(select(entries, other, how), look, other, how),
{
    lemma_select(entries, other, how);
    let s = select(entries, other, how);
    assert forall|path: Seq<char>| s.contains(path) <==> #[trigger] stands(
        look,
        other,
        how,
        path,
    ) by {
        if s.contains(path) {
            let i = choose|i: int|
                0 <= i < entries.len() && (#[trigger] entries[i]).key@ == path && standing(
                    path,
                    entries[i].value@,
                    other,
                ) == how;
            assert(look[entries[i].key@] == entries[i].value);
        }
        if stands(look, other, how, path) {
            assert(has_entry(entries, path));
            let i = choose|i: int| 0 <= i < entries.len() && (#[trigger] entries[i]).key@ == path;
            assert(look[entries[i].key@] == entries[i].value);
            assert(s.contains(entries[i].key@));
        }
    }
}

/// The paths of one look that the other lacks, has with other content, and has
/// with the same content.
fn sort_paths(look: &TextMap<String>, other: &TextMap<String>) -> (r: (
    Vec<String>,
    Vec<String>,
    Vec<String>,
))
    ensures
        lists_paths(texts(r.0@), look@, other@, Standing::Lacking),
        lists_paths(texts(r.1@), look@, other@, Standing::Different),
        lists_paths(texts(r.2@), look@, other@, Standing::Same),
        r.0@.len() + r.1@.len() + r.2@.len() == look.listing().len(),
{
    let n: usize = look.len();
    let ghost es = look.listing();
    let mut lacking: Vec<String> = Vec::new();
    let mut different: Vec<String> = Vec::new();
    let mut same: Vec<String> = Vec::new();
    let mut i: usize = 0;
    proof {
        assert(texts(lacking@) =~= select(es.take(0), other@, Standing::Lacking));
        assert(texts(different@) =~= select(es.take(0), other@, Standing::Different));
        assert(texts(same@) =~= select(es.take(0), other@, Standing::Same));
    }
    while i < n
        invariant
            i <= n,
            es == look.listing(),
            n == es.len(),
            texts(lacking@) == select(es.take(i as int), other@, Standing::Lacking),
            texts(different@) == select(es.take(i as int), other@, Standing::Different),
            texts(same@) == select(es.take(i as int), other@, Standing::Same),
            lacking@.len() + different@.len() + same@.len() == i,
        decreases n - i,
    {
        let e = look.at(i);
        let ghost (a, b, c) = (lacking@, different@, same@);
        proof {
            assert(es.take(i + 1).drop_last() =~= es.take(i as int));
            assert(es.take(i + 1).last() == es[i as int]);
        }
        match other.get(e.key.as_str()) {
            None => {
                lacking.push(e.key.clone());
                assert(texts(lacking@) =~= texts(a).push(e.key@));
            },
            Some(h) => {
                if same_text(h.as_str(), e.value.as_str()) {
                    same.push(e.key.clone());
                    assert(texts(same@) =~= texts(c).push(e.key@));
                } else {
                    different.push(e.key.clone());
                    assert(texts(different@) =~= texts(b).push(e.key@));
                }
            },
        }
        i += 1;
    }
    proof {
        assert(es.take(i as int) =~= es);
        lemma_lists(es, look@, other@, Standing::Lacking);
        lemma_lists(es, look@, other@, Standing::Different);
        lemma_lists(es, look@, other@, Standing::Same);
    }
    (lacking, different, same)
}

/// What changed from the stored look at a tree to the current one.
pub fn detect_changes(stored: &TextMap<String>, current: &TextMap<String>) -> (r: Changes)
    ensures
        lists_paths(texts(r.added@), current@, stored@, Standing::Lacking),
        lists_paths(texts(r.modified@), current@, stored@, Standing::Different),
        lists_paths(texts(r.unchanged@), current@, stored@, Standing::Same),
        lists_paths(texts(r.deleted@), stored@, current@, Standing::Lacking),
        r.added@.len() + r.modified@.len() + r.unchanged@.len() == current.listing().len(),
{
    let (added, modified, unchanged) = sort_paths(current, stored);
    let (deleted, _, _) = sort_paths(stored, current);
    Changes { added, modified, deleted, unchanged }
}

impl Changes {
    /// Nothing was added, modified or deleted.
    pub open spec fn quiet(self) -> bool {
        self.added@.len() == 0 && self.modified@.len() == 0 && self.deleted@.len() == 0
    }

    /// Whether anything changed.
    pub fn any(&self) -> (r: bool)
        ensures
            r == !self.quiet(),
    {
        self.added.len() > 0 || self.modified.len() > 0 || self.deleted.len() > 0
    }

    /// The paths to read anew: those added, then those modified.
    pub fn to_process(&self) -> (r: Vec<String>)
        ensures
            texts(r@) == texts(self.added@) + texts(self.modified@),
    {
        let mut r = copy_all(&self.added);
        let mut more = copy_all(&self.modified);
        let ghost a = r@;
        let ghost b = more@;
        r.append(&mut more);
        assert(texts(r@) =~= texts(a) + texts(b));
        r
    }
}

/// Each path of either look is in exactly one of the four lists.
pub proof fn lemma_changes_partition(
    stored: Map<Seq<char>, String>,
    current: Map<Seq<char>, String>,
    changes: Changes,
    path: Seq<char>,
)
    requires
        lists_paths(texts(changes.added@), current, stored, Standing::Lacking),
        lists_paths(texts(changes.modified@), current, stored, Standing::Different),
        lists_paths(texts(changes.unchanged@), current, stored, Standing::Same),
        lists_paths(texts(changes.deleted@), stored, current, Standing::Lacking),
    ensures
        texts(changes.added@).contains(path) <==> current.contains_key(path)
            && !stored.contains_key(path),
        texts(changes.deleted@).contains(path) <==> stored.contains_key(path)
            && !current.contains_key(path),
        texts(changes.modified@).contains(path) <==> stored.contains_key(path)
            && current.contains_key(path) && stored[path]@ != current[path]@,
        texts(changes.unchanged@).contains(path) <==> stored.contains_key(path)
            && current.contains_key(path) && stored[path]@ == current[path]@,
{
    assert(texts(changes.added@).contains(path) <==> stands(
        current,
        stored,
        Standing::Lacking,
        path,
    ));
    assert(texts(changes.modified@).contains(path) <==> stands(
        current,
        stored,
        Standing::Different,
        path,
    ));
    assert(texts(changes.unchanged@).contains(path) <==> stands(
        current,
        stored,
        Standing::Same,
        path,
    ));
    assert(texts(changes.deleted@).contains(path) <==> stands(
        stored,
        current,
        Standing::Lacking,
        path,
    ));
}

/// Looking twice at a tree that did not change finds nothing to do.
pub proof fn lemma_second_look_is_quiet(look: Map<Seq<char>, String>, changes: Changes)
    requires
        lists_paths(texts(changes.added@), look, look, Standing::Lacking),
        lists_paths(texts(changes.modified@), look, look, Standing::Different),
        lists_paths(texts(changes.unchanged@), look, look, Standing::Same),
        lists_paths(texts(changes.deleted@), look, look, Standing::Lacking),
    ensures
        changes.quiet(),
        forall|path: Seq<char>| #[trigger]
            look.contains_key(path) ==> texts(changes.unchanged@).contains(path),
{
    let a = texts(changes.added@);
    let m = texts(changes.modified@);
    let d = texts(changes.deleted@);
    if a.len() > 0 {
        assert(a.contains(a[0]));
        lemma_changes_partition(look, look, changes, a[0]);
    }
    if m.len() > 0 {
        assert(m.contains(m[0]));
        lemma_changes_partition(look, look, changes, m[0]);
    }
    if d.len() > 0 {
        assert(d.contains(d[0]));
        lemma_changes_partition(look, look, changes, d[0]);
    }
    assert(a.len() == changes.added@.len() && m.len() == changes.modified@.len() && d.len()
        == changes.deleted@.len());
    assert forall|path: Seq<char>| #[trigger] look.contains_key(path) implies texts(
        changes.unchanged@,
    ).contains(path) by {
        lemma_changes_partition(look, look, changes, path);
    }
}

} // verus!
