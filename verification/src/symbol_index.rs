//! Where symbols are defined, and which definition a reference means.

use vstd::prelude::*;
use crate::collections::{TextMap, TextSet};
use crate::text::{
    char_at, chars_of, contains_text, find_char, has_part, non_empty, non_empty_parts, replace_char,
    same_text, split, split_at_char, texts, with_replaced,
};

verus! {

/// The file and the repository that define a symbol.
pub struct Site {
    pub file: String,
    pub repo: String,
}

impl Site {
    /// The texts of the site.
    pub open spec fn texts(self) -> (Seq<char>, Seq<char>) {
        (self.file@, self.repo@)
    }
}

/// One definition of a symbol.
pub struct Definition {
    pub symbol: String,
    pub file: String,
    pub repo: String,
}

/// Definition sites by symbol name. The first site of a name is kept; a name
/// with another site is ambiguous.
pub struct SymbolIndex {
    sites: TextMap<Site>,
    ambiguous: TextSet,
}

impl SymbolIndex {
    /// The first site of each name.
    pub closed spec fn sites(self) -> Map<Seq<char>, (Seq<char>, Seq<char>)> {
        self.sites@.map_values(|s: Site| s.texts())
    }

    /// The names with more than one site.
    pub closed spec fn ambiguous(self) -> Set<Seq<char>> {
        self.ambiguous@
    }

    /// The empty index.
    pub fn new() -> (r: SymbolIndex)
        ensures
            r.sites() == Map::<Seq<char>, (Seq<char>, Seq<char>)>::empty(),
            r.ambiguous() == Set::<Seq<char>>::empty(),
    {
        let r = SymbolIndex { sites: TextMap::new(), ambiguous: TextSet::new() };
        assert(r.sites() =~= Map::<Seq<char>, (Seq<char>, Seq<char>)>::empty());
        r
    }

    /// Whether `name` has more than one site.
    pub fn is_ambiguous(&self, name: &str) -> (r: bool)
        ensures
            r == self.ambiguous().contains(name@),
    {
        self.ambiguous.contains(name)
    }

    /// The first site of `name`.
    pub fn site(&self, name: &str) -> (r: Option<&Site>)
        ensures
            r is Some == self.sites().contains_key(name@),
            r matches Some(s) ==> s.texts() == self.sites()[name@],
    {
        self.sites.get(name)
    }
}

/// Records one definition. The first definition of a name keeps its place;
/// one that differs in file or repository makes the name ambiguous.
pub fn index_symbol(index: &mut SymbolIndex, sym: String, file: String, repo_id: &str)
    ensures
        ({
            let site = (file@, repo_id@);
            let before = *old(index);
            let after = *final(index);
            if before.sites().contains_key(sym@) {
                &&& after.sites() == before.sites()
                &&& after.ambiguous() == if before.sites()[sym@] == site {
                    before.ambiguous()
                } else {
                    before.ambiguous().insert(sym@)
                }
            } else {
                &&& after.sites() == before.sites().insert(sym@, site)
                &&& after.ambiguous() == before.ambiguous()
            }
        }),
{
    let ghost m = index.sites@;
    let same: Option<bool> = match index.sites.get(sym.as_str()) {
        Some(s) => Some(
            same_text(s.file.as_str(), file.as_str()) && same_text(s.repo.as_str(), repo_id),
        ),
        None => None,
    };
    match same {
        Some(true) => {},
        Some(false) => {
            let _ = index.ambiguous.insert(sym);
        },
        None => {
            let ghost key = sym@;
            let site = Site { file, repo: repo_id.to_string() };
            let ghost s = site;
            index.sites.insert(sym, site);
            assert(index.sites() =~= m.map_values(|s: Site| s.texts()).insert(key, s.texts()));
        },
    }
}

/// A definition of `symbol` at `site` stands among `defs`.
pub open spec fn defined_at(
    defs: Seq<Definition>,
    symbol: Seq<char>,
    site: (Seq<char>, Seq<char>),
) -> bool {
    exists|i: int|
        0 <= i < defs.len() && (#[trigger] defs[i]).symbol@ == symbol && (
            defs[i].file@,
            defs[i].repo@,
        ) == site
}

/// The place of the first definition of `symbol`, or -1.
pub open spec fn first_definition(defs: Seq<Definition>, symbol: Seq<char>) -> int
    decreases defs.len(),
{
    if defs.len() == 0 {
        -1
    } else {
        let d = first_definition(defs.drop_last(), symbol);
        if d < 0 && defs.last().symbol@ == symbol {
            defs.len() - 1
        } else {
            d
        }
    }
}

proof fn lemma_first_definition(defs: Seq<Definition>, symbol: Seq<char>)
    ensures
        ({
            let d = first_definition(defs, symbol);
            &&& -1 <= d < defs.len()
            &&& d >= 0 ==> defs[d].symbol@ == symbol
            &&& d == -1 ==> forall|i: int|
                0 <= i < defs.len() ==> (#[trigger] defs[i]).symbol@ != symbol
            &&& d >= 0 ==> forall|i: int| 0 <= i < d ==> (#[trigger] defs[i]).symbol@ != symbol
        }),
    decreases defs.len(),
{
    if defs.len() > 0 {
        let p = defs.drop_last();
        lemma_first_definition(p, symbol);
        assert forall|i: int| 0 <= i < p.len() implies p[i] == #[trigger] defs[i] by {}
    }
}

/// The index holds what `defs` define: each name with its first site, and as
/// ambiguous the names that are defined at two different sites.
pub open spec fn indexes(index: SymbolIndex, defs: Seq<Definition>) -> bool {
    &&& forall|s: Seq<char>| #[trigger]
        index.sites().contains_key(s) <==> first_definition(defs, s) >= 0
    &&& forall|s: Seq<char>| #[trigger]
        index.sites().contains_key(s) ==> index.sites()[s] == (
            defs[first_definition(defs, s)].file@,
            defs[first_definition(defs, s)].repo@,
        )
    &&& forall|s: Seq<char>| #[trigger]
        index.ambiguous().contains(s) <==> exists|a: (Seq<char>, Seq<char>), b: (Seq<char>, Seq<char>)|
            a != b && #[trigger] defined_at(defs, s, a) && #[trigger] defined_at(defs, s, b)
}

proof fn lemma_defined_push(
    defs: Seq<Definition>,
    d: Definition,
    symbol: Seq<char>,
    site: (Seq<char>, Seq<char>),
)
    ensures
        defined_at(defs.push(d), symbol, site) <==> defined_at(defs, symbol, site) || (d.symbol@
            == symbol && (d.file@, d.repo@) == site),
{
    let all = defs.push(d);
    if defined_at(defs, symbol, site) {
        let i = choose|i: int|
            0 <= i < defs.len() && (#[trigger] defs[i]).symbol@ == symbol && (
                defs[i].file@,
                defs[i].repo@,
            ) == site;
        assert(all[i] == defs[i]);
    }
    if d.symbol@ == symbol && (d.file@, d.repo@) == site {
        assert(all[defs.len() as int] == d);
    }
    if defined_at(all, symbol, site) {
        let i = choose|i: int|
            0 <= i < all.len() && (#[trigger] all[i]).symbol@ == symbol && (
                all[i].file@,
                all[i].repo@,
            ) == site;
        if i < defs.len() {
            assert(defs[i] == all[i]);
        }
    }
}

/// Indexes all definitions in order.
pub fn build_index(defs: Vec<Definition>) -> (r: SymbolIndex)
    ensures
        indexes(r, defs@),
{
    let ghost all = defs@;
    let mut index = SymbolIndex::new();
    proof {
        assert(all.take(0) =~= Seq::<Definition>::empty());
        assert forall|s: Seq<char>, a: (Seq<char>, Seq<char>)| !defined_at(all.take(0), s, a) by {}
    }
    for d in it: defs
        invariant
            it.seq() == all,
            indexes(index, all.take(it.index() as int)),
    {
        let ghost done = all.take(it.index() as int);
        let ghost next = all.take(it.index() as int + 1);
        let ghost before = index;
        let ghost sym = d.symbol@;
        let ghost site = (d.file@, d.repo@);
        let ghost def = d;
        index_symbol(&mut index, d.symbol, d.file, d.repo.as_str());
        proof {
            assert(next =~= done.push(def));
            assert(next.drop_last() =~= done);
            lemma_first_definition(done, sym);
            assert forall|s: Seq<char>| #[trigger] first_definition(next, s) == if
                first_definition(done, s) < 0 && s == sym {
                done.len() as int
            } else {
                first_definition(done, s)
            } by {}
            assert forall|s: Seq<char>| #[trigger] index.sites().contains_key(s) implies
                index.sites()[s] == (
                next[first_definition(next, s)].file@,
                next[first_definition(next, s)].repo@,
            ) by {
                lemma_first_definition(done, s);
                if before.sites().contains_key(s) {
                    let k = first_definition(done, s);
                    assert(next[k] == done[k]);
                }
            }
            assert forall|s: Seq<char>| #[trigger]
                index.ambiguous().contains(s) <==> exists|
                    a: (Seq<char>, Seq<char>),
                    b: (Seq<char>, Seq<char>),
                |
                    a != b && #[trigger] defined_at(next, s, a) && #[trigger] defined_at(
                        next,
                        s,
                        b,
                    ) by {
                assert forall|x: (Seq<char>, Seq<char>)| #[trigger]
                    defined_at(next, s, x) <==> defined_at(done, s, x) || (sym == s && site
                        == x) by {
                    lemma_defined_push(done, def, s, x);
                }
                lemma_first_definition(done, s);
                if before.ambiguous().contains(s) {
                    let (a, b) = choose|a: (Seq<char>, Seq<char>), b: (Seq<char>, Seq<char>)|
                        a != b && #[trigger] defined_at(done, s, a) && #[trigger] defined_at(
                            done,
                            s,
                            b,
                        );
                    assert(defined_at(next, s, a) && defined_at(next, s, b));
                } else if s == sym && before.sites().contains_key(sym) && before.sites()[sym]
                    != site {
                    let k = first_definition(done, s);
                    let a = (done[k].file@, done[k].repo@);
                    assert(defined_at(done, s, a));
                    assert(defined_at(next, s, a) && defined_at(next, s, site));
                } else {
                    if exists|a: (Seq<char>, Seq<char>), b: (Seq<char>, Seq<char>)|
                        a != b && #[trigger] defined_at(next, s, a) && #[trigger] defined_at(
                            next,
                            s,
                            b,
                        ) {
                        let (a, b) = choose|a: (Seq<char>, Seq<char>), b: (Seq<char>, Seq<char>)|
                            a != b && #[trigger] defined_at(next, s, a) && #[trigger] defined_at(
                                next,
                                s,
                                b,
                            );
                        if !(defined_at(done, s, a) && defined_at(done, s, b)) {
                            let k = first_definition(done, s);
                            let other = if defined_at(done, s, a) { a } else { b };
                            assert(defined_at(done, s, other));
                            assert(k >= 0);
                            assert(defined_at(done, s, (done[k].file@, done[k].repo@)));
                            assert(before.sites()[s] == site);
                            assert(defined_at(done, s, site));
                            assert(false);
                        }
                    }
                }
            }
        }
    }
    assert(all.take(all.len() as int) =~= all);
    index
}

/// The segments of a class name between `\`, `/` and `:`.
pub open spec fn segments(class: Seq<char>) -> Seq<Seq<char>> {
    non_empty(split(replace_char(replace_char(class, '/', '\\'), ':', '\\'), '\\'))
}

/// The segments of the class part of a `Class#member` name; none where there
/// is no `#`.
pub open spec fn class_segments(callee: Seq<char>) -> Seq<Seq<char>> {
    let i = find_char(callee, '#');
    if i < 0 {
        Seq::empty()
    } else {
        segments(callee.take(i))
    }
}

/// Splits the class part of a `Class#member` name into the segments of its
/// namespace and its base name.
pub fn class_path(callee: &str) -> (r: Option<(Vec<String>, String)>)
    ensures
        r is Some == (class_segments(callee@).len() > 0),
        r matches Some(p) ==> texts(p.0@) == class_segments(callee@).drop_last() && p.1@
            == class_segments(callee@).last(),
{
    let cs = chars_of(callee);
    let cut: usize = match char_at(&cs, '#', 0) {
        Some(i) => i,
        None => {
            return None;
        },
    };
    let class = vstd::slice::slice_subrange(&cs, 0, cut);
    assert(class@ =~= callee@.take(cut as int));
    let uniform = with_replaced(&with_replaced(class, '/', '\\'), ':', '\\');
    let parts = split_at_char(&uniform, '\\');
    let mut segs = non_empty_parts(&parts);
    let ghost all = segs@;
    match segs.pop() {
        Some(base) => {
            assert(texts(segs@) =~= texts(all).drop_last());
            assert(texts(all).last() == base@);
            Some((segs, base))
        },
        None => None,
    }
}

/// The site that a callee means: that of its whole name, else that of the base
/// name of its class where this is not ambiguous and the parent segment, if
/// any, occurs in the path of the file.
pub open spec fn resolved(
    sites: Map<Seq<char>, (Seq<char>, Seq<char>)>,
    ambiguous: Set<Seq<char>>,
    callee: Seq<char>,
) -> Option<(Seq<char>, Seq<char>)> {
    let segs = class_segments(callee);
    if sites.contains_key(callee) {
        Some(sites[callee])
    } else if segs.len() == 0 || ambiguous.contains(segs.last()) || !sites.contains_key(
        segs.last(),
    ) {
        None
    } else if segs.len() >= 2 && !contains_text(sites[segs.last()].0, segs[segs.len() - 2]) {
        None
    } else {
        Some(sites[segs.last()])
    }
}

/// The texts of a site, where there is one.
pub open spec fn site_texts(s: Option<Site>) -> Option<(Seq<char>, Seq<char>)> {
    match s {
        Some(s) => Some(s.texts()),
        None => None,
    }
}

fn copy_site(s: &Site) -> (r: Site)
    ensures
        r.texts() == s.texts(),
{
    Site { file: s.file.clone(), repo: s.repo.clone() }
}

/// Resolves a callee to the file and repository that define it.
pub fn resolve_callee(callee: &str, index: &SymbolIndex) -> (r: Option<Site>)
    ensures
        site_texts(r) == resolved(index.sites(), index.ambiguous(), callee@),
{
    if let Some(s) = index.site(callee) {
        return Some(copy_site(s));
    }
    let (namespace, base) = match class_path(callee) {
        Some(p) => p,
        None => {
            return None;
        },
    };
    if index.is_ambiguous(base.as_str()) {
        return None;
    }
    let site = match index.site(base.as_str()) {
        Some(s) => s,
        None => {
            return None;
        },
    };
    let ghost segs = class_segments(callee@);
    assert(texts(namespace@).len() == namespace@.len());
    assert(segs.drop_last().len() == segs.len() - 1);
    if namespace.len() > 0 {
        let parent = &namespace[namespace.len() - 1];
        assert(texts(namespace@)[namespace@.len() - 1] == parent@);
        assert(segs.drop_last()[segs.len() - 2] == segs[segs.len() - 2]);
        let path = chars_of(site.file.as_str());
        let part = chars_of(parent.as_str());
        if !has_part(&path, &part) {
            return None;
        }
    }
    Some(copy_site(site))
}

/// A member of a class never resolves by the name of the class where that is
/// ambiguous.
pub proof fn lemma_ambiguous_never_resolves(
    sites: Map<Seq<char>, (Seq<char>, Seq<char>)>,
    ambiguous: Set<Seq<char>>,
    callee: Seq<char>,
)
    requires
        !sites.contains_key(callee),
        class_segments(callee).len() > 0,
        ambiguous.contains(class_segments(callee).last()),
    ensures
        resolved(sites, ambiguous, callee) is None,
{
}

/// What resolves by the name of its class lies in a file whose path has the
/// last part of the namespace in it.
pub proof fn lemma_namespace_must_match(
    sites: Map<Seq<char>, (Seq<char>, Seq<char>)>,
    ambiguous: Set<Seq<char>>,
    callee: Seq<char>,
)
    requires
        !sites.contains_key(callee),
        class_segments(callee).len() >= 2,
        resolved(sites, ambiguous, callee) is Some,
    ensures
        contains_text(
            resolved(sites, ambiguous, callee)->Some_0.0,
            class_segments(callee)[class_segments(callee).len() - 2],
        ),
{
}

} // verus!
