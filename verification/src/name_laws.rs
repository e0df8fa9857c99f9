//! What names are read from symbols, and where named things are looked up.

use vstd::prelude::*;
use crate::claim_ingestion::{RefPlanView, planned};
use crate::community_naming::{NameRow, Nameable, after_reply, bare, first_line, slashes, unnamed};
use crate::execution_features_naming::{
    after_colons, after_last, before_first, feature_name, leaf_text, member_text,
};
use crate::graph_expansion::{NeighborScore, lookup_repositories, lookups_of, short_names_in};
use crate::order::{Ranked, arranged, lemma_arranged};
use crate::patterns::{is_separator, short_name};
use crate::symbol_cluster_detection::{
    bare_name, last_segment, without_brackets, without_separators,
};
use crate::symbol_index::{
    Definition, SymbolIndex, class_segments, defined_at, first_definition, indexes, resolved,
};
use crate::text::{
    find_char, is_space, lacks, lemma_find_char_from, lemma_rfind_char, occurs_at, rfind_char,
    rfind_text, starts_with, strip_end, strip_start, trim,
};
use crate::text_laws::lemma_last_occurrence;

verus! {

/// What follows the last of a character in a text follows it in a longer one too.
proof fn lemma_after_last(x: Seq<char>, f: Seq<char>, c: char)
    requires
        lacks(f, c),
    ensures
        after_last(x + f, c) == after_last(x, c) + f,
        after_last(x.push(c), c).len() == 0,
{
    let s = x + f;
    lemma_rfind_char(s, c);
    lemma_rfind_char(x, c);
    lemma_rfind_char(x.push(c), c);
    assert(x.push(c)[x.len() as int] == c);
    let r = rfind_char(s, c);
    let q = rfind_char(x, c);
    if q >= 0 {
        assert(s[q] == c);
    }
    if r >= 0 {
        if r >= x.len() {
            assert(s[r] == f[r - x.len()]);
        } else {
            assert(x[r] == c);
        }
    }
    assert(r == q);
    assert(s.skip(r + 1) =~= x.skip(q + 1) + f);
}

proof fn lemma_after_colons(x: Seq<char>, f: Seq<char>)
    requires
        lacks(f, ':'),
    ensures
        after_colons(x + f) == after_colons(x) + f,
        after_colons(x + "::"@).len() == 0,
{
    reveal_strlit("::");
    let p = "::"@;
    let s = x + f;
    lemma_last_occurrence(s, p);
    lemma_last_occurrence(x, p);
    lemma_last_occurrence(x + p, p);
    assert((x + p).subrange(x.len() as int, (x.len() + 2) as int) =~= p);
    assert(occurs_at(x + p, p, x.len() as int));
    assert(rfind_text(x + p, p) == x.len());
    let r = rfind_text(s, p);
    let q = rfind_text(x, p);
    if q >= 0 {
        assert(s.subrange(q, q + 2) =~= x.subrange(q, q + 2));
        assert(occurs_at(s, p, q));
    }
    if r >= 0 {
        assert(s.subrange(r, r + 2)[1] == ':');
        assert(s[r + 1] == ':');
        if r + 1 >= x.len() {
            assert(s[r + 1] == f[r + 1 - x.len()]);
        }
        assert(x.subrange(r, r + 2) =~= s.subrange(r, r + 2));
        assert(occurs_at(x, p, r));
    }
    assert(r >= 0 ==> q >= r);
    assert(q >= 0 ==> r >= q);
    if q >= 0 {
        assert(s.skip(q + 2) =~= x.skip(q + 2) + f);
    }
}

/// The name can stand alone: it has none of the marks that part a symbol.
pub open spec fn is_plain_name(f: Seq<char>) -> bool {
    &&& f.len() > 0
    &&& !is_space(f[0])
    &&& !is_space(f.last())
    &&& lacks(f, '/') && lacks(f, ':') && lacks(f, '.') && lacks(f, '#') && lacks(f, ' ')
    &&& lacks(f, '(') && lacks(f, '<')
}

/// What stands in front of a name: nothing, or something that ends in a slash, two
/// colons or a dot.
pub open spec fn leads_to_name(x: Seq<char>) -> bool {
    x.len() == 0 || x.last() == '/' || x.last() == '.' || (x.len() >= 2 && x.last() == ':' && x[x.len()
        - 2] == ':')
}

proof fn lemma_leaf(x: Seq<char>, f: Seq<char>)
    requires
        leads_to_name(x),
        lacks(f, '/') && lacks(f, ':') && lacks(f, '.'),
    ensures
        leaf_text(x + f) == f,
{
    lemma_after_last(x, f, '/');
    let y = after_last(x, '/');
    lemma_after_colons(y, f);
    let z = after_colons(y);
    lemma_after_last(z, f, '.');
    let e = Seq::<char>::empty();
    reveal_strlit("::");
    lemma_last_occurrence(e, "::"@);
    assert(after_last(e, '.') =~= e);
    if x.len() == 0 {
        assert(x =~= e);
        assert(y =~= e);
        assert(z =~= e);
    } else {
        let front = x.drop_last();
        assert(x =~= front.push(x.last()));
        lemma_after_last(front, e, '/');
        if x.last() == '/' {
            assert(y =~= e);
            assert(z =~= e);
        } else if x.last() == '.' {
            let dot = seq!['.'];
            lemma_after_last(front, dot, '/');
            assert(front + dot =~= x);
            let v = after_last(front, '/');
            lemma_after_colons(v, dot);
            lemma_after_last(after_colons(v), e, '.');
            assert(after_colons(v) + dot =~= after_colons(v).push('.'));
        } else {
            let w = front.drop_last();
            assert(w + "::"@ =~= x);
            lemma_after_last(w, "::"@, '/');
            lemma_after_colons(after_last(w, '/'), e);
            assert(z =~= e);
        }
    }
    assert(after_last(z, '.') =~= e);
    assert(e + f =~= f);
}

proof fn lemma_untrimmed(s: Seq<char>)
    requires
        s.len() > 0,
        !is_space(s[0]),
        !is_space(s.last()),
    ensures
        trim(s) == s,
{
}

proof fn lemma_before(m: Seq<char>, t: Seq<char>, c: char)
    requires
        lacks(m, c),
        t.len() == 0 || t[0] == c,
    ensures
        before_first(m + t, c) == m,
{
    let s = m + t;
    lemma_find_char_from(s, c, 0);
    if t.len() > 0 {
        assert(s[m.len() as int] == c);
        let i = find_char(s, c);
        if i < m.len() {
            assert(s[i] == m[i]);
        }
        assert(s.take(i) =~= m);
    } else {
        assert(s =~= m);
    }
}

proof fn lemma_member(m: Seq<char>, t: Seq<char>)
    requires
        is_plain_name(m),
        t.len() == 0 || t[0] == '(' && !is_space(t.last()),
    ensures
        member_text(m + t) == Some(m),
{
    let s = m + t;
    assert(s[0] == m[0]);
    assert(s.last() == if t.len() > 0 {
        t.last()
    } else {
        m.last()
    });
    lemma_untrimmed(s);
    reveal_strlit("<get>");
    reveal_strlit("<set>");
    reveal_strlit("<constructor>");
    assert(s[0] != '<');
    if starts_with(s, "<get>"@) {
        assert(s.subrange(0, 5)[0] == '<');
    }
    if starts_with(s, "<set>"@) {
        assert(s.subrange(0, 5)[0] == '<');
    }
    assert("<constructor>"@[0] == '<');
    lemma_before(m, t, '(');
    let e = Seq::<char>::empty();
    lemma_before(m, e, '<');
    assert(m + e =~= m);
    lemma_untrimmed(m);
}

proof fn lemma_last_word(front: Seq<char>, q: Seq<char>)
    requires
        front.len() == 0 || front.last() == ' ',
        lacks(q, ' '),
        q.len() > 0,
        !is_space(q[0]),
        !is_space(q.last()),
    ensures
        trim(after_last(front + q, ' ')) == q,
{
    lemma_after_last(front, q, ' ');
    if front.len() > 0 {
        let d = front.drop_last();
        assert(front =~= d.push(' '));
        lemma_after_last(d, Seq::<char>::empty(), ' ');
    }
    assert(after_last(front, ' ') + q =~= q);
    lemma_untrimmed(q);
}

/// A feature that starts at a method goes by the class and the method, whatever
/// stands in front of the class and whatever arguments the method has.
pub proof fn lemma_method_feature(
    front: Seq<char>,
    path: Seq<char>,
    class: Seq<char>,
    method: Seq<char>,
    arguments: Seq<char>,
)
    requires
        front.len() == 0 || front.last() == ' ',
        leads_to_name(path),
        lacks(path, ' '),
        path.len() > 0 ==> !is_space(path[0]),
        is_plain_name(class),
        is_plain_name(method),
        arguments.len() == 0 || arguments[0] == '(' && !is_space(arguments.last()),
        lacks(arguments, ' ') && lacks(arguments, '#'),
    ensures
        feature_name(front + (path + class + "#"@ + (method + arguments))) == class + "."@
            + method,
{
    reveal_strlit("#");
    let m = method + arguments;
    let h = path + class;
    let q = h + "#"@ + m;
    assert(q[0] == if path.len() > 0 {
        path[0]
    } else {
        class[0]
    });
    assert(q.last() == if arguments.len() > 0 {
        arguments.last()
    } else {
        method.last()
    });
    assert forall|i: int| 0 <= i < q.len() implies q[i] != ' ' by {
        if i < path.len() {
            assert(q[i] == path[i]);
        } else if i < h.len() {
            assert(q[i] == class[i - path.len()]);
        } else if i == h.len() {
            assert(q[i] == '#');
        } else if i < h.len() + 1 + method.len() {
            assert(q[i] == method[i - h.len() - 1]);
        } else {
            assert(q[i] == arguments[i - h.len() - 1 - method.len()]);
        }
    }
    lemma_last_word(front, q);
    lemma_rfind_char(q, '#');
    assert(q[h.len() as int] == '#');
    let hash = rfind_char(q, '#');
    if hash > h.len() {
        if hash < h.len() + 1 + method.len() {
            assert(q[hash] == method[hash - h.len() - 1]);
        } else {
            assert(q[hash] == arguments[hash - h.len() - 1 - method.len()]);
        }
    }
    assert(q.take(hash) =~= path + class);
    assert(q.skip(hash + 1) =~= m);
    lemma_leaf(path, class);
    lemma_member(method, arguments);
}

/// A feature that starts at a constructor goes by the class.
pub proof fn lemma_constructor_feature(front: Seq<char>, path: Seq<char>, class: Seq<char>)
    requires
        front.len() == 0 || front.last() == ' ',
        leads_to_name(path),
        lacks(path, ' '),
        path.len() > 0 ==> !is_space(path[0]),
        is_plain_name(class),
    ensures
        feature_name(front + (path + class + "#<constructor>"@)) == class,
{
    reveal_strlit("#<constructor>");
    reveal_strlit("<constructor>");
    let m = "#<constructor>"@;
    let h = path + class;
    let q = h + m;
    assert(q[0] == if path.len() > 0 {
        path[0]
    } else {
        class[0]
    });
    assert(m.len() == 14 && m.last() == '>');
    assert(q.last() == '>');
    assert(lacks(m, ' '));
    assert forall|i: int| 0 <= i < q.len() implies q[i] != ' ' by {
        if i < path.len() {
            assert(q[i] == path[i]);
        } else if i < h.len() {
            assert(q[i] == class[i - path.len()]);
        } else {
            assert(q[i] == m[i - h.len()]);
        }
    }
    lemma_last_word(front, q);
    lemma_rfind_char(q, '#');
    assert(q[h.len() as int] == '#');
    let hash = rfind_char(q, '#');
    if hash > h.len() {
        assert(q[hash] == m[hash - h.len()]);
    }
    assert(q.take(hash) =~= path + class);
    assert(q.skip(hash + 1) =~= "<constructor>"@);
    lemma_leaf(path, class);
    lemma_untrimmed("<constructor>"@);
}

/// A feature that starts at a function goes by the function.
pub proof fn lemma_function_feature(front: Seq<char>, path: Seq<char>, function: Seq<char>)
    requires
        front.len() == 0 || front.last() == ' ',
        leads_to_name(path),
        lacks(path, ' ') && lacks(path, '#'),
        path.len() > 0 ==> !is_space(path[0]),
        is_plain_name(function),
    ensures
        feature_name(front + (path + function)) == function,
{
    let q = path + function;
    assert(q[0] == if path.len() > 0 {
        path[0]
    } else {
        function[0]
    });
    assert forall|i: int| 0 <= i < q.len() implies q[i] != ' ' && q[i] != '#' by {
        if i < path.len() {
            assert(q[i] == path[i]);
        } else {
            assert(q[i] == function[i - path.len()]);
        }
    }
    lemma_last_word(front, q);
    lemma_rfind_char(q, '#');
    lemma_leaf(path, function);
    lemma_member(function, Seq::<char>::empty());
    assert(function + Seq::<char>::empty() =~= function);
}

/// The short name of a symbol is what follows its last separator, without the
/// brackets of a call.
pub proof fn lemma_bare_name(path: Seq<char>, name: Seq<char>, call: Seq<char>)
    requires
        path.len() == 0 || path.last() == '.' || path.last() == ':' || path.last() == '/'
            || path.last() == '#' || path.last() == '\\',
        name.len() > 0,
        lacks(name, '.') && lacks(name, ':') && lacks(name, '/') && lacks(name, '#') && lacks(
            name,
            '\\',
        ) && lacks(name, '(') && lacks(name, ')'),
        call == ""@ || call == "()"@ || call == "()."@,
    ensures
        bare_name(path + name + call) == name,
{
    reveal_strlit("");
    reveal_strlit("()");
    reveal_strlit("().");
    let s = path + name;
    let full = s + call;
    assert(s.last() == name.last());
    assert(without_brackets(s) == s);
    if call == "()."@ {
        assert(full.drop_last() =~= s.push('(').push(')'));
        assert(s.push('(').push(')').drop_last() =~= s.push('('));
        assert(s.push('(').drop_last() =~= s);
        assert(full.last() == '.');
        assert(without_brackets(s.push('(')) == s);
        assert(without_brackets(s.push('(').push(')')) == s);
    } else if call == "()"@ {
        assert(full.drop_last() =~= s.push('('));
        assert(s.push('(').drop_last() =~= s);
        assert(full.last() == ')');
        assert(without_brackets(s.push('(')) == s);
    } else {
        assert(full =~= s);
    }
    assert(without_separators(s) == s);
    lemma_last_segment(path, name);
}

proof fn lemma_last_segment(path: Seq<char>, name: Seq<char>)
    requires
        path.len() == 0 || is_separator(path.last()),
        forall|i: int| 0 <= i < name.len() ==> !is_separator(#[trigger] name[i]),
    ensures
        last_segment(path + name) == name,
    decreases name.len(),
{
    let s = path + name;
    if name.len() > 0 {
        let d = name.drop_last();
        assert forall|i: int| 0 <= i < d.len() implies !is_separator(#[trigger] d[i]) by {
            assert(d[i] == name[i]);
        }
        lemma_last_segment(path, d);
        assert(s.drop_last() =~= path + d);
        assert(s.last() == name[name.len() - 1]);
        assert(d.push(name.last()) =~= name);
    } else {
        assert(s =~= path);
        assert(last_segment(s) =~= name);
    }
}

/// Only communities without a known name are to be named, and all of them.
pub proof fn lemma_unnamed<T: Nameable>(items: Seq<T>, cached: Set<Seq<char>>, p: usize)
    requires
        items.len() <= usize::MAX,
    ensures
        unnamed(items, cached).contains(p) <==> p < items.len() && !cached.contains(
            items[p as int].id_text(),
        ),
    decreases items.len(),
{
    if items.len() > 0 {
        let d = items.drop_last();
        lemma_unnamed(d, cached, p);
        let before = unnamed(d, cached);
        let all = unnamed(items, cached);
        if p < d.len() {
            assert(d[p as int] == items[p as int]);
        }
        if before.contains(p) {
            let k = choose|k: int| 0 <= k < before.len() && before[k] == p;
            assert(all[k] == p);
        }
        if all.contains(p) && !before.contains(p) {
            let k = choose|k: int| 0 <= k < all.len() && all[k] == p;
            if k < before.len() {
                assert(before[k] == p);
            }
        }
        if all.len() > before.len() {
            assert(all[before.len() as int] == items.len() - 1);
        }
    }
}

/// The name in a reply is read from its first line that is more than space.
pub proof fn lemma_first_line(ls: Seq<Seq<char>>, k: int)
    requires
        0 <= k < ls.len(),
        trim(ls[k]).len() > 0,
        forall|i: int| 0 <= i < k ==> trim(#[trigger] ls[i]).len() == 0,
    ensures
        first_line(ls) == Some(trim(ls[k])),
    decreases k,
{
    if k > 0 {
        let d = ls.skip(1);
        assert(trim(ls[0]).len() == 0);
        assert forall|i: int| 0 <= i < k - 1 implies trim(#[trigger] d[i]).len() == 0 by {
            assert(d[i] == ls[i + 1]);
        }
        lemma_first_line(d, k - 1);
    }
}

/// Quotes around a name are taken off, and nothing else is.
pub proof fn lemma_bare_reply(name: Seq<char>)
    requires
        name.len() > 0,
        !is_space(name[0]) && !is_space(name.last()),
        name[0] != '"' && name.last() != '"',
    ensures
        bare(name) == name,
        bare(seq!['"'] + name + seq!['"']) == name,
{
    let q = seq!['"'] + name + seq!['"'];
    let t = name + seq!['"'];
    lemma_untrimmed(name);
    lemma_untrimmed(q);
    assert(q[0] == '"' && q.last() == '"');
    assert(q.skip(1) =~= t);
    assert(t[0] == name[0]);
    assert(strip_start(t, '"') == t);
    assert(strip_start(q, '"') == t);
    assert(t.drop_last() =~= name);
    assert(strip_end(t, '"') == strip_end(name, '"'));
}

proof fn lemma_first_definition(defs: Seq<Definition>, symbol: Seq<char>)
    ensures
        ({
            let r = first_definition(defs, symbol);
            &&& -1 <= r < defs.len()
            &&& r >= 0 ==> defs[r].symbol@ == symbol
            &&& forall|i: int|
                0 <= i < defs.len() && (r < 0 || i < r) ==> (#[trigger] defs[i]).symbol@ != symbol
        }),
    decreases defs.len(),
{
    if defs.len() > 0 {
        let d = defs.drop_last();
        lemma_first_definition(d, symbol);
        let r = first_definition(defs, symbol);
        assert forall|i: int| 0 <= i < defs.len() && (r < 0 || i < r) implies (
        #[trigger] defs[i]).symbol@ != symbol by {
            if i < d.len() {
                assert(d[i] == defs[i]);
            }
        }
    }
}

/// A symbol resolves to the file and repository of its first definition.
pub proof fn lemma_symbol_resolves(index: SymbolIndex, defs: Seq<Definition>, p: int)
    requires
        indexes(index, defs),
        0 <= p < defs.len(),
        forall|i: int| 0 <= i < p ==> (#[trigger] defs[i]).symbol@ != defs[p].symbol@,
    ensures
        resolved(index.sites(), index.ambiguous(), defs[p].symbol@) == Some(
            (defs[p].file@, defs[p].repo@),
        ),
{
    let s = defs[p].symbol@;
    lemma_first_definition(defs, s);
    assert(first_definition(defs, s) == p);
    assert(index.sites().contains_key(s));
}

/// What resolves is a definition: of the symbol itself, or of the class that it is
/// a member of, which then no other file or repository defines.
pub proof fn lemma_resolves_to_definition(
    index: SymbolIndex,
    defs: Seq<Definition>,
    callee: Seq<char>,
    i: int,
    j: int,
)
    requires
        indexes(index, defs),
        resolved(index.sites(), index.ambiguous(), callee) is Some,
        0 <= i < defs.len(),
        0 <= j < defs.len(),
    ensures
        ({
            let site = resolved(index.sites(), index.ambiguous(), callee)->Some_0;
            exists|k: int|
                0 <= k < defs.len() && site == ((#[trigger] defs[k]).file@, defs[k].repo@) && (
                defs[k].symbol@ == callee || (class_segments(callee).len() > 0 && defs[k].symbol@
                    == class_segments(callee).last()))
        }),
        (forall|k: int| 0 <= k < defs.len() ==> (#[trigger] defs[k]).symbol@ != callee)
            && class_segments(callee).len() > 0 && defs[i].symbol@ == class_segments(callee).last()
            && defs[j].symbol@ == class_segments(callee).last() ==> defs[i].file@ == defs[j].file@
            && defs[i].repo@ == defs[j].repo@,
{
    lemma_first_definition(defs, callee);
    let sites = index.sites();
    assert(sites.contains_key(callee) <==> first_definition(defs, callee) >= 0);
    let segs = class_segments(callee);
    if sites.contains_key(callee) {
        let k = first_definition(defs, callee);
        assert(defs[k].symbol@ == callee);
    } else {
        let last = segs.last();
        lemma_first_definition(defs, last);
        assert(sites.contains_key(last));
        let k = first_definition(defs, last);
        assert(defs[k].symbol@ == last);
        if defs[i].symbol@ == last && defs[j].symbol@ == last {
            let a = (defs[i].file@, defs[i].repo@);
            let b = (defs[j].file@, defs[j].repo@);
            assert(defined_at(defs, last, a));
            assert(defined_at(defs, last, b));
            assert(!index.ambiguous().contains(last));
        }
    }
}

proof fn lemma_lookup_repositories(ranked: Seq<NeighborScore>)
    ensures
        lookup_repositories(ranked).no_duplicates(),
        forall|i: int|
            0 <= i < ranked.len() && short_name((#[trigger] ranked[i]).symbol@).len() > 0
                ==> lookup_repositories(ranked).contains(ranked[i].repository_id@),
    decreases ranked.len(),
{
    if ranked.len() > 0 {
        let d = ranked.drop_last();
        lemma_lookup_repositories(d);
        let before = lookup_repositories(d);
        let all = lookup_repositories(ranked);
        assert forall|i: int|
            0 <= i < ranked.len() && short_name((#[trigger] ranked[i]).symbol@).len()
                > 0 implies all.contains(ranked[i].repository_id@) by {
            let id = ranked[i].repository_id@;
            if i < d.len() {
                assert(d[i] == ranked[i]);
                assert(before.contains(id));
            }
            if before.contains(id) {
                let k = choose|k: int| 0 <= k < before.len() && before[k] == id;
                assert(all[k] == id);
            } else {
                assert(all[before.len() as int] == id);
            }
        }
    }
}

proof fn lemma_short_names_in(ranked: Seq<NeighborScore>, id: Seq<char>)
    ensures
        forall|i: int|
            0 <= i < ranked.len() && (#[trigger] ranked[i]).repository_id@ == id && short_name(
                ranked[i].symbol@,
            ).len() > 0 ==> short_names_in(ranked, id).contains(short_name(ranked[i].symbol@)),
    decreases ranked.len(),
{
    if ranked.len() > 0 {
        let d = ranked.drop_last();
        lemma_short_names_in(d, id);
        let before = short_names_in(d, id);
        let all = short_names_in(ranked, id);
        assert forall|i: int|
            0 <= i < ranked.len() && (#[trigger] ranked[i]).repository_id@ == id && short_name(
                ranked[i].symbol@,
            ).len() > 0 implies all.contains(short_name(ranked[i].symbol@)) by {
            if i < d.len() {
                assert(d[i] == ranked[i]);
                let k = choose|k: int|
                    0 <= k < before.len() && before[k] == short_name(d[i].symbol@);
                assert(all[k] == before[k]);
            } else {
                assert(all[before.len() as int] == short_name(ranked[i].symbol@));
            }
        }
    }
}

/// Every neighbour with a short name is looked up by it in its own repository, and
/// each repository is asked once.
pub proof fn lemma_neighbors_are_looked_up(ranked: Seq<NeighborScore>, i: int)
    requires
        0 <= i < ranked.len(),
        short_name(ranked[i].symbol@).len() > 0,
    ensures
        exists|k: int|
            0 <= k < lookups_of(ranked).len() && (#[trigger] lookups_of(ranked)[k]).0
                == ranked[i].repository_id@ && lookups_of(ranked)[k].1.contains(
                short_name(ranked[i].symbol@),
            ),
        forall|j: int, k: int|
            0 <= j < k < lookups_of(ranked).len() ==> (#[trigger] lookups_of(ranked)[j]).0 != (
            #[trigger] lookups_of(ranked)[k]).0,
{
    lemma_lookup_repositories(ranked);
    let id = ranked[i].repository_id@;
    lemma_short_names_in(ranked, id);
    let all = lookup_repositories(ranked);
    let k = choose|k: int| 0 <= k < all.len() && all[k] == id;
    assert(lookups_of(ranked)[k].0 == id);
}

/// What a claim speaks of is an entity where the model says so and it has a name:
/// a known one by its id, another to be looked up under its key. All else is text.
pub proof fn lemma_reference_plan(cache: Map<Seq<char>, String>, name: Seq<char>, key: Seq<char>)
    ensures
        planned(cache, name, key, false) == RefPlanView::Literal(name),
        planned(cache, Seq::empty(), key, true) == RefPlanView::Literal(Seq::empty()),
        name.len() > 0 && cache.contains_key(key) ==> planned(cache, name, key, true)
            == RefPlanView::Entity(cache[key]@),
        name.len() > 0 && !cache.contains_key(key) ==> planned(cache, name, key, true)
            == RefPlanView::Lookup(name, key),
{
}

/// The directories shown first are those with the most members, and of these the
/// deepest.
pub proof fn lemma_common_directories(all: Seq<(String, usize)>, i: int, j: int)
    requires
        0 <= i < j < all.len(),
    ensures
        arranged(all)[i].1 >= arranged(all)[j].1,
        arranged(all)[i].1 == arranged(all)[j].1 ==> slashes(arranged(all)[i].0@) >= slashes(
            arranged(all)[j].0@,
        ),
{
    lemma_arranged(all);
    assert(!arranged(all)[j].ranks_before(arranged(all)[i]));
}

/// Names are stored as soon as six wait, all together; until then they wait.
pub proof fn lemma_names_are_stored(
    pending: Seq<NameRow>,
    id: Seq<char>,
    name: Seq<char>,
)
    ensures
        pending.len() + 1 >= 6 ==> after_reply(pending, id, Some(name)) == (
            Seq::<NameRow>::empty(),
            pending.push((id, name)),
        ),
        pending.len() + 1 < 6 ==> after_reply(pending, id, Some(name)) == (
            pending.push((id, name)),
            Seq::<NameRow>::empty(),
        ),
        pending.len() < 6 ==> after_reply(pending, id, None) == (
            pending,
            Seq::<NameRow>::empty(),
        ),
{
}

} // verus!
