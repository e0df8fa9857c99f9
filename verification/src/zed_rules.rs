//! The block of guidance that is kept in the rules file of an editor, and the
//! entry of the server in its settings.

use vstd::prelude::*;
use vstd::slice::slice_subrange;
use vstd::string::*;
use crate::text::{
    chars_of, find_at, find_text, has_text, is_blank, is_space, lacks, lemma_find_from, occurs_at,
    opt_text, same_text, string_of, texts, trim, trim_end, trim_start, trimmed_end, trimmed_start,
};

verus! {

/// The mark in front of the block.
pub const RULES_START: &'static str = "<!-- codesearch:start -->";

/// The mark behind the block.
pub const RULES_END: &'static str = "<!-- codesearch:end -->";

/// What the block says between its marks.
pub const RULES_BODY: &'static str =
    "\n## codesearch\nThis repository is indexed by codesearch. For codebase questions, prefer:\n- `codesearch search \"<question>\"` — semantic + keyword (BM25) hybrid search\n- `codesearch context <symbol>` — callers and callees of a symbol\n- `codesearch impact <symbol>` — blast radius of changing a symbol\n\nUse these over grepping or reading files one by one. Read raw files to edit or\ndebug specific code, or when the index lacks the detail you need.\n";

/// The block.
pub open spec fn block_text() -> Seq<char> {
    RULES_START@ + RULES_BODY@ + RULES_END@
}

/// The block.
pub fn rules_block() -> (r: String)
    ensures
        r@ == block_text(),
{
    let mut r = RULES_START.to_string();
    r.append(RULES_BODY);
    r.append(RULES_END);
    r
}

/// The text with the block in place of the one between the marks; behind the
/// text where it has no marks.
pub open spec fn upserted(x: Seq<char>, block: Seq<char>) -> Seq<char> {
    let start = find_text(x, RULES_START@);
    let end = find_text(x, RULES_END@);
    if start >= 0 && end >= 0 {
        x.take(start) + block + x.skip(end + RULES_END@.len())
    } else {
        block_head(trim_end(x)) + block + "\n"@
    }
}

/// A text with an empty line behind it; nothing for an empty text.
pub open spec fn block_head(t: Seq<char>) -> Seq<char> {
    if t.len() == 0 {
        t
    } else {
        t + "\n\n"@
    }
}

/// Puts the block into the text of a rules file, in place of the one that it
/// has.
pub fn upsert_block(existing: &str, block: &str) -> (r: String)
    ensures
        r@ == upserted(existing@, block@),
{
    let x = chars_of(existing);
    let start_mark = chars_of(RULES_START);
    let end_mark = chars_of(RULES_END);
    if let Some(start) = find_at(&x, &start_mark, 0) {
        if let Some(end) = find_at(&x, &end_mark, 0) {
            let n: usize = x.len();
            let behind: usize = end + end_mark.len();
            let mut r = string_of(slice_subrange(&x, 0, start));
            r.append(block);
            r.append(string_of(slice_subrange(&x, behind, n)).as_str());
            proof {
                assert(x@.subrange(0, start as int) =~= x@.take(start as int));
                assert(x@.subrange(behind as int, n as int) =~= x@.skip(behind as int));
            }
            return r;
        }
    }
    let t = trimmed_end(&x);
    let mut r = string_of(t);
    if t.len() > 0 {
        r.append("\n\n");
    }
    r.append(block);
    r.append("\n");
    r
}

/// The text without the block and the space around it; nothing where it has
/// none.
pub open spec fn removed(x: Seq<char>) -> Option<Seq<char>> {
    let start = find_text(x, RULES_START@);
    let end = find_text(x, RULES_END@);
    if start >= 0 && end >= 0 {
        Some(without_gap(trim_end(x.take(start)), trim_start(x.skip(end + RULES_END@.len()))))
    } else {
        None
    }
}

/// Two texts with an empty line between them, unless one of them is empty.
pub open spec fn without_gap(a: Seq<char>, b: Seq<char>) -> Seq<char> {
    if a.len() > 0 && b.len() > 0 {
        a + "\n\n"@ + b
    } else {
        a + b
    }
}

/// Takes the block out of the text of a rules file.
pub fn remove_block(existing: &str) -> (r: Option<String>)
    ensures
        opt_text(r) == removed(existing@),
{
    let x = chars_of(existing);
    let start_mark = chars_of(RULES_START);
    let end_mark = chars_of(RULES_END);
    let start: usize = match find_at(&x, &start_mark, 0) {
        Some(i) => i,
        None => {
            return None;
        },
    };
    let behind: usize = match find_at(&x, &end_mark, 0) {
        Some(i) => i + end_mark.len(),
        None => {
            return None;
        },
    };
    let n: usize = x.len();
    let head = trimmed_end(slice_subrange(&x, 0, start));
    let tail = trimmed_start(slice_subrange(&x, behind, n));
    proof {
        assert(x@.subrange(0, start as int) =~= x@.take(start as int));
        assert(x@.subrange(behind as int, n as int) =~= x@.skip(behind as int));
    }
    let mut r = string_of(head);
    if head.len() > 0 && tail.len() > 0 {
        r.append("\n\n");
    }
    r.append(string_of(tail).as_str());
    Some(r)
}

/// What becomes of the rules file when the block is taken out.
#[derive(Debug)]
pub enum RulesChange {
    /// There is no file.
    NoFile,
    /// The file has no block.
    NoBlock,
    /// Nothing else is in the file.
    Delete,
    /// The file is written anew.
    Write(String),
}

/// What becomes of a rules file with the given text.
pub fn uninstall_rules(existing: Option<&str>) -> (r: RulesChange)
    ensures
        existing is None <==> r is NoFile,
        existing matches Some(x) ==> match removed(x@) {
            None => r is NoBlock,
            Some(t) => if trim(t).len() == 0 {
                r is Delete
            } else {
                r is Write && r->Write_0@ == t
            },
        },
{
    match existing {
        None => RulesChange::NoFile,
        Some(x) => match remove_block(x) {
            None => RulesChange::NoBlock,
            Some(t) => if is_blank(t.as_str()) {
                RulesChange::Delete
            } else {
                RulesChange::Write(t)
            },
        },
    }
}

/// The text that a rules file gets.
pub fn install_rules(existing: Option<&str>) -> (r: String)
    ensures
        r@ == upserted(
            match existing {
                Some(x) => x@,
                None => Seq::empty(),
            },
            block_text(),
        ),
{
    let block = rules_block();
    match existing {
        Some(x) => upsert_block(x, block.as_str()),
        None => {
            proof {
                reveal_strlit("");
                assert(""@ =~= Seq::<char>::empty());
            }
            upsert_block("", block.as_str())
        },
    }
}

/// What is said of a change of the rules file at a path.
pub fn rules_message(change: &RulesChange, path: &str) -> (r: String)
    ensures
        r@ == match *change {
            RulesChange::NoFile => "no rules file at "@ + path@ + " (nothing to remove)"@,
            RulesChange::NoBlock => "no codesearch block in "@ + path@,
            RulesChange::Delete => "removed "@ + path@,
            RulesChange::Write(_) => "removed codesearch block from "@ + path@,
        },
{
    match change {
        RulesChange::NoFile => {
            let mut r = "no rules file at ".to_string();
            r.append(path);
            r.append(" (nothing to remove)");
            r
        },
        RulesChange::NoBlock => {
            let mut r = "no codesearch block in ".to_string();
            r.append(path);
            r
        },
        RulesChange::Delete => {
            let mut r = "removed ".to_string();
            r.append(path);
            r
        },
        RulesChange::Write(_) => {
            let mut r = "removed codesearch block from ".to_string();
            r.append(path);
            r
        },
    }
}

/// The servers in the settings of the editor.
#[derive(Debug)]
pub enum Servers {
    /// The settings name none.
    Absent,
    /// The names of those in the settings.
    Named(Vec<String>),
    /// The settings have something else in their place.
    Malformed,
}

/// The name of the server.
pub const SERVER_NAME: &'static str = "codesearch";

/// Whether the server can be entered in the settings at a path: not where they
/// have something else in place of the servers.
pub fn register_server(servers: &Servers, path: &str) -> (r: Result<(), String>)
    ensures
        r is Err <==> *servers is Malformed,
        r matches Err(e) ==> e@ == "`context_servers` in "@ + path@ + " is not an object"@,
{
    match servers {
        Servers::Malformed => {
            let mut e = "`context_servers` in ".to_string();
            e.append(path);
            e.append(" is not an object");
            Err(e)
        },
        _ => Ok(()),
    }
}

/// What is left of names without one of them.
pub open spec fn names_without(names: Seq<Seq<char>>, name: Seq<char>) -> Seq<Seq<char>>
    decreases names.len(),
{
    if names.len() == 0 {
        names
    } else if names.last() == name {
        names_without(names.drop_last(), name)
    } else {
        names_without(names.drop_last(), name).push(names.last())
    }
}

/// Whether the server is in the settings, and whether none is left there
/// without it, so that the list of servers goes as well.
pub fn unregister_server(servers: &Servers) -> (r: (bool, bool))
    ensures
        r.0 == (*servers is Named && texts(servers->Named_0@).contains(SERVER_NAME@)),
        r.1 == (*servers is Named && names_without(
            texts(servers->Named_0@),
            SERVER_NAME@,
        ).len() == 0),
{
    match servers {
        Servers::Named(names) => {
            let ghost all = texts(names@);
            let mut others = false;
            let mut i: usize = 0;
            while i < names.len()
                invariant
                    i <= names@.len(),
                    all == texts(names@),
                    others == (names_without(all.take(i as int), SERVER_NAME@).len() > 0),
                decreases names@.len() - i,
            {
                proof {
                    assert(all.take(i + 1).drop_last() =~= all.take(i as int));
                    assert(all.take(i + 1).last() == names@[i as int]@);
                }
                if !same_text(names[i].as_str(), SERVER_NAME) {
                    others = true;
                }
                i += 1;
            }
            assert(all.take(i as int) =~= all);
            (has_text(names, SERVER_NAME), !others)
        },
        _ => (false, false),
    }
}

/// What is said of the settings at a path once the server has been taken out.
pub fn server_message(removed: bool, path: &str) -> (r: String)
    ensures
        r@ == if removed {
            "removed context_servers.codesearch from "@ + path@
        } else {
            "no codesearch server in "@ + path@
        },
{
    let mut r = if removed {
        "removed context_servers.codesearch from ".to_string()
    } else {
        "no codesearch server in ".to_string()
    };
    r.append(path);
    r
}

/// The text has no marks, or the mark in front of the block before the one
/// behind it.
pub open spec fn marks_in_order(x: Seq<char>) -> bool {
    let start = find_text(x, RULES_START@);
    let end = find_text(x, RULES_END@);
    (start < 0 && end < 0) || 0 <= start && start + RULES_START@.len() <= end
}

proof fn lemma_body_has_no_mark()
    ensures
        lacks(RULES_BODY@, '!'),
{
    reveal_strlit("\n## codesearch\nThis repository is indexed by codesearch. For codebase questions, prefer:\n- `codesearch search \"<question>\"` — semantic + keyword (BM25) hybrid search\n- `codesearch context <symbol>` — callers and callees of a symbol\n- `codesearch impact <symbol>` — blast radius of changing a symbol\n\nUse these over grepping or reading files one by one. Read raw files to edit or\ndebug specific code, or when the index lacks the detail you need.\n");
}

proof fn lemma_marks()
    ensures
        RULES_START@.len() == 25,
        RULES_END@.len() == 23,
        lacks(RULES_START@, '\n'),
        lacks(RULES_END@, '\n'),
        RULES_START@[1] == '!',
        forall|i: int| 0 <= i < 25 && i != 1 ==> RULES_START@[i] != '!',
        RULES_END@[1] == '!',
        forall|i: int| 0 <= i < 23 && i != 1 ==> RULES_END@[i] != '!',
        RULES_START@[16] == 's',
        RULES_END@[16] == 'e',
{
    reveal_strlit("<!-- codesearch:start -->");
    reveal_strlit("<!-- codesearch:end -->");
}

/// The block begins with its first mark, and has its last mark at its end and
/// nowhere else.
proof fn lemma_block()
    ensures
        block_text().len() == 25 + RULES_BODY@.len() + 23,
        block_text().subrange(0, 25) == RULES_START@,
        block_text().subrange(block_text().len() - 23, block_text().len() as int) == RULES_END@,
        forall|i: int| #[trigger]
            occurs_at(block_text(), RULES_END@, i) ==> i == block_text().len() - 23,
{
    lemma_marks();
    lemma_body_has_no_mark();
    let b = block_text();
    let n = RULES_BODY@.len() as int;
    assert(b.subrange(0, 25) =~= RULES_START@);
    assert(b.subrange(b.len() - 23, b.len() as int) =~= RULES_END@);
    assert forall|i: int| #[trigger] occurs_at(b, RULES_END@, i) implies i == b.len() - 23 by {
        let w = b.subrange(i, i + 23);
        assert(w[1] == b[i + 1] && w[16] == b[i + 16]);
        if i + 1 < 25 {
            assert(b[i + 1] == RULES_START@[i + 1]);
            assert(i == 0);
            assert(b[16] == RULES_START@[16]);
        } else if i + 1 < 25 + n {
            assert(b[i + 1] == RULES_BODY@[i + 1 - 25]);
        } else {
            assert(b[i + 1] == RULES_END@[i + 1 - 25 - n]);
        }
    }
}

proof fn lemma_first_is(s: Seq<char>, m: Seq<char>, at: int)
    requires
        occurs_at(s, m, at),
        forall|i: int| 0 <= i < at ==> !#[trigger] occurs_at(s, m, i),
    ensures
        find_text(s, m) == at,
{
    lemma_find_from(s, m, 0);
}

/// Where the marks stand in a text with the block in it, given that none stands
/// in front of the block.
proof fn lemma_marks_around(head: Seq<char>, tail: Seq<char>)
    requires
        forall|i: int|
            0 <= i < head.len() ==> !#[trigger] occurs_at(
                head + block_text() + tail,
                RULES_START@,
                i,
            ),
        forall|i: int|
            0 <= i < head.len() ==> !#[trigger] occurs_at(
                head + block_text() + tail,
                RULES_END@,
                i,
            ),
    ensures
        find_text(head + block_text() + tail, RULES_START@) == head.len(),
        find_text(head + block_text() + tail, RULES_END@) == head.len() + block_text().len() - 23,
{
    lemma_marks();
    lemma_block();
    let b = block_text();
    let y = head + b + tail;
    let h = head.len() as int;
    assert(y.subrange(h, h + 25) =~= b.subrange(0, 25));
    lemma_first_is(y, RULES_START@, h);
    let e = h + b.len() - 23;
    assert(y.subrange(e, e + 23) =~= b.subrange(b.len() - 23, b.len() as int));
    assert forall|i: int| 0 <= i < e implies !#[trigger] occurs_at(y, RULES_END@, i) by {
        if h <= i && occurs_at(y, RULES_END@, i) {
            assert(y.subrange(i, i + 23) =~= b.subrange(i - h, i - h + 23));
            assert(occurs_at(b, RULES_END@, i - h));
        }
    }
    lemma_first_is(y, RULES_END@, e);
}

proof fn lemma_trim_end(x: Seq<char>)
    ensures
        trim_end(x).len() <= x.len(),
        trim_end(x) == x.take(trim_end(x).len() as int),
        trim_end(x).len() > 0 ==> !is_space(trim_end(x).last()),
        trim_end(trim_end(x)) == trim_end(x),
    decreases x.len(),
{
    if x.len() > 0 && is_space(x.last()) {
        lemma_trim_end(x.drop_last());
        let k = trim_end(x).len() as int;
        assert(x.drop_last().take(k) =~= x.take(k));
    } else {
        assert(x.take(x.len() as int) =~= x);
    }
}

/// A mark stands in no text with an empty line and the block behind it, in
/// front of the block, if it does not stand in the text.
proof fn lemma_no_mark_in_head(x: Seq<char>, rest: Seq<char>, m: Seq<char>, i: int)
    requires
        find_text(x, m) < 0,
        lacks(m, '\n'),
        m.len() > 0,
        0 <= i < block_head(trim_end(x)).len(),
    ensures
        !occurs_at(block_head(trim_end(x)) + rest, m, i),
{
    reveal_strlit("\n\n");
    lemma_trim_end(x);
    lemma_find_from(x, m, 0);
    let t = trim_end(x);
    let head = block_head(t);
    let y = head + rest;
    let n = m.len() as int;
    if occurs_at(y, m, i) {
        let w = y.subrange(i, i + n);
        assert(w == m);
        if i + n <= t.len() {
            assert(x.subrange(i, i + n) =~= w) by {
                assert forall|k: int| 0 <= k < n implies x.subrange(i, i + n)[k] == w[k] by {
                    assert(t[i + k] == x[i + k]);
                    assert(y[i + k] == t[i + k]);
                }
            }
            assert(occurs_at(x, m, i));
        } else {
            let k = if i <= t.len() {
                t.len() - i
            } else {
                0
            };
            assert(y[i + k] == '\n');
            assert(w[k] == y[i + k]);
            assert(m[k] == '\n');
        }
    }
}

/// Where the block stands once it has been put in.
proof fn lemma_upserted(x: Seq<char>)
    requires
        marks_in_order(x),
    ensures
        ({
            let y = upserted(x, block_text());
            let s = find_text(y, RULES_START@);
            &&& 0 <= s
            &&& find_text(y, RULES_END@) == s + block_text().len() - 23
            &&& s + block_text().len() <= y.len()
            &&& y.subrange(s, s + block_text().len()) == block_text()
            &&& find_text(x, RULES_START@) < 0 ==> y.take(s) == block_head(trim_end(x))
                && y.skip(s + block_text().len()) == "\n"@
            &&& find_text(x, RULES_START@) >= 0 ==> y.take(s) == x.take(find_text(x, RULES_START@))
                && y.skip(s + block_text().len()) == x.skip(find_text(x, RULES_END@) + 23)
        }),
{
    lemma_marks();
    lemma_block();
    lemma_find_from(x, RULES_START@, 0);
    lemma_find_from(x, RULES_END@, 0);
    let b = block_text();
    let y = upserted(x, b);
    let s = find_text(x, RULES_START@);
    let e = find_text(x, RULES_END@);
    if s < 0 {
        let head = block_head(trim_end(x));
        let tail = "\n"@;
        assert(y =~= head + b + tail);
        assert(head + (b + tail) =~= head + b + tail);
        assert forall|i: int| 0 <= i < head.len() implies !#[trigger] occurs_at(
            head + b + tail,
            RULES_START@,
            i,
        ) by {
            lemma_no_mark_in_head(x, b + tail, RULES_START@, i);
        }
        assert forall|i: int| 0 <= i < head.len() implies !#[trigger] occurs_at(
            head + b + tail,
            RULES_END@,
            i,
        ) by {
            lemma_no_mark_in_head(x, b + tail, RULES_END@, i);
        }
        lemma_marks_around(head, tail);
        assert(y.take(head.len() as int) =~= head);
        assert(y.skip((head.len() + b.len()) as int) =~= tail);
        assert(y.subrange(head.len() as int, (head.len() + b.len()) as int) =~= b);
    } else {
        let head = x.take(s);
        let tail = x.skip(e + 23);
        assert(y == head + b + tail);
        assert forall|k: int| 0 <= k < s + 25 implies y[k] == x[k] by {
            if k >= s {
                assert(x.subrange(s, s + 25)[k - s] == x[k]);
                assert(b.subrange(0, 25)[k - s] == b[k - s]);
            }
        }
        assert forall|i: int| 0 <= i < head.len() implies !#[trigger] occurs_at(
            head + b + tail,
            RULES_START@,
            i,
        ) by {
            if occurs_at(y, RULES_START@, i) {
                assert(x.subrange(i, i + 25) =~= y.subrange(i, i + 25));
                assert(occurs_at(x, RULES_START@, i));
            }
        }
        assert forall|i: int| 0 <= i < head.len() implies !#[trigger] occurs_at(
            head + b + tail,
            RULES_END@,
            i,
        ) by {
            if occurs_at(y, RULES_END@, i) {
                assert(x.subrange(i, i + 23) =~= y.subrange(i, i + 23));
                assert(occurs_at(x, RULES_END@, i));
            }
        }
        lemma_marks_around(head, tail);
        assert(y.take(head.len() as int) =~= head);
        assert(y.skip((head.len() + b.len()) as int) =~= tail);
        assert(y.subrange(head.len() as int, (head.len() + b.len()) as int) =~= b);
    }
}

/// Putting the block in a second time changes nothing.
pub proof fn lemma_upsert_twice(x: Seq<char>)
    requires
        marks_in_order(x),
    ensures
        upserted(upserted(x, block_text()), block_text()) == upserted(x, block_text()),
{
    lemma_marks();
    lemma_upserted(x);
    let b = block_text();
    let y = upserted(x, b);
    let s = find_text(y, RULES_START@);
    let n = b.len() as int;
    assert(upserted(y, b) =~= y.take(s) + b + y.skip(s + n));
    assert(y.take(s) + y.subrange(s, s + n) + y.skip(s + n) =~= y);
}

/// Taking out a block that was put behind a text gives the text back, but for
/// the space at its end.
pub proof fn lemma_remove_undoes_upsert(x: Seq<char>)
    requires
        find_text(x, RULES_START@) < 0,
        find_text(x, RULES_END@) < 0,
    ensures
        removed(upserted(x, block_text())) == Some(trim_end(x)),
{
    lemma_marks();
    lemma_upserted(x);
    lemma_trim_end(x);
    reveal_strlit("\n");
    reveal_strlit("\n\n");
    let t = trim_end(x);
    let head = block_head(t);
    let tail = "\n"@;
    assert(trim_start(tail) =~= Seq::<char>::empty()) by {
        assert(tail.skip(1) =~= Seq::<char>::empty());
        assert(trim_start(tail.skip(1)) == tail.skip(1));
    }
    assert(trim_end(head) == t) by {
        if t.len() > 0 {
            assert(head.drop_last().drop_last() =~= t);
            assert(trim_end(head) == trim_end(head.drop_last()));
            assert(trim_end(head.drop_last()) == trim_end(t));
        }
    }
    assert(without_gap(t, Seq::empty()) =~= t);
}

/// Taking the block out after it was put in anew is taking it out.
pub proof fn lemma_remove_after_replace(x: Seq<char>)
    requires
        marks_in_order(x),
        find_text(x, RULES_START@) >= 0,
    ensures
        removed(upserted(x, block_text())) == removed(x),
{
    lemma_marks();
    lemma_upserted(x);
}

/// Once a block that was put behind a text has been taken out, there is none to
/// take out.
pub proof fn lemma_removed_for_good(x: Seq<char>)
    requires
        find_text(x, RULES_START@) < 0,
        find_text(x, RULES_END@) < 0,
    ensures
        removed(trim_end(x)) is None,
{
    lemma_trim_end(x);
    let t = trim_end(x);
    let m = RULES_START@;
    lemma_find_from(t, m, 0);
    lemma_find_from(x, m, 0);
    if find_text(t, m) >= 0 {
        let i = find_text(t, m);
        assert(x.subrange(i, i + m.len()) =~= t.subrange(i, i + m.len()));
        assert(occurs_at(x, m, i));
    }
}

} // verus!
