//! What the tolerant pattern matches: the symbol itself, the symbol without its
//! separators, and, built from a symbol that lost its separators where a
//! capital follows a small letter, the symbol that still has them.

use vstd::prelude::*;
use crate::patterns::{ANY_SEPARATORS, fuzzy_pattern, is_meta, is_separator, with_separators};
use crate::text::ends_with;
use crate::unicode::{lowercase_char, uppercase_char};

verus! {

/// A part of a pattern.
pub enum Token {
    /// Any run of separators.
    Separators,
    /// One character.
    Literal(char),
}

/// A part as it is written: a character with a meaning of its own is escaped.
pub open spec fn written(t: Token) -> Seq<char> {
    match t {
        Token::Separators => ANY_SEPARATORS@,
        Token::Literal(c) => if is_meta(c) {
            seq!['\\', c]
        } else {
            seq![c]
        },
    }
}

/// The parts of a pattern as they are written.
pub open spec fn written_all(ts: Seq<Token>) -> Seq<char>
    decreases ts.len(),
{
    if ts.len() == 0 {
        Seq::empty()
    } else {
        written_all(ts.drop_last()) + written(ts.last())
    }
}

/// A literal stands for one character that separates nothing.
pub open spec fn plain_tokens(ts: Seq<Token>) -> bool {
    forall|i: int| 0 <= i < ts.len() ==> ((#[trigger] ts[i]) matches Token::Literal(c) ==> !is_separator(c))
}

/// The last `k` characters are separators.
pub open spec fn ends_in_separators(t: Seq<char>, k: int) -> bool {
    0 <= k <= t.len() && forall|i: int| t.len() - k <= i < t.len() ==> is_separator(#[trigger] t[i])
}

/// The parts match the whole text.
pub open spec fn tokens_match(ts: Seq<Token>, t: Seq<char>) -> bool
    decreases ts.len(),
{
    if ts.len() == 0 {
        t.len() == 0
    } else {
        match ts.last() {
            Token::Literal(c) => t.len() > 0 && t.last() == c && tokens_match(
                ts.drop_last(),
                t.drop_last(),
            ),
            Token::Separators => exists|k: int| #[trigger]
                ends_in_separators(t, k) && tokens_match(ts.drop_last(), t.take(t.len() - k)),
        }
    }
}

/// The pattern matches the whole text: it is written from parts that do.
pub open spec fn pattern_matches(pattern: Seq<char>, t: Seq<char>) -> bool {
    exists|ts: Seq<Token>| #[trigger]
        written_all(ts) == pattern && plain_tokens(ts) && tokens_match(ts, t)
}

/// The parts with the separators behind them, unless they stand there already.
pub open spec fn with_gap(ts: Seq<Token>) -> Seq<Token> {
    if ts.len() > 0 && ts.last() == Token::Separators {
        ts
    } else {
        ts.push(Token::Separators)
    }
}

/// The parts once the character `c` has come, behind `prev` where there is one.
pub open spec fn token_step(ts: Seq<Token>, prev: Option<char>, c: char) -> Seq<Token> {
    if is_separator(c) {
        with_gap(ts)
    } else if is_meta(c) {
        ts.push(Token::Literal(c))
    } else if uppercase_char(c) && prev is Some && lowercase_char(prev->0) {
        with_gap(ts).push(Token::Literal(c))
    } else {
        ts.push(Token::Literal(c))
    }
}

/// The parts of the tolerant pattern.
pub open spec fn fuzzy_tokens(s: Seq<char>) -> Seq<Token>
    decreases s.len(),
{
    if s.len() == 0 {
        Seq::empty()
    } else {
        let d = s.drop_last();
        token_step(
            fuzzy_tokens(d),
            if d.len() > 0 {
                Some(d.last())
            } else {
                None
            },
            s.last(),
        )
    }
}

proof fn lemma_token_step(s: Seq<char>, c: char)
    requires
        s.len() > 0,
        s.last() == c,
    ensures
        ({
            let d = s.drop_last();
            let ts = fuzzy_tokens(d);
            &&& is_separator(c) ==> fuzzy_tokens(s) == with_gap(ts) && fuzzy_pattern(s)
                == with_separators(fuzzy_pattern(d)) && unseparated(s) == unseparated(d)
            &&& !is_separator(c) ==> unseparated(s) == unseparated(d).push(c)
            &&& !is_separator(c) && is_meta(c) ==> fuzzy_tokens(s) == ts.push(Token::Literal(c))
                && fuzzy_pattern(s) == fuzzy_pattern(d).push('\\').push(c)
            &&& !is_separator(c) && !is_meta(c) && uppercase_char(c) && d.len() > 0
                && lowercase_char(d.last()) ==> fuzzy_tokens(s) == with_gap(ts).push(
                Token::Literal(c),
            ) && fuzzy_pattern(s) == with_separators(fuzzy_pattern(d)).push(c)
            &&& !is_separator(c) && !is_meta(c) && !(uppercase_char(c) && d.len() > 0
                && lowercase_char(d.last())) ==> fuzzy_tokens(s) == ts.push(Token::Literal(c))
                && fuzzy_pattern(s) == fuzzy_pattern(d).push(c)
        }),
{
}

proof fn lemma_separator_text()
    ensures
        ANY_SEPARATORS@.len() == 9,
        ANY_SEPARATORS@[8] == '*',
        ANY_SEPARATORS@[7] == ']',
{
    reveal_strlit("[/\\\\#.:]*");
}

/// A written pattern ends in the separator class only where its last part is
/// the separators.
proof fn lemma_last_part(ts: Seq<Token>)
    requires
        plain_tokens(ts),
    ensures
        ends_with(written_all(ts), ANY_SEPARATORS@) <==> ts.len() > 0 && ts.last()
            == Token::Separators,
{
    lemma_separator_text();
    let w = written_all(ts);
    let m = ANY_SEPARATORS@;
    if ts.len() > 0 {
        let d = written_all(ts.drop_last());
        match ts.last() {
            Token::Separators => {
                assert(w.subrange(w.len() - 9, w.len() as int) =~= m);
            },
            Token::Literal(c) => {
                if ends_with(w, m) {
                    let e = w.subrange(w.len() - 9, w.len() as int);
                    assert(e[8] == w[w.len() - 1] && e[7] == w[w.len() - 2]);
                    assert(w[w.len() - 1] == c);
                    if is_meta(c) {
                        assert(w[w.len() - 2] == '\\');
                    }
                }
            },
        }
    }
}

proof fn lemma_plain_push(ts: Seq<Token>, t: Token)
    requires
        plain_tokens(ts),
        t matches Token::Literal(c) ==> !is_separator(c),
    ensures
        plain_tokens(ts.push(t)),
        written_all(ts.push(t)) == written_all(ts) + written(t),
{
    assert(ts.push(t).drop_last() =~= ts);
    let r = ts.push(t);
    assert forall|i: int| 0 <= i < r.len() implies ((#[trigger] r[i]) matches Token::Literal(c)
        ==> !is_separator(c)) by {
        if i < ts.len() {
            assert(r[i] == ts[i]);
        }
    }
}

/// The tolerant pattern is written from its parts.
proof fn lemma_fuzzy_tokens(s: Seq<char>)
    ensures
        plain_tokens(fuzzy_tokens(s)),
        written_all(fuzzy_tokens(s)) == fuzzy_pattern(s),
    decreases s.len(),
{
    if s.len() > 0 {
        lemma_fuzzy_tokens(s.drop_last());
        lemma_fuzzy_tokens_step(s, s.last());
    }
}

proof fn lemma_fuzzy_tokens_step(s: Seq<char>, c: char)
    requires
        s.len() > 0,
        s.last() == c,
        plain_tokens(fuzzy_tokens(s.drop_last())),
        written_all(fuzzy_tokens(s.drop_last())) == fuzzy_pattern(s.drop_last()),
    ensures
        plain_tokens(fuzzy_tokens(s)),
        written_all(fuzzy_tokens(s)) == fuzzy_pattern(s),
{
    let ts = fuzzy_tokens(s.drop_last());
    lemma_token_step(s, c);
    lemma_last_part(ts);
    lemma_plain_push(ts, Token::Separators);
    let gap = with_gap(ts);
    assert(plain_tokens(gap));
    assert(written_all(gap) == with_separators(written_all(ts)));
    let out = written_all(ts);
    if !is_separator(c) {
        lemma_plain_push(ts, Token::Literal(c));
        lemma_plain_push(gap, Token::Literal(c));
        assert(out.push(c) =~= out + seq![c]);
        assert(out.push('\\').push(c) =~= out + seq!['\\', c]);
        assert(written_all(gap).push(c) =~= written_all(gap) + seq![c]);
    }
}

/// Separators stand nowhere next to separators.
pub open spec fn no_double_gap(ts: Seq<Token>) -> bool {
    forall|i: int, j: int|
        0 <= i && j == i + 1 && j < ts.len() ==> !((#[trigger] ts[i]) == Token::Separators && (
        #[trigger] ts[j]) == Token::Separators)
}

/// No two separator classes stand next to each other in the parts of the
/// pattern.
pub proof fn lemma_no_double_separators(s: Seq<char>)
    ensures
        no_double_gap(fuzzy_tokens(s)),
        written_all(fuzzy_tokens(s)) == fuzzy_pattern(s),
    decreases s.len(),
{
    lemma_fuzzy_tokens(s);
    if s.len() > 0 {
        lemma_no_double_separators(s.drop_last());
        lemma_no_double_step(s, s.last());
    }
}

proof fn lemma_no_double_step(s: Seq<char>, c: char)
    requires
        s.len() > 0,
        s.last() == c,
        no_double_gap(fuzzy_tokens(s.drop_last())),
    ensures
        no_double_gap(fuzzy_tokens(s)),
{
    lemma_token_step(s, c);
    let ts = fuzzy_tokens(s.drop_last());
    let r = fuzzy_tokens(s);
    assert forall|i: int, j: int| 0 <= i && j == i + 1 && j < r.len() implies !((#[trigger] r[i])
        == Token::Separators && (#[trigger] r[j]) == Token::Separators) by {
        if j < ts.len() {
            assert(r[i] == ts[i] && r[j] == ts[j]);
        }
    }
}

proof fn lemma_gap_matches(ts: Seq<Token>, t: Seq<char>)
    requires
        tokens_match(ts, t),
    ensures
        tokens_match(with_gap(ts), t),
{
    let r = with_gap(ts);
    if r != ts {
        assert(r.drop_last() =~= ts);
        assert(ends_in_separators(t, 0));
        assert(t.take(t.len() - 0) =~= t);
    }
}

proof fn lemma_gap_takes(ts: Seq<Token>, t: Seq<char>, c: char)
    requires
        ts.len() > 0,
        ts.last() == Token::Separators,
        tokens_match(ts, t),
        is_separator(c),
    ensures
        tokens_match(ts, t.push(c)),
{
    let k = choose|k: int| #[trigger]
        ends_in_separators(t, k) && tokens_match(ts.drop_last(), t.take(t.len() - k));
    let u = t.push(c);
    assert(ends_in_separators(u, k + 1)) by {
        assert forall|i: int| u.len() - (k + 1) <= i < u.len() implies is_separator(
            #[trigger] u[i],
        ) by {
            if i < t.len() {
                assert(u[i] == t[i]);
            }
        }
    }
    assert(u.take(u.len() - (k + 1)) =~= t.take(t.len() - k));
}

proof fn lemma_literal_matches(ts: Seq<Token>, t: Seq<char>, c: char)
    requires
        tokens_match(ts, t),
    ensures
        tokens_match(ts.push(Token::Literal(c)), t.push(c)),
{
    assert(ts.push(Token::Literal(c)).drop_last() =~= ts);
    assert(t.push(c).drop_last() =~= t);
}

proof fn lemma_tokens_match_symbol(s: Seq<char>)
    ensures
        tokens_match(fuzzy_tokens(s), s),
    decreases s.len(),
{
    if s.len() > 0 {
        lemma_tokens_match_symbol(s.drop_last());
        lemma_match_step(s, s.last());
    }
}

proof fn lemma_match_step(s: Seq<char>, c: char)
    requires
        s.len() > 0,
        s.last() == c,
        tokens_match(fuzzy_tokens(s.drop_last()), s.drop_last()),
    ensures
        tokens_match(fuzzy_tokens(s), s),
{
    let d = s.drop_last();
    let ts = fuzzy_tokens(d);
    lemma_token_step(s, c);
    assert(d.push(c) =~= s);
    lemma_gap_matches(ts, d);
    if is_separator(c) {
        lemma_gap_takes(with_gap(ts), d, c);
    } else {
        lemma_literal_matches(ts, d, c);
        lemma_literal_matches(with_gap(ts), d, c);
    }
}

/// The pattern of a symbol matches the symbol.
pub proof fn lemma_pattern_matches_symbol(s: Seq<char>)
    ensures
        pattern_matches(fuzzy_pattern(s), s),
{
    lemma_fuzzy_tokens(s);
    lemma_tokens_match_symbol(s);
    assert(written_all(fuzzy_tokens(s)) == fuzzy_pattern(s));
}

/// The symbol without its separators.
pub open spec fn unseparated(s: Seq<char>) -> Seq<char>
    decreases s.len(),
{
    if s.len() == 0 {
        s
    } else if is_separator(s.last()) {
        unseparated(s.drop_last())
    } else {
        unseparated(s.drop_last()).push(s.last())
    }
}

proof fn lemma_tokens_match_unseparated(s: Seq<char>)
    ensures
        tokens_match(fuzzy_tokens(s), unseparated(s)),
    decreases s.len(),
{
    if s.len() > 0 {
        lemma_tokens_match_unseparated(s.drop_last());
        lemma_unseparated_step(s, s.last());
    }
}

proof fn lemma_unseparated_step(s: Seq<char>, c: char)
    requires
        s.len() > 0,
        s.last() == c,
        tokens_match(fuzzy_tokens(s.drop_last()), unseparated(s.drop_last())),
    ensures
        tokens_match(fuzzy_tokens(s), unseparated(s)),
{
    let d = s.drop_last();
    let ts = fuzzy_tokens(d);
    lemma_token_step(s, c);
    lemma_gap_matches(ts, unseparated(d));
    if !is_separator(c) {
        lemma_literal_matches(ts, unseparated(d), c);
        lemma_literal_matches(with_gap(ts), unseparated(d), c);
    }
}

/// The pattern of a symbol matches the symbol without its separators.
pub proof fn lemma_pattern_matches_unseparated(s: Seq<char>)
    ensures
        pattern_matches(fuzzy_pattern(s), unseparated(s)),
{
    lemma_fuzzy_tokens(s);
    lemma_tokens_match_unseparated(s);
    assert(written_all(fuzzy_tokens(s)) == fuzzy_pattern(s));
}

/// Every run of separators stands between a small letter and a capital.
pub open spec fn separated_at_capitals(s: Seq<char>) -> bool {
    forall|i: int|
        0 <= i < s.len() && is_separator(#[trigger] s[i]) ==> 0 < i < s.len() - 1 && (is_separator(
            s[i - 1],
        ) || lowercase_char(s[i - 1])) && (is_separator(s[i + 1]) || (uppercase_char(s[i + 1])
            && !is_meta(s[i + 1])))
}

/// The parts for the first `n` characters of a symbol that lost its
/// separators: with separators behind them where the symbol has one there.
spec fn prefix_tokens(s: Seq<char>, n: int) -> Seq<Token> {
    let ts = fuzzy_tokens(unseparated(s.take(n)));
    if n > 0 && is_separator(s[n - 1]) {
        ts.push(Token::Separators)
    } else {
        ts
    }
}

/// The parts for the first `n` characters match them.
spec fn prefix_matches(s: Seq<char>, n: int) -> bool {
    let u = unseparated(s.take(n));
    let ts = fuzzy_tokens(u);
    &&& tokens_match(prefix_tokens(s, n), s.take(n))
    &&& n > 0 ==> u.len() > 0 && ts.len() > 0 && ts.last() is Literal
    &&& n > 0 && is_separator(s[n - 1]) ==> lowercase_char(u.last())
    &&& n > 0 && !is_separator(s[n - 1]) ==> u.last() == s[n - 1]
}

proof fn lemma_prefix(s: Seq<char>, n: int)
    requires
        0 <= n <= s.len(),
        separated_at_capitals(s),
    ensures
        prefix_matches(s, n),
    decreases n,
{
    if n > 0 {
        lemma_prefix(s, n - 1);
        if is_separator(s[n - 1]) {
            lemma_prefix_separator(s, n, s[n - 1]);
        } else {
            lemma_prefix_literal(s, n, s[n - 1]);
        }
    } else {
        assert(s.take(0) =~= Seq::<char>::empty());
    }
}

proof fn lemma_prefix_separator(s: Seq<char>, n: int, c: char)
    requires
        0 < n <= s.len(),
        separated_at_capitals(s),
        s[n - 1] == c,
        is_separator(c),
        prefix_matches(s, n - 1),
    ensures
        prefix_matches(s, n),
{
    let d = s.take(n - 1);
    let p = s.take(n);
    assert(p.drop_last() =~= d);
    assert(p.last() == c);
    assert(d.push(c) =~= p);
    lemma_token_step(p, c);
    let ts = fuzzy_tokens(unseparated(d));
    let gap = ts.push(Token::Separators);
    assert(is_separator(s[n - 1]));
    assert(n - 1 > 0);
    if !is_separator(s[n - 2]) {
        assert(with_gap(ts) == gap);
        lemma_gap_matches(ts, d);
    }
    lemma_gap_takes(gap, d, c);
}

proof fn lemma_prefix_literal(s: Seq<char>, n: int, c: char)
    requires
        0 < n <= s.len(),
        separated_at_capitals(s),
        s[n - 1] == c,
        !is_separator(c),
        prefix_matches(s, n - 1),
    ensures
        prefix_matches(s, n),
{
    let d = s.take(n - 1);
    let p = s.take(n);
    assert(p.drop_last() =~= d);
    assert(p.last() == c);
    assert(d.push(c) =~= p);
    lemma_token_step(p, c);
    let u = unseparated(d);
    let v = u.push(c);
    let ts = fuzzy_tokens(u);
    assert(unseparated(p) == v);
    assert(v.drop_last() =~= u);
    lemma_token_step(v, c);
    if n > 1 && is_separator(s[n - 2]) {
        assert(uppercase_char(s[n - 1]) && !is_meta(s[n - 1]));
        assert(with_gap(ts) == ts.push(Token::Separators));
        lemma_literal_matches(with_gap(ts), d, c);
    } else {
        lemma_gap_matches(ts, d);
        lemma_literal_matches(ts, d, c);
        lemma_literal_matches(with_gap(ts), d, c);
    }
}

/// The pattern of a symbol that lost its separators matches the symbol that
/// has them, where they stand between a small letter and a capital.
pub proof fn lemma_stripped_pattern_matches(s: Seq<char>)
    requires
        separated_at_capitals(s),
    ensures
        pattern_matches(fuzzy_pattern(unseparated(s)), s),
{
    let u = unseparated(s);
    lemma_fuzzy_tokens(u);
    assert(s.take(s.len() as int) =~= s);
    lemma_prefix(s, s.len() as int);
    if s.len() > 0 && is_separator(s[s.len() - 1]) {
        assert(false);
    }
    assert(written_all(fuzzy_tokens(u)) == fuzzy_pattern(u));
}

} // verus!
