//! Text as a sequence of characters: searching, splitting, trimming, joining.
//!
//! Functions of this module work on slices of characters. The spec functions
//! say what each operation means on `Seq<char>`, which is also the view of
//! `str` and `String`.

use vstd::prelude::*;
use vstd::slice::slice_subrange;
use vstd::string::*;

verus! {

/// `String::push`: appends one character.
pub assume_specification[ String::push ](s: &mut String, c: char)
    ensures
        final(s)@ == old(s)@.push(c),
;

/// The views of a sequence of strings.
pub open spec fn texts(v: Seq<String>) -> Seq<Seq<char>> {
    Seq::new(v.len(), |i: int| v[i]@)
}

/// The views of a sequence of character vectors.
pub open spec fn rows(v: Seq<Vec<char>>) -> Seq<Seq<char>> {
    Seq::new(v.len(), |i: int| v[i]@)
}

/// The view of an optional string.
pub open spec fn opt_text(o: Option<String>) -> Option<Seq<char>> {
    match o {
        Some(s) => Some(s@),
        None => None,
    }
}

/// The view of an optional string slice.
pub open spec fn opt_str(o: Option<&str>) -> Option<Seq<char>> {
    match o {
        Some(s) => Some(s@),
        None => None,
    }
}

/// The characters of `s`, in order.
pub fn chars_of(s: &str) -> (v: Vec<char>)
    ensures
        v@ == s@,
{
    let mut v: Vec<char> = Vec::new();
    for c in it: s.chars()
        invariant
            it.seq() == s@,
            v@ == s@.take(it.index() as int),
    {
        proof {
            assert(s@.take(it.index() as int).push(c) =~= s@.take(it.index() as int + 1));
        }
        v.push(c);
    }
    assert(s@.take(s@.len() as int) =~= s@);
    v
}

/// The string made of the characters of `v`.
pub fn string_of(v: &[char]) -> (s: String)
    ensures
        s@ == v@,
{
    let mut s = String::new();
    let mut i: usize = 0;
    assert(v@.take(0) =~= Seq::<char>::empty());
    while i < v.len()
        invariant
            i <= v@.len(),
            s@ == v@.take(i as int),
        decreases v@.len() - i,
    {
        proof {
            assert(v@.take(i as int).push(v@[i as int]) =~= v@.take(i + 1));
        }
        s.push(v[i]);
        i += 1;
    }
    assert(v@.take(i as int) =~= v@);
    s
}

/// Whether two slices hold the same characters.
pub fn same_chars(a: &[char], b: &[char]) -> (r: bool)
    ensures
        r == (a@ == b@),
{
    if a.len() != b.len() {
        return false;
    }
    let mut i: usize = 0;
    while i < a.len()
        invariant
            i <= a@.len(),
            a@.len() == b@.len(),
            forall|k: int| 0 <= k < i ==> a@[k] == b@[k],
        decreases a@.len() - i,
    {
        if a[i] != b[i] {
            return false;
        }
        i += 1;
    }
    assert(a@ =~= b@);
    true
}

/// Whether two string slices hold the same text.
pub fn same_text(a: &str, b: &str) -> (r: bool)
    ensures
        r == (a@ == b@),
{
    let x = chars_of(a);
    let y = chars_of(b);
    same_chars(&x, &y)
}

/// Whether two optional strings are equal.
pub fn same_opt(a: &Option<String>, b: &Option<String>) -> (r: bool)
    ensures
        r == (opt_text(*a) == opt_text(*b)),
{
    match (a, b) {
        (Some(x), Some(y)) => same_text(x.as_str(), y.as_str()),
        (None, None) => true,
        _ => false,
    }
}

/// A copy of an optional string.
pub fn copy_opt(a: &Option<String>) -> (r: Option<String>)
    ensures
        r == *a,
{
    match a {
        Some(x) => Some(x.clone()),
        None => None,
    }
}

/// A copy of a vector of strings.
pub fn copy_all(a: &[String]) -> (r: Vec<String>)
    ensures
        r@ == a@,
{
    let mut r: Vec<String> = Vec::new();
    let mut i: usize = 0;
    while i < a.len()
        invariant
            i <= a@.len(),
            r@ == a@.take(i as int),
        decreases a@.len() - i,
    {
        proof {
            assert(a@.take(i as int).push(a@[i as int]) =~= a@.take(i + 1));
        }
        r.push(a[i].clone());
        i += 1;
    }
    assert(a@.take(i as int) =~= a@);
    r
}

/// Whether a list of strings holds `s`.
pub fn has_text(list: &[String], s: &str) -> (r: bool)
    ensures
        r == texts(list@).contains(s@),
{
    let mut i: usize = 0;
    while i < list.len()
        invariant
            i <= list@.len(),
            forall|k: int| 0 <= k < i ==> list@[k]@ != s@,
        decreases list@.len() - i,
    {
        if same_text(list[i].as_str(), s) {
            assert(texts(list@)[i as int] == s@);
            return true;
        }
        i += 1;
    }
    assert forall|k: int| 0 <= k < texts(list@).len() implies texts(list@)[k] != s@ by {
        assert(list@[k]@ != s@);
    }
    false
}

/// `s` has `p` at position `i`.
pub open spec fn occurs_at(s: Seq<char>, p: Seq<char>, i: int) -> bool {
    0 <= i && i + p.len() <= s.len() && s.subrange(i, i + p.len()) == p
}

/// The first position at or after `from` where `p` stands in `s`, or -1.
pub open spec fn find_from(s: Seq<char>, p: Seq<char>, from: int) -> int
    decreases s.len() + 1 - from,
{
    if from < 0 || from + p.len() > s.len() {
        -1
    } else if occurs_at(s, p, from) {
        from
    } else {
        find_from(s, p, from + 1)
    }
}

/// The first position where `p` stands in `s`, or -1.
pub open spec fn find_text(s: Seq<char>, p: Seq<char>) -> int {
    find_from(s, p, 0)
}

/// `s` contains `p`.
pub open spec fn contains_text(s: Seq<char>, p: Seq<char>) -> bool {
    find_text(s, p) >= 0
}

/// What `find_from` gives is in range and the first place from `from` on.
pub proof fn lemma_find_from(s: Seq<char>, p: Seq<char>, from: int)
    requires
        0 <= from,
    ensures
        find_from(s, p, from) >= 0 ==> {
            &&& from <= find_from(s, p, from)
            &&& occurs_at(s, p, find_from(s, p, from))
            &&& forall|i: int| from <= i < find_from(s, p, from) ==> !occurs_at(s, p, i)
        },
        find_from(s, p, from) < 0 ==> find_from(s, p, from) == -1 && forall|i: int|
            from <= i ==> !occurs_at(s, p, i),
    decreases s.len() + 1 - from,
{
    if from + p.len() <= s.len() && !occurs_at(s, p, from) {
        lemma_find_from(s, p, from + 1);
    }
}

/// Whether `p` stands in `s` at `i`.
pub fn is_at(s: &[char], p: &[char], i: usize) -> (r: bool)
    ensures
        r == occurs_at(s@, p@, i as int),
{
    if i > s.len() || p.len() > s.len() - i {
        return false;
    }
    same_chars(slice_subrange(s, i, i + p.len()), p)
}

/// The first position at or after `from` where `p` stands in `s`.
pub fn find_at(s: &[char], p: &[char], from: usize) -> (r: Option<usize>)
    ensures
        r matches Some(i) ==> i == find_from(s@, p@, from as int) && occurs_at(s@, p@, i as int)
            && from <= i,
        r is None ==> find_from(s@, p@, from as int) == -1,
{
    let mut i: usize = from;
    while i <= s.len() && p.len() <= s.len() - i
        invariant
            from <= i,
            i <= s@.len() + 1 || i == from,
            find_from(s@, p@, from as int) == find_from(s@, p@, i as int),
        decreases s@.len() + 1 - i,
    {
        if is_at(s, p, i) {
            return Some(i);
        }
        proof {
            if p@.len() == 0 {
                assert(s@.subrange(i as int, i as int) =~= p@);
            }
        }
        i += 1;
    }
    None
}

/// Whether `s` contains `p`.
pub fn has_part(s: &[char], p: &[char]) -> (r: bool)
    ensures
        r == contains_text(s@, p@),
{
    find_at(s, p, 0).is_some()
}

/// The first position at or after `from` of the character `c`, or -1.
pub open spec fn find_char_from(s: Seq<char>, c: char, from: int) -> int
    decreases s.len() - from,
{
    if from < 0 || from >= s.len() {
        -1
    } else if s[from] == c {
        from
    } else {
        find_char_from(s, c, from + 1)
    }
}

/// The first position of the character `c`, or -1.
pub open spec fn find_char(s: Seq<char>, c: char) -> int {
    find_char_from(s, c, 0)
}

/// What `find_char_from` gives is the first place of `c` from `from` on.
pub proof fn lemma_find_char_from(s: Seq<char>, c: char, from: int)
    requires
        0 <= from,
    ensures
        find_char_from(s, c, from) >= 0 ==> {
            &&& from <= find_char_from(s, c, from) < s.len()
            &&& s[find_char_from(s, c, from)] == c
            &&& forall|i: int| from <= i < find_char_from(s, c, from) ==> s[i] != c
        },
        find_char_from(s, c, from) < 0 ==> find_char_from(s, c, from) == -1 && forall|i: int|
            from <= i < s.len() ==> s[i] != c,
    decreases s.len() - from,
{
    if from < s.len() && s[from] != c {
        lemma_find_char_from(s, c, from + 1);
    }
}

/// The first position at or after `from` of the character `c`.
pub fn char_at(s: &[char], c: char, from: usize) -> (r: Option<usize>)
    ensures
        r matches Some(i) ==> i == find_char_from(s@, c, from as int) && from <= i < s@.len()
            && s@[i as int] == c,
        r is None ==> find_char_from(s@, c, from as int) == -1,
{
    let mut i: usize = from;
    while i < s.len()
        invariant
            from <= i,
            find_char_from(s@, c, from as int) == find_char_from(s@, c, i as int),
        decreases s@.len() - i,
    {
        if s[i] == c {
            return Some(i);
        }
        i += 1;
    }
    None
}

/// The last position of the character `c`, or -1.
pub open spec fn rfind_char(s: Seq<char>, c: char) -> int
    decreases s.len(),
{
    if s.len() == 0 {
        -1
    } else if s.last() == c {
        s.len() - 1
    } else {
        rfind_char(s.drop_last(), c)
    }
}

/// What `rfind_char` gives is the last place of `c`.
pub proof fn lemma_rfind_char(s: Seq<char>, c: char)
    ensures
        rfind_char(s, c) >= 0 ==> {
            &&& rfind_char(s, c) < s.len()
            &&& s[rfind_char(s, c)] == c
            &&& forall|i: int| rfind_char(s, c) < i < s.len() ==> s[i] != c
        },
        rfind_char(s, c) < 0 ==> rfind_char(s, c) == -1 && forall|i: int|
            0 <= i < s.len() ==> s[i] != c,
    decreases s.len(),
{
    if s.len() > 0 && s.last() != c {
        lemma_rfind_char(s.drop_last(), c);
        assert forall|i: int| 0 <= i < s.len() - 1 implies s[i] == s.drop_last()[i] by {}
        assert forall|i: int| rfind_char(s, c) < i < s.len() implies s[i] != c by {
            if i < s.len() - 1 {
                assert(s.drop_last()[i] == s[i]);
            }
        }
    }
}

/// The last position of the character `c`.
pub fn last_char_at(s: &[char], c: char) -> (r: Option<usize>)
    ensures
        r matches Some(i) ==> i == rfind_char(s@, c) && i < s@.len() && s@[i as int] == c,
        r is None ==> rfind_char(s@, c) == -1,
{
    let mut n: usize = s.len();
    assert(s@.take(n as int) =~= s@);
    while n > 0
        invariant
            n <= s@.len(),
            rfind_char(s@, c) == rfind_char(s@.take(n as int), c),
        decreases n,
    {
        assert(s@.take(n as int).last() == s@[n - 1]);
        if s[n - 1] == c {
            return Some(n - 1);
        }
        assert(s@.take(n as int).drop_last() =~= s@.take(n - 1));
        n -= 1;
    }
    None
}

/// The last position at or before `i` where `p` stands in `s`, or -1.
pub open spec fn rfind_from(s: Seq<char>, p: Seq<char>, i: int) -> int
    decreases i + 1,
{
    if i < 0 {
        -1
    } else if occurs_at(s, p, i) {
        i
    } else {
        rfind_from(s, p, i - 1)
    }
}

/// The last position where `p` stands in `s`, or -1.
pub open spec fn rfind_text(s: Seq<char>, p: Seq<char>) -> int {
    rfind_from(s, p, s.len() - p.len())
}

/// The last position where `p` stands in `s`.
pub fn last_at(s: &[char], p: &[char]) -> (r: Option<usize>)
    ensures
        r matches Some(i) ==> i == rfind_text(s@, p@) && occurs_at(s@, p@, i as int),
        r is None ==> rfind_text(s@, p@) == -1,
{
    if p.len() > s.len() {
        return None;
    }
    let mut i: usize = s.len() - p.len();
    loop
        invariant
            rfind_text(s@, p@) == rfind_from(s@, p@, i as int),
        decreases i,
    {
        if is_at(s, p, i) {
            return Some(i);
        }
        if i == 0 {
            assert(rfind_from(s@, p@, -1) == -1);
            return None;
        }
        i -= 1;
    }
}

/// `s` begins with `p`.
pub open spec fn starts_with(s: Seq<char>, p: Seq<char>) -> bool {
    occurs_at(s, p, 0)
}

/// `s` ends with `p`.
pub open spec fn ends_with(s: Seq<char>, p: Seq<char>) -> bool {
    occurs_at(s, p, s.len() - p.len())
}

/// Whether `s` begins with `p`.
pub fn begins(s: &[char], p: &[char]) -> (r: bool)
    ensures
        r == starts_with(s@, p@),
{
    is_at(s, p, 0)
}

/// Whether `s` ends with `p`.
pub fn finishes(s: &[char], p: &[char]) -> (r: bool)
    ensures
        r == ends_with(s@, p@),
{
    if p.len() > s.len() {
        return false;
    }
    is_at(s, p, s.len() - p.len())
}

/// White space, as the Unicode property of that name has it.
pub open spec fn is_space(c: char) -> bool {
    let n = c as u32;
    ||| 0x9 <= n <= 0xd
    ||| n == 0x20
    ||| n == 0x85
    ||| n == 0xa0
    ||| n == 0x1680
    ||| 0x2000 <= n <= 0x200a
    ||| n == 0x2028
    ||| n == 0x2029
    ||| n == 0x202f
    ||| n == 0x205f
    ||| n == 0x3000
}

/// Whether `c` is white space.
pub fn space(c: char) -> (r: bool)
    ensures
        r == is_space(c),
{
    let n: u32 = c as u32;
    (0x9 <= n && n <= 0xd) || n == 0x20 || n == 0x85 || n == 0xa0 || n == 0x1680 || (0x2000 <= n
        && n <= 0x200a) || n == 0x2028 || n == 0x2029 || n == 0x202f || n == 0x205f || n == 0x3000
}

/// `s` without its leading white space.
pub open spec fn trim_start(s: Seq<char>) -> Seq<char>
    decreases s.len(),
{
    if s.len() > 0 && is_space(s[0]) {
        trim_start(s.skip(1))
    } else {
        s
    }
}

/// `s` without its trailing white space.
pub open spec fn trim_end(s: Seq<char>) -> Seq<char>
    decreases s.len(),
{
    if s.len() > 0 && is_space(s.last()) {
        trim_end(s.drop_last())
    } else {
        s
    }
}

/// `s` without white space at either end.
pub open spec fn trim(s: Seq<char>) -> Seq<char> {
    trim_end(trim_start(s))
}

/// `s` without its leading white space.
pub fn trimmed_start(s: &[char]) -> (r: &[char])
    ensures
        r@ == trim_start(s@),
        r@.len() <= s@.len(),
{
    let mut i: usize = 0;
    assert(s@.skip(0) =~= s@);
    while i < s.len() && space(s[i])
        invariant
            i <= s@.len(),
            trim_start(s@) == trim_start(s@.skip(i as int)),
        decreases s@.len() - i,
    {
        proof {
            assert(s@.skip(i as int)[0] == s@[i as int]);
            assert(s@.skip(i as int).skip(1) =~= s@.skip(i + 1));
        }
        i += 1;
    }
    proof {
        if i < s@.len() {
            assert(s@.skip(i as int)[0] == s@[i as int]);
        }
        assert(s@.subrange(i as int, s@.len() as int) =~= s@.skip(i as int));
    }
    slice_subrange(s, i, s.len())
}

/// `s` without its trailing white space.
pub fn trimmed_end(s: &[char]) -> (r: &[char])
    ensures
        r@ == trim_end(s@),
        r@.len() <= s@.len(),
{
    let mut n: usize = s.len();
    assert(s@.take(n as int) =~= s@);
    while n > 0 && space(s[n - 1])
        invariant
            n <= s@.len(),
            trim_end(s@) == trim_end(s@.take(n as int)),
        decreases n,
    {
        proof {
            assert(s@.take(n as int).last() == s@[n - 1]);
            assert(s@.take(n as int).drop_last() =~= s@.take(n - 1));
        }
        n -= 1;
    }
    proof {
        if n > 0 {
            assert(s@.take(n as int).last() == s@[n - 1]);
        }
        assert(s@.subrange(0, n as int) =~= s@.take(n as int));
    }
    slice_subrange(s, 0, n)
}

/// `s` without white space at either end.
pub fn trimmed(s: &[char]) -> (r: &[char])
    ensures
        r@ == trim(s@),
        r@.len() <= s@.len(),
{
    trimmed_end(trimmed_start(s))
}

/// `s` without white space at either end, as a new string.
pub fn trim_text(s: &str) -> (r: String)
    ensures
        r@ == trim(s@),
{
    let v = chars_of(s);
    string_of(trimmed(&v))
}

/// Whether `s` holds nothing but white space.
pub fn is_blank(s: &str) -> (r: bool)
    ensures
        r == (trim(s@).len() == 0),
{
    let v = chars_of(s);
    trimmed(&v).len() == 0
}

/// `s` without the copies of `c` it begins with.
pub open spec fn strip_start(s: Seq<char>, c: char) -> Seq<char>
    decreases s.len(),
{
    if s.len() > 0 && s[0] == c {
        strip_start(s.skip(1), c)
    } else {
        s
    }
}

/// `s` without the copies of `c` it ends with.
pub open spec fn strip_end(s: Seq<char>, c: char) -> Seq<char>
    decreases s.len(),
{
    if s.len() > 0 && s.last() == c {
        strip_end(s.drop_last(), c)
    } else {
        s
    }
}

/// `s` without the copies of `c` it begins with.
pub fn stripped_start(s: &[char], c: char) -> (r: &[char])
    ensures
        r@ == strip_start(s@, c),
        r@.len() <= s@.len(),
{
    let mut i: usize = 0;
    assert(s@.skip(0) =~= s@);
    while i < s.len() && s[i] == c
        invariant
            i <= s@.len(),
            strip_start(s@, c) == strip_start(s@.skip(i as int), c),
        decreases s@.len() - i,
    {
        proof {
            assert(s@.skip(i as int)[0] == s@[i as int]);
            assert(s@.skip(i as int).skip(1) =~= s@.skip(i + 1));
        }
        i += 1;
    }
    proof {
        if i < s@.len() {
            assert(s@.skip(i as int)[0] == s@[i as int]);
        }
        assert(s@.subrange(i as int, s@.len() as int) =~= s@.skip(i as int));
    }
    slice_subrange(s, i, s.len())
}

/// `s` without the copies of `c` it ends with.
pub fn stripped_end(s: &[char], c: char) -> (r: &[char])
    ensures
        r@ == strip_end(s@, c),
        r@.len() <= s@.len(),
{
    let mut n: usize = s.len();
    assert(s@.take(n as int) =~= s@);
    while n > 0 && s[n - 1] == c
        invariant
            n <= s@.len(),
            strip_end(s@, c) == strip_end(s@.take(n as int), c),
        decreases n,
    {
        proof {
            assert(s@.take(n as int).last() == s@[n - 1]);
            assert(s@.take(n as int).drop_last() =~= s@.take(n - 1));
        }
        n -= 1;
    }
    proof {
        if n > 0 {
            assert(s@.take(n as int).last() == s@[n - 1]);
        }
        assert(s@.subrange(0, n as int) =~= s@.take(n as int));
    }
    slice_subrange(s, 0, n)
}

/// The pieces of `s` between the separators `c`.
pub open spec fn split(s: Seq<char>, c: char) -> Seq<Seq<char>>
    decreases s.len(),
{
    let i = find_char(s, c);
    if i < 0 || i >= s.len() {
        seq![s]
    } else {
        seq![s.take(i)] + split(s.skip(i + 1), c)
    }
}

/// The pieces of `s` between the separators `c`.
pub fn split_at_char(s: &[char], c: char) -> (r: Vec<Vec<char>>)
    ensures
        rows(r@) == split(s@, c),
        r@.len() >= 1,
{
    let mut r: Vec<Vec<char>> = Vec::new();
    let mut start: usize = 0;
    proof {
        assert(s@.skip(0) =~= s@);
        assert(rows(r@) + split(s@, c) =~= split(s@, c));
    }
    loop
        invariant
            start <= s@.len(),
            rows(r@) + split(s@.skip(start as int), c) == split(s@, c),
        decreases s@.len() - start,
    {
        let rest = slice_subrange(s, start, s.len());
        proof {
            assert(rest@ =~= s@.skip(start as int));
        }
        match char_at(rest, c, 0) {
            Some(i) => {
                let piece = slice_subrange(rest, 0, i);
                let ghost before = rows(r@);
                r.push(vstd::slice::slice_to_vec(piece));
                proof {
                    assert(piece@ =~= rest@.take(i as int));
                    assert(rest@.skip(i + 1) =~= s@.skip(start + i + 1));
                    assert(rows(r@) =~= before.push(rest@.take(i as int)));
                    assert(before + (seq![rest@.take(i as int)] + split(rest@.skip(i + 1), c))
                        =~= rows(r@) + split(rest@.skip(i + 1), c));
                }
                start = start + i + 1;
            },
            None => {
                let ghost before = rows(r@);
                r.push(vstd::slice::slice_to_vec(rest));
                proof {
                    assert(rows(r@) =~= before + seq![rest@]);
                }
                return r;
            },
        }
    }
}

/// `s` has no `c`.
pub open spec fn lacks(s: Seq<char>, c: char) -> bool {
    forall|i: int| 0 <= i < s.len() ==> s[i] != c
}

/// None of the parts has a `c`.
pub open spec fn all_lack(parts: Seq<Seq<char>>, c: char) -> bool {
    forall|k: int| 0 <= k < parts.len() ==> lacks(#[trigger] parts[k], c)
}

/// The pieces have no separator, and no character that the text lacks.
pub proof fn lemma_split_lacks(s: Seq<char>, c: char, d: char)
    ensures
        all_lack(split(s, c), c),
        lacks(s, d) ==> all_lack(split(s, c), d),
    decreases s.len(),
{
    let i = find_char(s, c);
    lemma_find_char_from(s, c, 0);
    if i >= 0 {
        let rest = s.skip(i + 1);
        lemma_split_lacks(rest, c, d);
        let p = split(s, c);
        assert(p[0] == s.take(i));
        assert forall|k: int| 1 <= k < p.len() implies p[k] == #[trigger] split(rest, c)[k - 1] by {}
        if lacks(s, d) {
            assert(lacks(rest, d)) by {
                assert forall|m: int| 0 <= m < rest.len() implies rest[m] != d by {
                    assert(rest[m] == s[m + i + 1]);
                }
            }
            assert(lacks(s.take(i), d)) by {
                assert forall|m: int| 0 <= m < i implies s.take(i)[m] != d by {
                    assert(s.take(i)[m] == s[m]);
                }
            }
        }
        assert forall|k: int| 0 <= k < p.len() implies lacks(#[trigger] p[k], c) && (lacks(s, d)
            ==> lacks(p[k], d)) by {
            if k > 0 {
                assert(p[k] == split(rest, c)[k - 1]);
            }
        }
    } else {
        assert(split(s, c) =~= seq![s]);
    }
}

/// Splitting a text that ends in a separator and a piece splits off the piece.
pub proof fn lemma_split_append(s: Seq<char>, c: char, b: Seq<char>)
    requires
        lacks(b, c),
    ensures
        split(s + seq![c] + b, c) == split(s, c).push(b),
    decreases s.len(),
{
    let full = s + seq![c] + b;
    let i = find_char(s, c);
    let j = find_char(full, c);
    lemma_find_char_from(s, c, 0);
    lemma_find_char_from(full, c, 0);
    assert(full[s.len() as int] == c);
    if i < 0 {
        assert forall|k: int| 0 <= k < s.len() implies full[k] != c by {
            assert(full[k] == s[k]);
        }
        assert(j == s.len());
        assert(full.take(j) =~= s);
        assert(full.skip(j + 1) =~= b);
        lemma_find_char_from(b, c, 0);
        assert(split(b, c) =~= seq![b]);
        assert(split(s, c) =~= seq![s]);
        assert(split(full, c) =~= seq![s].push(b));
    } else {
        assert(full[i] == c);
        assert forall|k: int| 0 <= k < i implies full[k] != c by {
            assert(full[k] == s[k]);
        }
        assert(j == i);
        assert(full.take(i) =~= s.take(i));
        assert(full.skip(i + 1) =~= s.skip(i + 1) + seq![c] + b);
        lemma_split_append(s.skip(i + 1), c, b);
        assert(seq![s.take(i)] + split(s.skip(i + 1), c).push(b) =~= (seq![s.take(i)] + split(
            s.skip(i + 1),
            c,
        )).push(b));
    }
}

/// Splitting undoes joining, where no part has the separator.
pub proof fn lemma_split_join(parts: Seq<Seq<char>>, c: char)
    requires
        parts.len() > 0,
        all_lack(parts, c),
    ensures
        split(join(parts, seq![c]), c) == parts,
    decreases parts.len(),
{
    if parts.len() == 1 {
        lemma_find_char_from(parts[0], c, 0);
        assert(lacks(parts[0], c));
        assert(split(parts[0], c) =~= parts);
    } else {
        let front = parts.drop_last();
        assert forall|k: int| 0 <= k < front.len() implies lacks(#[trigger] front[k], c) by {
            assert(front[k] == parts[k]);
        }
        lemma_split_join(front, c);
        assert(lacks(parts[parts.len() - 1], c));
        lemma_split_append(join(front, seq![c]), c, parts.last());
        assert(front.push(parts.last()) =~= parts);
    }
}

/// What no part has and the separator is not, the joined text has not.
pub proof fn lemma_join_lacks(parts: Seq<Seq<char>>, sep: Seq<char>, d: char)
    requires
        all_lack(parts, d),
        lacks(sep, d),
    ensures
        lacks(join(parts, sep), d),
    decreases parts.len(),
{
    if parts.len() == 1 {
        assert(lacks(parts[0], d));
    } else if parts.len() > 1 {
        let front = parts.drop_last();
        assert forall|k: int| 0 <= k < front.len() implies lacks(#[trigger] front[k], d) by {
            assert(front[k] == parts[k]);
        }
        lemma_join_lacks(front, sep, d);
        assert(lacks(parts[parts.len() - 1], d));
        let a = join(front, sep);
        let full = a + sep + parts.last();
        assert forall|i: int| 0 <= i < full.len() implies full[i] != d by {
            if i < a.len() {
                assert(full[i] == a[i]);
            } else if i < a.len() + sep.len() {
                assert(full[i] == sep[i - a.len()]);
            } else {
                assert(full[i] == parts.last()[i - a.len() - sep.len()]);
            }
        }
    }
}

/// A leading empty part puts a separator in front.
pub proof fn lemma_join_leading(parts: Seq<Seq<char>>, sep: Seq<char>)
    requires
        parts.len() > 0,
    ensures
        join(seq![Seq::<char>::empty()] + parts, sep) == sep + join(parts, sep),
    decreases parts.len(),
{
    let e = Seq::<char>::empty();
    let all = seq![e] + parts;
    assert(all.last() == parts.last());
    if parts.len() == 1 {
        assert(all.drop_last() =~= seq![e]);
        assert(join(seq![e], sep) =~= e);
        assert(e + sep + parts[0] =~= sep + parts[0]);
    } else {
        let front = parts.drop_last();
        assert(all.drop_last() =~= seq![e] + front);
        lemma_join_leading(front, sep);
        assert((sep + join(front, sep)) + sep + parts.last() =~= sep + (join(front, sep) + sep
            + parts.last()));
    }
}

/// The texts of `parts` with `sep` between them.
pub open spec fn join(parts: Seq<Seq<char>>, sep: Seq<char>) -> Seq<char>
    decreases parts.len(),
{
    if parts.len() == 0 {
        Seq::empty()
    } else if parts.len() == 1 {
        parts[0]
    } else {
        join(parts.drop_last(), sep) + sep + parts.last()
    }
}

/// The strings of `parts` with `sep` between them.
pub fn join_texts(parts: &[String], sep: &str) -> (r: String)
    ensures
        r@ == join(texts(parts@), sep@),
{
    let mut r = String::new();
    let mut i: usize = 0;
    while i < parts.len()
        invariant
            i <= parts@.len(),
            r@ == join(texts(parts@).take(i as int), sep@),
        decreases parts@.len() - i,
    {
        let ghost t = texts(parts@);
        proof {
            assert(t.take(i + 1).drop_last() =~= t.take(i as int));
            assert(t.take(i + 1).last() == parts@[i as int]@);
        }
        if i > 0 {
            r.append(sep);
        }
        proof {
            if i == 0 {
                assert(r@ + parts@[0]@ =~= parts@[0]@);
            }
        }
        r.append(parts[i].as_str());
        i += 1;
    }
    assert(texts(parts@).take(i as int) =~= texts(parts@));
    r
}

/// `s` with each `a` replaced by `b`.
pub open spec fn replace_char(s: Seq<char>, a: char, b: char) -> Seq<char> {
    Seq::new(
        s.len(),
        |i: int|
            if s[i] == a {
                b
            } else {
                s[i]
            },
    )
}

/// `s` with each `a` replaced by `b`.
pub fn with_replaced(s: &[char], a: char, b: char) -> (r: Vec<char>)
    ensures
        r@ == replace_char(s@, a, b),
{
    let mut r: Vec<char> = Vec::new();
    let mut i: usize = 0;
    while i < s.len()
        invariant
            i <= s@.len(),
            r@.len() == i,
            forall|k: int| 0 <= k < i ==> r@[k] == replace_char(s@, a, b)[k],
        decreases s@.len() - i,
    {
        r.push(if s[i] == a { b } else { s[i] });
        i += 1;
    }
    assert(r@ =~= replace_char(s@, a, b));
    r
}

/// The parts that are not empty.
pub open spec fn non_empty(parts: Seq<Seq<char>>) -> Seq<Seq<char>>
    decreases parts.len(),
{
    if parts.len() == 0 {
        parts
    } else if parts.last().len() == 0 {
        non_empty(parts.drop_last())
    } else {
        non_empty(parts.drop_last()).push(parts.last())
    }
}

/// A line without the carriage return before its line feed.
pub open spec fn without_return(s: Seq<char>) -> Seq<char> {
    if s.len() > 0 && s.last() == '\r' {
        s.drop_last()
    } else {
        s
    }
}

/// The lines that pieces between line feeds make: each loses the carriage
/// return before its line feed, and the last counts only where it is not
/// empty.
pub open spec fn lines_of_pieces(pieces: Seq<Seq<char>>) -> Seq<Seq<char>> {
    let ended = Seq::new(
        (pieces.len() - 1) as nat,
        |i: int| without_return(pieces[i]),
    );
    if pieces.last().len() == 0 {
        ended
    } else {
        ended.push(pieces.last())
    }
}

/// The lines of a text.
pub open spec fn lines(s: Seq<char>) -> Seq<Seq<char>> {
    lines_of_pieces(split(s, '\n'))
}

/// The lines of a text.
pub fn lines_of(s: &[char]) -> (r: Vec<Vec<char>>)
    ensures
        rows(r@) == lines(s@),
{
    let pieces = split_at_char(s, '\n');
    let ghost ps = rows(pieces@);
    let last: usize = pieces.len() - 1;
    let mut r: Vec<Vec<char>> = Vec::new();
    let mut i: usize = 0;
    while i < last
        invariant
            i <= last,
            last == pieces@.len() - 1,
            ps == rows(pieces@),
            r@.len() == i,
            forall|k: int| 0 <= k < i ==> #[trigger] rows(r@)[k] == without_return(ps[k]),
        decreases last - i,
    {
        let ghost before = r@;
        let p = &pieces[i];
        let n: usize = p.len();
        let end: usize = if n > 0 && p[n - 1] == '\r' {
            n - 1
        } else {
            n
        };
        let line = vstd::slice::slice_to_vec(slice_subrange(p, 0, end));
        proof {
            assert(ps[i as int] == p@);
            assert(line@ =~= without_return(p@));
        }
        r.push(line);
        proof {
            assert forall|k: int| 0 <= k < i + 1 implies #[trigger] rows(r@)[k] == without_return(
                ps[k],
            ) by {
                if k < i {
                    assert(rows(before)[k] == without_return(ps[k]));
                }
            }
        }
        i += 1;
    }
    let ghost ended = Seq::new((ps.len() - 1) as nat, |i: int| without_return(ps[i]));
    proof {
        assert(ps.last() == pieces@[last as int]@);
        assert(rows(r@) =~= ended);
    }
    if pieces[last].len() > 0 {
        let ghost before = r@;
        r.push(vstd::slice::slice_to_vec(&pieces[last]));
        assert(rows(r@) =~= rows(before).push(ps.last()));
    }
    r
}

/// Parts of which none is empty stay as they are, and so does what they lack.
pub proof fn lemma_non_empty(parts: Seq<Seq<char>>)
    ensures
        forall|k: int|
            0 <= k < non_empty(parts).len() ==> (#[trigger] non_empty(parts)[k]).len() > 0,
        (forall|k: int| 0 <= k < parts.len() ==> (#[trigger] parts[k]).len() > 0) ==> non_empty(
            parts,
        ) == parts,
        forall|d: char| all_lack(parts, d) ==> #[trigger] all_lack(non_empty(parts), d),
    decreases parts.len(),
{
    if parts.len() > 0 {
        let front = parts.drop_last();
        lemma_non_empty(front);
        assert(front.push(parts.last()) =~= parts);
        if forall|k: int| 0 <= k < parts.len() ==> (#[trigger] parts[k]).len() > 0 {
            assert forall|k: int| 0 <= k < front.len() implies (#[trigger] front[k]).len() > 0 by {
                assert(front[k] == parts[k]);
            }
            assert(parts[parts.len() - 1].len() > 0);
        }
        assert forall|d: char| all_lack(parts, d) implies #[trigger] all_lack(
            non_empty(parts),
            d,
        ) by {
            assert forall|k: int| 0 <= k < front.len() implies lacks(#[trigger] front[k], d) by {
                assert(front[k] == parts[k]);
            }
            assert(all_lack(front, d));
            assert(all_lack(non_empty(front), d));
            assert(lacks(parts[parts.len() - 1], d));
        }
    }
}

/// The parts that are not empty, as strings.
pub fn non_empty_parts(parts: &[Vec<char>]) -> (r: Vec<String>)
    ensures
        texts(r@) == non_empty(rows(parts@)),
{
    let ghost ps = rows(parts@);
    let mut r: Vec<String> = Vec::new();
    let mut i: usize = 0;
    assert(texts(r@) =~= non_empty(ps.take(0)));
    while i < parts.len()
        invariant
            i <= parts@.len(),
            ps == rows(parts@),
            texts(r@) == non_empty(ps.take(i as int)),
        decreases parts@.len() - i,
    {
        let ghost before = r@;
        proof {
            assert(ps.take(i + 1).drop_last() =~= ps.take(i as int));
            assert(ps.take(i + 1).last() == parts@[i as int]@);
        }
        if parts[i].len() > 0 {
            r.push(string_of(&parts[i]));
            assert(texts(r@) =~= texts(before).push(parts@[i as int]@));
        }
        i += 1;
    }
    assert(ps.take(i as int) =~= ps);
    r
}

/// `s` with each white space made a blank.
pub open spec fn blanked(s: Seq<char>) -> Seq<char> {
    Seq::new(
        s.len(),
        |i: int|
            if is_space(s[i]) {
                ' '
            } else {
                s[i]
            },
    )
}

/// The words of `s`: what stands between white space.
pub open spec fn words(s: Seq<char>) -> Seq<Seq<char>> {
    non_empty(split(blanked(s), ' '))
}

/// The words of `s`.
pub fn words_of(s: &[char]) -> (r: Vec<String>)
    ensures
        texts(r@) == words(s@),
{
    let mut b: Vec<char> = Vec::new();
    let mut i: usize = 0;
    while i < s.len()
        invariant
            i <= s@.len(),
            b@.len() == i,
            forall|k: int| 0 <= k < i ==> b@[k] == blanked(s@)[k],
        decreases s@.len() - i,
    {
        b.push(if space(s[i]) { ' ' } else { s[i] });
        i += 1;
    }
    assert(b@ =~= blanked(s@));
    let parts = split_at_char(&b, ' ');
    non_empty_parts(&parts)
}

/// How often a text stands in a list.
pub open spec fn occurrences(s: Seq<Seq<char>>, x: Seq<char>) -> nat
    decreases s.len(),
{
    if s.len() == 0 {
        0
    } else {
        occurrences(s.drop_last(), x) + if s.last() == x {
            1nat
        } else {
            0
        }
    }
}

/// How often a text stands in a list.
pub fn count_of(names: &[String], name: &str) -> (r: usize)
    ensures
        r == occurrences(texts(names@), name@),
{
    let ghost all = texts(names@);
    let mut n: usize = 0;
    let mut i: usize = 0;
    while i < names.len()
        invariant
            i <= names@.len(),
            n <= i,
            all == texts(names@),
            n == occurrences(all.take(i as int), name@),
        decreases names@.len() - i,
    {
        proof {
            assert(all.take(i + 1).drop_last() =~= all.take(i as int));
            assert(all.take(i + 1).last() == names@[i as int]@);
        }
        if same_text(names[i].as_str(), name) {
            n += 1;
        }
        i += 1;
    }
    assert(all.take(i as int) =~= all);
    n
}

/// The digit for a number below ten.
pub open spec fn digit(n: int) -> char {
    ('0' as u32 + n) as char
}

/// A number in decimal.
pub open spec fn decimal(n: nat) -> Seq<char>
    decreases n,
{
    if n < 10 {
        seq![digit(n as int)]
    } else {
        decimal(n / 10).push(digit((n % 10) as int))
    }
}

/// A whole number in decimal, with a minus sign where it is negative.
pub open spec fn signed_decimal(n: int) -> Seq<char> {
    if n < 0 {
        seq!['-'] + decimal((-n) as nat)
    } else {
        decimal(n as nat)
    }
}

/// The digit for a number below ten.
fn digit_char(n: u64) -> (r: char)
    requires
        n < 10,
    ensures
        r == digit(n as int),
{
    (48 + n as u8) as char
}

/// A number in decimal.
pub fn wide_decimal_text(n: u128) -> (r: String)
    ensures
        r@ == decimal(n as nat),
    decreases n,
{
    if n < 10 {
        let mut r = String::new();
        r.push(digit_char(n as u64));
        assert(r@ =~= decimal(n as nat));
        r
    } else {
        let mut r = wide_decimal_text(n / 10);
        r.push(digit_char((n % 10) as u64));
        r
    }
}

/// A number in decimal.
pub fn decimal_text(n: u64) -> (r: String)
    ensures
        r@ == decimal(n as nat),
{
    wide_decimal_text(n as u128)
}

/// A whole number in decimal.
pub fn signed_text(n: i64) -> (r: String)
    ensures
        r@ == signed_decimal(n as int),
{
    if n < 0 {
        let size: u64 = if n == i64::MIN {
            0x8000_0000_0000_0000
        } else {
            (-n) as u64
        };
        let digits = decimal_text(size);
        let mut r = String::new();
        r.push('-');
        r.append(digits.as_str());
        assert(r@ =~= signed_decimal(n as int));
        r
    } else {
        decimal_text(n as u64)
    }
}

/// The last `max` characters of `s`.
pub open spec fn tail(s: Seq<char>, max: int) -> Seq<char> {
    if s.len() <= max {
        s
    } else {
        s.skip(s.len() - max)
    }
}

/// Keeps the last `max` characters.
pub fn truncate_tail(text: &str, max: usize) -> (r: String)
    ensures
        r@ == tail(text@, max as int),
{
    let cs = chars_of(text);
    if cs.len() <= max {
        text.to_string()
    } else {
        let from: usize = cs.len() - max;
        assert(cs@.subrange(from as int, cs@.len() as int) =~= cs@.skip(from as int));
        string_of(slice_subrange(&cs, from, cs.len()))
    }
}

} // verus!
