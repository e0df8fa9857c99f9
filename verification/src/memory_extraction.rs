//! Extraction of memories from a session: the model's answer is found in its
//! output, checked, and applied.

use vstd::prelude::*;
use vstd::slice::slice_subrange;
use vstd::string::*;
use crate::domain::DomainError;
use crate::memory::{MemoryKind, MemoryOperation, OperationView, operation_views};
use crate::text::{
    char_at, chars_of, find_char, is_space, lacks, lemma_find_char_from, opt_text, space, string_of,
    strip_end, strip_start, stripped_end, stripped_start, trim, trim_text,
};
use crate::unicode::{alphanumeric_char, is_alphanumeric, lowercase, to_lowercase};

verus! {

/// How many existing memories are put into the extraction context.
pub const PREFETCH_LIMIT: usize = 8;

/// Most operations applied from one extraction.
pub const MAX_OPERATIONS_PER_RUN: usize = 24;

/// Most characters of a name.
pub const MAX_NAME_CHARS: usize = 64;

/// Where a scan of an object stands.
#[derive(Clone, Copy)]
pub struct Scan {
    /// Braces that are open.
    pub depth: usize,
    pub in_string: bool,
    pub escaped: bool,
}

/// The scan past one more character. Braces in strings do not count, and a
/// quote behind a backslash does not end a string.
pub open spec fn scanned(s: Scan, c: char) -> Scan {
    if s.in_string {
        Scan {
            in_string: s.escaped || c != '"',
            escaped: !s.escaped && c == '\\',
            ..s
        }
    } else if c == '"' {
        Scan { in_string: true, ..s }
    } else if c == '{' {
        Scan { depth: (s.depth + 1) as usize, ..s }
    } else if c == '}' {
        Scan { depth: (s.depth - 1) as usize, ..s }
    } else {
        s
    }
}

/// The end of the object in which the scan stands before `i`, or -1.
pub open spec fn object_end(t: Seq<char>, i: int, s: Scan) -> int
    decreases t.len() - i,
{
    if i < 0 || i >= t.len() {
        -1
    } else {
        let next = scanned(s, t[i]);
        if !s.in_string && t[i] == '}' && next.depth == 0 {
            i + 1
        } else {
            object_end(t, i + 1, next)
        }
    }
}

/// Before any character of an object.
pub open spec fn at_start() -> Scan {
    Scan { depth: 0, in_string: false, escaped: false }
}

/// The first balanced `{..}` of a text.
pub open spec fn first_object(t: Seq<char>) -> Option<Seq<char>> {
    let start = find_char(t, '{');
    let end = object_end(t, start, at_start());
    if start < 0 || end < 0 {
        None
    } else {
        Some(t.subrange(start, end))
    }
}

/// The scan past the first `n` characters of a text.
pub open spec fn scan_past(t: Seq<char>, n: int) -> Scan
    decreases n,
{
    if n <= 0 {
        at_start()
    } else {
        scanned(scan_past(t, n - 1), t[n - 1])
    }
}

/// One object that is balanced outside its strings: it opens with the first
/// character, and the last is the brace that closes it.
pub open spec fn is_object_text(o: Seq<char>) -> bool {
    &&& o.len() >= 2
    &&& o[0] == '{'
    &&& o.last() == '}'
    &&& !scan_past(o, o.len() - 1).in_string
    &&& scan_past(o, o.len() as int).depth == 0
    &&& forall|n: int| 0 < n < o.len() ==> (#[trigger] scan_past(o, n)).depth > 0
}

/// The object `o` stands in the text behind `front`, which opens none.
pub open spec fn stands_behind(t: Seq<char>, front: Seq<char>, o: Seq<char>) -> bool {
    &&& lacks(front, '{')
    &&& front.len() + o.len() <= t.len()
    &&& t.take(front.len() as int) == front
    &&& t.subrange(front.len() as int, (front.len() + o.len()) as int) == o
}

proof fn lemma_end_of_object(front: Seq<char>, o: Seq<char>, back: Seq<char>, n: int)
    requires
        is_object_text(o),
        0 <= n < o.len(),
    ensures
        object_end(front + o + back, front.len() + n, scan_past(o, n)) == front.len() + o.len(),
    decreases o.len() - n,
{
    let t = front + o + back;
    assert(t[front.len() + n] == o[n]);
    assert(scan_past(o, n + 1) == scanned(scan_past(o, n), o[n]));
    if n + 1 < o.len() {
        lemma_end_of_object(front, o, back, n + 1);
    }
}

/// An object that is balanced outside its strings is given back whole, whatever
/// text without an opening brace stands in front of it and whatever text
/// behind.
pub proof fn lemma_object_between(front: Seq<char>, o: Seq<char>, back: Seq<char>)
    requires
        lacks(front, '{'),
        is_object_text(o),
    ensures
        first_object(front + o + back) == Some(o),
{
    let t = front + o + back;
    let at = front.len() as int;
    lemma_find_char_from(t, '{', 0);
    assert(t[at] == o[0]);
    assert forall|i: int| 0 <= i < at implies t[i] != '{' by {
        assert(t[i] == front[i]);
    }
    assert(find_char(t, '{') == at);
    lemma_end_of_object(front, o, back, 0);
    assert(t.subrange(at, at + o.len()) =~= o);
}

/// Where nothing opens there is no object.
pub proof fn lemma_no_object(t: Seq<char>)
    requires
        lacks(t, '{'),
    ensures
        first_object(t) is None,
{
    lemma_find_char_from(t, '{', 0);
}

/// What is found is an object that is balanced outside its strings, and no
/// brace opens in front of it.
pub proof fn lemma_first_object(t: Seq<char>)
    requires
        t.len() <= usize::MAX,
    ensures
        first_object(t) matches Some(o) ==> is_object_text(o) && stands_behind(
            t,
            t.take(find_char(t, '{')),
            o,
        ),
{
    let start = find_char(t, '{');
    lemma_find_char_from(t, '{', 0);
    if start >= 0 {
        let rest = t.skip(start);
        assert(rest[0] == '{');
        assert(scan_past(rest, 0) == at_start());
        assert(scan_past(rest, 1) == scanned(at_start(), '{'));
        lemma_object_end(t, start, 1);
        let end = object_end(t, start, at_start());
        assert(end == object_end(t, start + 1, scan_past(rest, 1)));
        if end >= 0 {
            let o = t.subrange(start, end);
            assert forall|n: int| 0 <= n <= o.len() implies #[trigger] scan_past(o, n)
                == scan_past(rest, n) by {
                lemma_same_scan(o, rest, n);
            }
            assert(o[0] == '{');
            assert(o.last() == t[end - 1]);
            assert(t.subrange(start, start + o.len()) =~= o);
        }
    }
}

proof fn lemma_same_scan(a: Seq<char>, b: Seq<char>, n: int)
    requires
        0 <= n <= a.len() <= b.len(),
        forall|i: int| 0 <= i < a.len() ==> a[i] == b[i],
    ensures
        scan_past(a, n) == scan_past(b, n),
    decreases n,
{
    if n > 0 {
        lemma_same_scan(a, b, n - 1);
    }
}

proof fn lemma_object_end(t: Seq<char>, start: int, n: int)
    requires
        0 <= start,
        1 <= n,
        start + n <= t.len() <= usize::MAX,
        0 < scan_past(t.skip(start), n).depth <= n,
    ensures
        ({
            let rest = t.skip(start);
            let end = object_end(t, start + n, scan_past(rest, n));
            end >= 0 ==> {
                &&& start + n < end <= t.len()
                &&& t[end - 1] == '}'
                &&& !scan_past(rest, end - 1 - start).in_string
                &&& scan_past(rest, end - start).depth == 0
                &&& forall|m: int|
                    n <= m < end - start ==> (#[trigger] scan_past(rest, m)).depth > 0
            }
        }),
    decreases t.len() - start - n,
{
    let rest = t.skip(start);
    if start + n < t.len() {
        let s = scan_past(rest, n);
        let c = t[start + n];
        assert(rest[n] == c);
        assert(scan_past(rest, n + 1) == scanned(s, c));
        if !(!s.in_string && c == '}' && scanned(s, c).depth == 0) {
            lemma_object_end(t, start, n + 1);
        }
    }
}

/// Finds the first balanced `{..}` in mixed output of a model.
pub fn extract_json_object(text: &str) -> (r: Option<String>)
    ensures
        opt_text(r) == first_object(text@),
{
    let t = chars_of(text);
    let start: usize = match char_at(&t, '{', 0) {
        Some(i) => i,
        None => {
            return None;
        },
    };
    let mut s = Scan { depth: 0, in_string: false, escaped: false };
    let mut i: usize = start;
    while i < t.len()
        invariant
            t@ == text@,
            start == find_char(text@, '{'),
            start <= i <= t@.len(),
            start < t@.len(),
            t@[start as int] == '{',
            s.depth <= i - start,
            i > start ==> s.depth > 0,
            i == start ==> s == at_start(),
            object_end(t@, start as int, at_start()) == object_end(t@, i as int, s),
        decreases t@.len() - i,
    {
        let c = t[i];
        let outside = !s.in_string;
        if s.in_string {
            if s.escaped {
                s.escaped = false;
            } else if c == '\\' {
                s.escaped = true;
            } else if c == '"' {
                s.in_string = false;
            }
        } else if c == '"' {
            s.in_string = true;
        } else if c == '{' {
            s.depth = s.depth + 1;
        } else if c == '}' {
            s.depth = s.depth - 1;
        }
        if outside && c == '}' && s.depth == 0 {
            proof {
                assert(object_end(t@, start as int, at_start()) == i + 1);
            }
            return Some(string_of(slice_subrange(&t, start, i + 1)));
        }
        i += 1;
    }
    None
}

/// The object in the output of a model, or an error that says what it was to
/// be found in.
pub fn framed_object(response: &str, missing: &str) -> (r: Result<String, DomainError>)
    ensures
        r is Ok == first_object(response@) is Some,
        r matches Ok(o) ==> Some(o@) == first_object(response@),
        r matches Err(e) ==> e is ParseError && e->ParseError_0@ == missing@,
{
    match extract_json_object(response) {
        Some(o) => Ok(o),
        None => Err(DomainError::ParseError(missing.to_string())),
    }
}

/// A character as it stands in a name: white space and hyphens become `_`.
pub open spec fn name_char(c: char) -> char {
    if is_space(c) || c == '-' {
        '_'
    } else {
        c
    }
}

/// The characters of a text that can stand in a name.
pub open spec fn name_chars(s: Seq<char>) -> Seq<char>
    decreases s.len(),
{
    if s.len() == 0 {
        s
    } else {
        let d = name_chars(s.drop_last());
        let c = name_char(s.last());
        if alphanumeric_char(c) || c == '_' {
            d.push(c)
        } else {
            d
        }
    }
}

/// The first `max` characters.
pub open spec fn head(s: Seq<char>, max: int) -> Seq<char> {
    if s.len() <= max {
        s
    } else {
        s.take(max)
    }
}

/// The name in snake case of a text in small letters; none where nothing is
/// left of it.
pub open spec fn snake_case(lowered: Seq<char>) -> Option<Seq<char>> {
    let name = strip_end(strip_start(name_chars(lowered), '_'), '_');
    if name.len() == 0 {
        None
    } else {
        Some(head(name, MAX_NAME_CHARS as int))
    }
}

/// The normal form of a name.
pub open spec fn normal_name(raw: Seq<char>) -> Option<Seq<char>> {
    snake_case(lowercase(trim(raw)))
}

/// The name in snake case of a text in small letters.
pub fn snake_name(lowered: &str) -> (r: Option<String>)
    ensures
        opt_text(r) == snake_case(lowered@),
{
    let cs = chars_of(lowered);
    let mut kept: Vec<char> = Vec::new();
    let mut i: usize = 0;
    while i < cs.len()
        invariant
            i <= cs@.len(),
            kept@ == name_chars(cs@.take(i as int)),
        decreases cs@.len() - i,
    {
        proof {
            assert(cs@.take(i + 1).drop_last() =~= cs@.take(i as int));
            assert(cs@.take(i + 1).last() == cs@[i as int]);
        }
        let c = if space(cs[i]) || cs[i] == '-' {
            '_'
        } else {
            cs[i]
        };
        if is_alphanumeric(c) || c == '_' {
            kept.push(c);
        }
        i += 1;
    }
    assert(cs@.take(i as int) =~= cs@);
    let name = stripped_end(stripped_start(&kept, '_'), '_');
    if name.len() == 0 {
        None
    } else if name.len() <= MAX_NAME_CHARS {
        Some(string_of(name))
    } else {
        assert(name@.subrange(0, MAX_NAME_CHARS as int) =~= name@.take(MAX_NAME_CHARS as int));
        Some(string_of(slice_subrange(name, 0, MAX_NAME_CHARS)))
    }
}

/// Brings a name into snake case; none where nothing is left of it.
pub fn normalize_name(raw: &str) -> (r: Option<String>)
    ensures
        opt_text(r) == normal_name(raw@),
{
    let trimmed = trim_text(raw);
    snake_name(to_lowercase(trimmed.as_str()).as_str())
}

/// A normal name is not empty and not longer than the bound, and does not
/// begin with `_`.
pub proof fn lemma_normal_name(raw: Seq<char>)
    ensures
        normal_name(raw) matches Some(n) ==> 0 < n.len() <= MAX_NAME_CHARS && n[0] != '_',
{
    let a = name_chars(lowercase(trim(raw)));
    let b = strip_start(a, '_');
    let c = strip_end(b, '_');
    lemma_strip_start(a, '_');
    lemma_strip_end(b, '_');
    if c.len() > 0 {
        assert(c[0] == b[0]);
    }
}

proof fn lemma_strip_start(s: Seq<char>, c: char)
    ensures
        strip_start(s, c).len() > 0 ==> strip_start(s, c)[0] != c,
    decreases s.len(),
{
    if s.len() > 0 && s[0] == c {
        lemma_strip_start(s.skip(1), c);
    }
}

proof fn lemma_strip_end(s: Seq<char>, c: char)
    ensures
        strip_end(s, c).len() <= s.len(),
        forall|i: int| 0 <= i < strip_end(s, c).len() ==> strip_end(s, c)[i] == s[i],
    decreases s.len(),
{
    if s.len() > 0 && s.last() == c {
        let d = s.drop_last();
        lemma_strip_end(d, c);
        assert forall|i: int| 0 <= i < strip_end(s, c).len() implies strip_end(s, c)[i] == s[i] by {
            assert(d[i] == s[i]);
        }
    }
}

/// An item, as the model gave it.
#[derive(Debug)]
pub struct RawItem {
    pub name: String,
    pub content: String,
}

/// A deletion, as the model gave it.
#[derive(Debug)]
pub struct RawDelete {
    pub kind: String,
    pub name: String,
}

/// What the model extracted.
#[derive(Debug)]
pub struct ExtractionOutput {
    pub preferences: Vec<RawItem>,
    pub experiences: Vec<RawItem>,
    pub skills: Vec<RawItem>,
    pub facts: Vec<RawItem>,
    pub delete: Vec<RawDelete>,
}

/// The writes of the items that have a name and a content.
pub open spec fn writes_of(kind: MemoryKind, items: Seq<RawItem>) -> Seq<OperationView>
    decreases items.len(),
{
    if items.len() == 0 {
        Seq::empty()
    } else {
        let d = writes_of(kind, items.drop_last());
        let content = trim(items.last().content@);
        match normal_name(items.last().name@) {
            Some(name) if content.len() > 0 => d.push(
                OperationView::Upsert { kind, name, content, scope: None },
            ),
            _ => d,
        }
    }
}

/// The deletions that name a kind and an item.
pub open spec fn deletes_of(deletes: Seq<RawDelete>) -> Seq<OperationView>
    decreases deletes.len(),
{
    if deletes.len() == 0 {
        Seq::empty()
    } else {
        let d = deletes_of(deletes.drop_last());
        let raw = deletes.last();
        match (MemoryKind::named(raw.kind@), normal_name(raw.name@)) {
            (Some(kind), Some(name)) => d.push(OperationView::Delete { kind, name }),
            _ => d,
        }
    }
}

/// The operations that the model's answer stands for: the writes kind by kind,
/// then the deletions.
pub open spec fn extracted(o: ExtractionOutput) -> Seq<OperationView> {
    writes_of(MemoryKind::Preference, o.preferences@) + writes_of(
        MemoryKind::Experience,
        o.experiences@,
    ) + writes_of(MemoryKind::Skill, o.skills@) + writes_of(MemoryKind::Fact, o.facts@)
        + deletes_of(o.delete@)
}

fn push_writes(ops: &mut Vec<MemoryOperation>, kind: MemoryKind, items: &[RawItem])
    ensures
        operation_views(final(ops)@) == operation_views(old(ops)@) + writes_of(kind, items@),
{
    let ghost start = operation_views(ops@);
    let mut i: usize = 0;
    assert(start + writes_of(kind, items@.take(0)) =~= start);
    while i < items.len()
        invariant
            i <= items@.len(),
            operation_views(ops@) == start + writes_of(kind, items@.take(i as int)),
        decreases items@.len() - i,
    {
        let ghost before = ops@;
        let ghost d = writes_of(kind, items@.take(i as int));
        proof {
            assert(items@.take(i + 1).drop_last() =~= items@.take(i as int));
            assert(items@.take(i + 1).last() == items@[i as int]);
        }
        if let Some(name) = normalize_name(items[i].name.as_str()) {
            let content = trim_text(items[i].content.as_str());
            if !content.as_str().is_empty() {
                let op = MemoryOperation::Upsert { kind, name, content, scope: None };
                let ghost v = op@;
                ops.push(op);
                proof {
                    assert(operation_views(ops@) =~= operation_views(before).push(v));
                    assert((start + d).push(v) =~= start + d.push(v));
                }
            }
        }
        i += 1;
    }
    assert(items@.take(i as int) =~= items@);
}

pub(crate) fn push_deletes(ops: &mut Vec<MemoryOperation>, deletes: &[RawDelete])
    ensures
        operation_views(final(ops)@) == operation_views(old(ops)@) + deletes_of(deletes@),
{
    let ghost start = operation_views(ops@);
    let mut i: usize = 0;
    assert(start + deletes_of(deletes@.take(0)) =~= start);
    while i < deletes.len()
        invariant
            i <= deletes@.len(),
            operation_views(ops@) == start + deletes_of(deletes@.take(i as int)),
        decreases deletes@.len() - i,
    {
        let ghost before = ops@;
        let ghost d = deletes_of(deletes@.take(i as int));
        proof {
            assert(deletes@.take(i + 1).drop_last() =~= deletes@.take(i as int));
            assert(deletes@.take(i + 1).last() == deletes@[i as int]);
        }
        if let Some(kind) = MemoryKind::parse(deletes[i].kind.as_str()) {
            if let Some(name) = normalize_name(deletes[i].name.as_str()) {
                let op = MemoryOperation::Delete { kind, name };
                let ghost v = op@;
                ops.push(op);
                proof {
                    assert(operation_views(ops@) =~= operation_views(before).push(v));
                    assert((start + d).push(v) =~= start + d.push(v));
                }
            }
        }
        i += 1;
    }
    assert(deletes@.take(i as int) =~= deletes@);
}

/// Makes checked operations of the model's answer.
pub fn extraction_operations(output: &ExtractionOutput) -> (r: Vec<MemoryOperation>)
    ensures
        operation_views(r@) == extracted(*output),
{
    let mut ops: Vec<MemoryOperation> = Vec::new();
    proof {
        assert(operation_views(ops@) + writes_of(MemoryKind::Preference, output.preferences@)
            =~= writes_of(MemoryKind::Preference, output.preferences@));
    }
    push_writes(&mut ops, MemoryKind::Preference, &output.preferences);
    push_writes(&mut ops, MemoryKind::Experience, &output.experiences);
    push_writes(&mut ops, MemoryKind::Skill, &output.skills);
    push_writes(&mut ops, MemoryKind::Fact, &output.facts);
    push_deletes(&mut ops, &output.delete);
    ops
}

/// Outcome of one extraction run.
#[derive(Debug)]
pub struct ExtractionReport {
    /// Operations that were applied, in order.
    pub applied: Vec<MemoryOperation>,
    /// Operations that were skipped, with the reason.
    pub skipped: Vec<(MemoryOperation, String)>,
}

/// What is done about an operation.
#[derive(Debug, Clone, Copy, PartialEq, Eq, Structural)]
pub enum ExtractionStep {
    /// The limit is reached.
    Refuse,
    /// Write the item.
    Write,
    /// Delete the item, if it is there.
    Delete,
}

/// The number of writes among operations.
pub open spec fn count_writes(ops: Seq<MemoryOperation>) -> nat
    decreases ops.len(),
{
    if ops.len() == 0 {
        0
    } else {
        count_writes(ops.drop_last()) + if ops.last() is Upsert {
            1nat
        } else {
            0
        }
    }
}

/// What skipped operations say, with the reasons.
pub open spec fn skipped_views(s: Seq<(MemoryOperation, String)>) -> Seq<
    (OperationView, Seq<char>),
> {
    Seq::new(s.len(), |i: int| (s[i].0@, s[i].1@))
}

impl ExtractionReport {
    /// The report before anything was done.
    pub fn new() -> (r: ExtractionReport)
        ensures
            r.applied@.len() == 0,
            r.skipped@.len() == 0,
    {
        ExtractionReport { applied: Vec::new(), skipped: Vec::new() }
    }

    /// What is done about an operation.
    pub open spec fn step_for(self, op: MemoryOperation) -> ExtractionStep {
        if self.applied@.len() >= MAX_OPERATIONS_PER_RUN {
            ExtractionStep::Refuse
        } else if op is Upsert {
            ExtractionStep::Write
        } else {
            ExtractionStep::Delete
        }
    }

    /// Decides what is done about an operation.
    pub fn decide(&self, op: &MemoryOperation) -> (r: ExtractionStep)
        ensures
            r == self.step_for(*op),
    {
        if self.applied.len() >= MAX_OPERATIONS_PER_RUN {
            return ExtractionStep::Refuse;
        }
        match op {
            MemoryOperation::Upsert { .. } => ExtractionStep::Write,
            MemoryOperation::Delete { .. } => ExtractionStep::Delete,
        }
    }

    /// Records an operation once it was carried out; `existed` tells whether
    /// the item of a deletion was there.
    pub fn settle(&mut self, op: MemoryOperation, existed: bool)
        ensures
            ({
                let step = old(self).step_for(op);
                if step == ExtractionStep::Write || (step == ExtractionStep::Delete && existed) {
                    &&& final(self).applied@ == old(self).applied@.push(op)
                    &&& final(self).skipped == old(self).skipped
                } else {
                    &&& final(self).applied == old(self).applied
                    &&& skipped_views(final(self).skipped@) == skipped_views(
                        old(self).skipped@,
                    ).push(
                        (
                            op@,
                            if step == ExtractionStep::Refuse {
                                "operation limit reached"@
                            } else {
                                "item not found"@
                            },
                        ),
                    )
                }
            }),
    {
        let step = self.decide(&op);
        let ghost before = self.skipped@;
        let ghost v = op@;
        match step {
            ExtractionStep::Refuse => {
                let reason = "operation limit reached".to_string();
                let ghost t = reason@;
                self.skipped.push((op, reason));
                assert(skipped_views(self.skipped@) =~= skipped_views(before).push((v, t)));
            },
            ExtractionStep::Write => {
                self.applied.push(op);
            },
            ExtractionStep::Delete => {
                if existed {
                    self.applied.push(op);
                } else {
                    let reason = "item not found".to_string();
                    let ghost t = reason@;
                    self.skipped.push((op, reason));
                    assert(skipped_views(self.skipped@) =~= skipped_views(before).push((v, t)));
                }
            },
        }
    }

    /// The number of items that were written.
    pub fn items_written(&self) -> (r: usize)
        ensures
            r == count_writes(self.applied@),
    {
        let mut n: usize = 0;
        let mut i: usize = 0;
        while i < self.applied.len()
            invariant
                i <= self.applied@.len(),
                n <= i,
                n == count_writes(self.applied@.take(i as int)),
            decreases self.applied@.len() - i,
        {
            proof {
                assert(self.applied@.take(i + 1).drop_last() =~= self.applied@.take(i as int));
                assert(self.applied@.take(i + 1).last() == self.applied@[i as int]);
            }
            if let MemoryOperation::Upsert { .. } = &self.applied[i] {
                n += 1;
            }
            i += 1;
        }
        assert(self.applied@.take(i as int) =~= self.applied@);
        n
    }
}

} // verus!
