//! The slash commands of an editor: which of them there are, how the tool is
//! called, and how results are laid out with the section of each.

use vstd::prelude::*;
use vstd::string::*;
use crate::text::{
    chars_of, decimal, decimal_text, join, join_texts, same_text, texts, trim, trim_text,
};

verus! {

/// A slash command.
#[derive(Debug, Clone, Copy, PartialEq, Eq, Structural)]
pub enum SlashCommandKind {
    Search,
    Impact,
    Context,
}

/// The command of a name.
pub open spec fn command_named(name: Seq<char>) -> Option<SlashCommandKind> {
    if name == "codesearch"@ {
        Some(SlashCommandKind::Search)
    } else if name == "codesearch-impact"@ {
        Some(SlashCommandKind::Impact)
    } else if name == "codesearch-context"@ {
        Some(SlashCommandKind::Context)
    } else {
        None
    }
}

/// What is said of a command without an argument.
pub open spec fn usage_text(kind: SlashCommandKind) -> Seq<char> {
    match kind {
        SlashCommandKind::Search => "Usage: /codesearch <natural language query>\nExample: /codesearch error handling for network timeouts"@,
        SlashCommandKind::Impact => "Usage: /codesearch-impact <symbol>\nExample: /codesearch-impact authenticate"@,
        SlashCommandKind::Context => "Usage: /codesearch-context <symbol>\nExample: /codesearch-context validate_email"@,
    }
}

fn usage(kind: SlashCommandKind) -> (r: String)
    ensures
        r@ == usage_text(kind),
{
    match kind {
        SlashCommandKind::Search => "Usage: /codesearch <natural language query>\nExample: /codesearch error handling for network timeouts".to_string(),
        SlashCommandKind::Impact => "Usage: /codesearch-impact <symbol>\nExample: /codesearch-impact authenticate".to_string(),
        SlashCommandKind::Context => "Usage: /codesearch-context <symbol>\nExample: /codesearch-context validate_email".to_string(),
    }
}

/// The command and its argument. An error for a command that does not exist,
/// and for one without an argument.
pub fn parse_command(name: &str, args: &[String]) -> (r: Result<
    (SlashCommandKind, String),
    String,
>)
    ensures
        ({
            let arg = trim(join(texts(args@), " "@));
            match command_named(name@) {
                None => r is Err && r->Err_0@ == "unknown codesearch slash command: "@ + name@,
                Some(k) => if arg.len() == 0 {
                    r is Err && r->Err_0@ == usage_text(k)
                } else {
                    r is Ok && r->Ok_0.0 == k && r->Ok_0.1@ == arg
                },
            }
        }),
{
    let arg = trim_text(join_texts(args, " ").as_str());
    let kind = if same_text(name, "codesearch") {
        SlashCommandKind::Search
    } else if same_text(name, "codesearch-impact") {
        SlashCommandKind::Impact
    } else if same_text(name, "codesearch-context") {
        SlashCommandKind::Context
    } else {
        let mut m = "unknown codesearch slash command: ".to_string();
        m.append(name);
        return Err(m);
    };
    if arg.as_str().is_empty() {
        Err(usage(kind))
    } else {
        Ok((kind, arg))
    }
}

/// The arguments that the tool is called with.
pub open spec fn tool_words(kind: SlashCommandKind, arg: Seq<char>) -> Seq<Seq<char>> {
    match kind {
        SlashCommandKind::Search => seq![
            "search"@,
            arg,
            "--format"@,
            "json"@,
            "--num"@,
            "10"@,
        ],
        SlashCommandKind::Impact => seq!["impact"@, arg, "--format"@, "text"@],
        SlashCommandKind::Context => seq!["context"@, arg, "--format"@, "text"@],
    }
}

/// The arguments that the tool is called with.
pub fn tool_arguments(kind: SlashCommandKind, arg: &str) -> (r: Vec<String>)
    ensures
        texts(r@) == tool_words(kind, arg@),
{
    let mut r: Vec<String> = Vec::new();
    match kind {
        SlashCommandKind::Search => {
            r.push("search".to_string());
            r.push(arg.to_string());
            r.push("--format".to_string());
            r.push("json".to_string());
            r.push("--num".to_string());
            r.push("10".to_string());
        },
        SlashCommandKind::Impact => {
            r.push("impact".to_string());
            r.push(arg.to_string());
            r.push("--format".to_string());
            r.push("text".to_string());
        },
        SlashCommandKind::Context => {
            r.push("context".to_string());
            r.push(arg.to_string());
            r.push("--format".to_string());
            r.push("text".to_string());
        },
    }
    assert(texts(r@) =~= tool_words(kind, arg@));
    r
}

/// A result of the tool, with its score written out.
#[derive(Debug)]
pub struct Hit {
    pub file_path: String,
    pub start_line: u32,
    pub score: String,
    pub language: String,
    pub node_type: String,
    pub symbol_name: Option<String>,
    pub content: String,
}

/// A section of the output: a range of bytes with a label.
#[derive(Debug)]
pub struct Section {
    pub start: usize,
    pub end: usize,
    pub label: String,
}

/// Text with its sections.
#[derive(Debug)]
pub struct SlashOutput {
    pub text: String,
    pub sections: Vec<Section>,
}

/// How many bytes a character takes in UTF-8.
pub open spec fn byte_width(c: char) -> nat {
    let n = c as u32;
    if n < 0x80 {
        1
    } else if n < 0x800 {
        2
    } else if n < 0x10000 {
        3
    } else {
        4
    }
}

/// How many bytes a text takes in UTF-8.
pub open spec fn byte_len(s: Seq<char>) -> nat
    decreases s.len(),
{
    if s.len() == 0 {
        0
    } else {
        byte_len(s.drop_last()) + byte_width(s.last())
    }
}

proof fn lemma_byte_len_join(a: Seq<char>, b: Seq<char>)
    ensures
        byte_len(a + b) == byte_len(a) + byte_len(b),
    decreases b.len(),
{
    if b.len() == 0 {
        assert(a + b =~= a);
    } else {
        lemma_byte_len_join(a, b.drop_last());
        assert((a + b).drop_last() =~= a + b.drop_last());
    }
}

proof fn lemma_byte_len_prefix(s: Seq<char>, n: int)
    requires
        0 <= n <= s.len(),
    ensures
        byte_len(s.take(n)) <= byte_len(s),
    decreases s.len(),
{
    if n < s.len() {
        lemma_byte_len_prefix(s.drop_last(), n);
        assert(s.drop_last().take(n) =~= s.take(n));
    } else {
        assert(s.take(n) =~= s);
    }
}

fn width_of(c: char) -> (r: usize)
    ensures
        r == byte_width(c),
{
    let n: u32 = c as u32;
    if n < 0x80 {
        1
    } else if n < 0x800 {
        2
    } else if n < 0x10000 {
        3
    } else {
        4
    }
}

fn count_bytes(s: &str) -> (r: usize)
    requires
        byte_len(s@) <= usize::MAX,
    ensures
        r == byte_len(s@),
{
    let cs = chars_of(s);
    let mut n: usize = 0;
    let mut i: usize = 0;
    while i < cs.len()
        invariant
            i <= cs@.len(),
            byte_len(cs@) <= usize::MAX,
            n == byte_len(cs@.take(i as int)),
        decreases cs@.len() - i,
    {
        proof {
            assert(cs@.take(i + 1).drop_last() =~= cs@.take(i as int));
            assert(cs@.take(i + 1).last() == cs@[i as int]);
            lemma_byte_len_prefix(cs@, i + 1);
        }
        n = n + width_of(cs[i]);
        i += 1;
    }
    assert(cs@.take(i as int) =~= cs@);
    n
}

/// What a result is shown under: its symbol, else its kind.
pub open spec fn hit_name(h: Hit) -> Seq<char> {
    match h.symbol_name {
        Some(s) => s@,
        None => h.node_type@,
    }
}

/// The file and line of a result.
pub open spec fn hit_place(h: Hit) -> Seq<char> {
    h.file_path@ + ":"@ + decimal(h.start_line as nat)
}

/// The part of the output for the result at place `i`.
pub open spec fn hit_text(h: Hit, i: int) -> Seq<char> {
    "### "@ + decimal((i + 1) as nat) + ". `"@ + hit_name(h) + "` — "@ + hit_place(h)
        + " (score: "@ + h.score@ + ")\n"@ + "```"@ + h.language@ + "\n"@ + h.content@
        + "\n```\n\n"@
}

/// The output for results, one after the other.
pub open spec fn hits_text(hits: Seq<Hit>) -> Seq<char>
    decreases hits.len(),
{
    if hits.len() == 0 {
        Seq::empty()
    } else {
        hits_text(hits.drop_last()) + hit_text(hits.last(), hits.len() - 1)
    }
}

/// The text for results: a message where there are none.
pub open spec fn search_text(query: Seq<char>, hits: Seq<Hit>) -> Seq<char> {
    if hits.len() == 0 {
        "No results found for `"@ + query + "`."@
    } else {
        hits_text(hits)
    }
}

/// The sections cover the results one after the other, each labelled with its
/// place.
pub open spec fn covers_hits(sections: Seq<Section>, hits: Seq<Hit>) -> bool {
    &&& sections.len() == hits.len()
    &&& forall|i: int|
        0 <= i < hits.len() ==> (#[trigger] sections[i]).start == byte_len(hits_text(hits.take(i)))
            && sections[i].end == byte_len(hits_text(hits.take(i + 1))) && sections[i].label@
            == hit_place(hits[i])
}

fn place_text_of(h: &Hit) -> (r: String)
    ensures
        r@ == hit_place(*h),
{
    let mut r = h.file_path.clone();
    r.append(":");
    r.append(decimal_text(h.start_line as u64).as_str());
    r
}

fn show_hit(h: &Hit, i: usize) -> (r: String)
    requires
        i < usize::MAX,
    ensures
        r@ == hit_text(*h, i as int),
{
    let mut r = "### ".to_string();
    r.append(decimal_text((i + 1) as u64).as_str());
    r.append(". `");
    match &h.symbol_name {
        Some(s) => r.append(s.as_str()),
        None => r.append(h.node_type.as_str()),
    }
    r.append("` — ");
    r.append(place_text_of(h).as_str());
    r.append(" (score: ");
    r.append(h.score.as_str());
    r.append(")\n");
    r.append("```");
    r.append(h.language.as_str());
    r.append("\n");
    r.append(h.content.as_str());
    r.append("\n```\n\n");
    r
}

proof fn lemma_hits_prefix(hits: Seq<Hit>, n: int)
    requires
        0 <= n <= hits.len(),
    ensures
        byte_len(hits_text(hits.take(n))) <= byte_len(hits_text(hits)),
    decreases hits.len(),
{
    if n < hits.len() {
        lemma_hits_prefix(hits.drop_last(), n);
        assert(hits.drop_last().take(n) =~= hits.take(n));
        lemma_byte_len_join(
            hits_text(hits.drop_last()),
            hit_text(hits.last(), hits.len() - 1),
        );
    } else {
        assert(hits.take(n) =~= hits);
    }
}

/// Lays out the results of a search.
pub fn render_hits(query: &str, hits: &[Hit]) -> (r: SlashOutput)
    requires
        byte_len(hits_text(hits@)) <= usize::MAX,
    ensures
        r.text@ == search_text(query@, hits@),
        covers_hits(r.sections@, hits@),
{
    let n: usize = hits.len();
    if n == 0 {
        let mut text = "No results found for `".to_string();
        text.append(query);
        text.append("`.");
        return SlashOutput { text, sections: Vec::new() };
    }
    let mut text = String::new();
    let mut sections: Vec<Section> = Vec::new();
    let mut end: usize = 0;
    let mut i: usize = 0;
    assert(text@ =~= hits_text(hits@.take(0)));
    while i < n
        invariant
            i <= n,
            n == hits@.len(),
            byte_len(hits_text(hits@)) <= usize::MAX,
            text@ == hits_text(hits@.take(i as int)),
            end == byte_len(text@),
            sections@.len() == i,
            forall|k: int|
                0 <= k < i ==> (#[trigger] sections@[k]).start == byte_len(
                    hits_text(hits@.take(k)),
                ) && sections@[k].end == byte_len(hits_text(hits@.take(k + 1)))
                    && sections@[k].label@ == hit_place(hits@[k]),
        decreases n - i,
    {
        let part = show_hit(&hits[i], i);
        proof {
            assert(hits@.take(i + 1).drop_last() =~= hits@.take(i as int));
            assert(hits@.take(i + 1).last() == hits@[i as int]);
            lemma_byte_len_join(text@, part@);
            lemma_hits_prefix(hits@, i + 1);
        }
        let start: usize = end;
        end = end + count_bytes(part.as_str());
        text.append(part.as_str());
        sections.push(Section { start, end, label: place_text_of(&hits[i]) });
        i += 1;
    }
    assert(hits@.take(i as int) =~= hits@);
    SlashOutput { text, sections }
}

/// The sections of a search stand one behind the other and cover its text.
pub proof fn lemma_sections_tile(sections: Seq<Section>, hits: Seq<Hit>)
    requires
        hits.len() > 0,
        covers_hits(sections, hits),
    ensures
        sections[0].start == 0,
        sections.last().end == byte_len(hits_text(hits)),
        forall|i: int, j: int|
            0 <= i && j == i + 1 && j < sections.len() ==> (#[trigger] sections[i]).end == (
            #[trigger] sections[j]).start,
{
    assert(hits.take(0) =~= Seq::<Hit>::empty());
    assert(hits.take(hits.len() as int) =~= hits);
    assert(sections[0].start == byte_len(hits_text(hits.take(0))));
    assert(sections[hits.len() - 1].end == byte_len(hits_text(hits.take(hits.len() as int))));
}

/// What the one section of an impact or context report is labelled with.
pub open spec fn report_label(kind: SlashCommandKind, symbol: Seq<char>) -> Seq<char> {
    if kind == SlashCommandKind::Impact {
        "Impact: "@ + symbol
    } else {
        "Context: "@ + symbol
    }
}

/// Lays out an impact or context report that the tool printed as text: one
/// section covers all of it.
pub fn render_report(kind: SlashCommandKind, symbol: &str, text: String) -> (r: SlashOutput)
    requires
        kind != SlashCommandKind::Search,
        byte_len(text@) <= usize::MAX,
    ensures
        r.text == text,
        r.sections@.len() == 1,
        r.sections@[0].start == 0,
        r.sections@[0].end == byte_len(text@),
        r.sections@[0].label@ == report_label(kind, symbol@),
{
    let end: usize = count_bytes(text.as_str());
    let mut label = if kind == SlashCommandKind::Impact {
        "Impact: ".to_string()
    } else {
        "Context: ".to_string()
    };
    label.append(symbol);
    let mut sections: Vec<Section> = Vec::new();
    sections.push(Section { start: 0, end, label });
    SlashOutput { text, sections }
}

} // verus!
