//! The `search` subcommand's decisions: which output format was asked for,
//! and how hits render on the console.

use crate::domain::opt_view;
use crate::text::{
    debug_quoted, debug_text, decimal, decimal_string, lemma_trim_end_keeps, same_text, trim_end,
    trimmed_end,
};
use vstd::prelude::*;

verus! {

/// How search results are printed.
#[derive(Debug, Clone, Copy, PartialEq, Eq, Structural)]
pub enum OutputFormat {
    Console,
    Json,
}

/// An unknown `--format` value.
#[derive(Debug, Clone, PartialEq, Eq)]
pub struct FormatError {
    pub value: String,
}

impl FormatError {
    /// The error's message.
    pub fn message(&self) -> (m: String)
        ensures
            m@ == "invalid --format "@ + debug_text(self.value@) + " (expected console|json)"@,
    {
        let mut m = "invalid --format ".to_owned();
        let quoted = debug_quoted(self.value.as_str());
        m.append(quoted.as_str());
        m.append(" (expected console|json)");
        m
    }
}

impl OutputFormat {
    /// Reads a `--format` value: `console` or `json`.
    pub fn parse(s: &str) -> (r: Result<OutputFormat, FormatError>)
        ensures
            s@ == "console"@ ==> r == Ok::<OutputFormat, FormatError>(OutputFormat::Console),
            s@ == "json"@ ==> r == Ok::<OutputFormat, FormatError>(OutputFormat::Json),
            s@ != "console"@ && s@ != "json"@ ==> (r matches Err(e) && e.value@ == s@),
    {
        proof {
            reveal_strlit("console");
            reveal_strlit("json");
            assert("console"@.len() != "json"@.len());
        }
        if same_text(s, "console") {
            Ok(OutputFormat::Console)
        } else if same_text(s, "json") {
            Ok(OutputFormat::Json)
        } else {
            Err(FormatError { value: s.to_owned() })
        }
    }
}

impl std::str::FromStr for OutputFormat {
    type Err = FormatError;

    fn from_str(s: &str) -> (r: Result<OutputFormat, FormatError>)
        ensures
            s@ == "console"@ ==> r == Ok::<OutputFormat, FormatError>(OutputFormat::Console),
            s@ == "json"@ ==> r == Ok::<OutputFormat, FormatError>(OutputFormat::Json),
            s@ != "console"@ && s@ != "json"@ ==> (r matches Err(e) && e.value@ == s@),
    {
        OutputFormat::parse(s)
    }
}

/// One search hit as the console shows it. The score arrives already
/// formatted with two decimals.
#[derive(Debug, Clone, PartialEq, Eq)]
pub struct HitRow {
    pub document: String,
    pub tag: Option<String>,
    pub section_header: Option<String>,
    pub line: usize,
    pub score: String,
    pub snippet: String,
}

/// The mathematical value of a [`HitRow`].
pub struct HitRowSpec {
    pub document: Seq<char>,
    pub tag: Option<Seq<char>>,
    pub section_header: Option<Seq<char>>,
    pub line: nat,
    pub score: Seq<char>,
    pub snippet: Seq<char>,
}

impl View for HitRow {
    type V = HitRowSpec;

    open spec fn view(&self) -> HitRowSpec {
        HitRowSpec {
            document: self.document@,
            tag: opt_view(self.tag),
            section_header: opt_view(self.section_header),
            line: self.line as nat,
            score: self.score@,
            snippet: self.snippet@,
        }
    }
}

/// The text of `o`, or `fallback` when there is none.
pub open spec fn or_text(o: Option<Seq<char>>, fallback: Seq<char>) -> Seq<char> {
    match o {
        Some(t) => t,
        None => fallback,
    }
}

/// The first line of a hit's block: rank, tag and score.
pub open spec fn head_line(rank: nat, h: HitRowSpec) -> Seq<char> {
    decimal(rank) + ". "@ + or_text(h.tag, "<no tag>"@) + "  (score "@ + h.score + ")\n"@
}

/// The second line of a hit's block: where it is.
pub open spec fn where_line(h: HitRowSpec) -> Seq<char> {
    "   "@ + h.document + ":"@ + decimal(h.line) + "  \u{2014} "@ + or_text(
        h.section_header,
        "<no header>"@,
    ) + "\n"@
}

/// The snippet line of a hit's block, absent for an empty snippet.
pub open spec fn snippet_line(h: HitRowSpec) -> Seq<char> {
    if h.snippet.len() > 0 {
        "   "@ + h.snippet + "\n"@
    } else {
        seq![]
    }
}

/// The console block of the hit ranked `rank` (1-indexed), blank line included.
pub open spec fn hit_block(rank: nat, h: HitRowSpec) -> Seq<char> {
    head_line(rank, h) + where_line(h) + snippet_line(h) + "\n"@
}

/// The blocks of all hits, ranked in order.
pub open spec fn hit_blocks(hits: Seq<HitRowSpec>) -> Seq<char>
    decreases hits.len(),
{
    if hits.len() == 0 {
        seq![]
    } else {
        hit_blocks(hits.drop_last()) + hit_block(hits.len(), hits.last())
    }
}

/// The console output for a query and its hits.
pub open spec fn console_text(query: Seq<char>, hits: Seq<HitRowSpec>) -> Seq<char> {
    if hits.len() == 0 {
        "no hits for "@ + debug_text(query)
    } else {
        trim_end(hit_blocks(hits))
    }
}

/// Views of a sequence of hit rows.
pub open spec fn row_views(hits: Seq<HitRow>) -> Seq<HitRowSpec> {
    hits.map_values(|h: HitRow| h@)
}

fn append_opt(out: &mut String, o: &Option<String>, fallback: &str)
    ensures
        final(out)@ == old(out)@ + or_text(opt_view(*o), fallback@),
{
    match o {
        Some(t) => out.append(t.as_str()),
        None => out.append(fallback),
    }
}

fn append_head(out: &mut String, rank: usize, h: &HitRow)
    ensures
        final(out)@ == old(out)@ + head_line(rank as nat, h@),
{
    let ghost start = out@;
    let num = decimal_string(rank);
    out.append(num.as_str());
    out.append(". ");
    append_opt(out, &h.tag, "<no tag>");
    out.append("  (score ");
    out.append(h.score.as_str());
    out.append(")\n");
    assert(out@ =~= start + head_line(rank as nat, h@));
}

fn append_where(out: &mut String, h: &HitRow)
    ensures
        final(out)@ == old(out)@ + where_line(h@),
{
    let ghost start = out@;
    out.append("   ");
    out.append(h.document.as_str());
    out.append(":");
    let num = decimal_string(h.line);
    out.append(num.as_str());
    out.append("  \u{2014} ");
    append_opt(out, &h.section_header, "<no header>");
    out.append("\n");
    assert(out@ =~= start + where_line(h@));
}

fn append_block(out: &mut String, rank: usize, h: &HitRow)
    ensures
        final(out)@ == old(out)@ + hit_block(rank as nat, h@),
{
    let ghost start = out@;
    append_head(out, rank, h);
    append_where(out, h);
    let ghost mid = out@;
    if !h.snippet.as_str().is_empty() {
        out.append("   ");
        out.append(h.snippet.as_str());
        out.append("\n");
    }
    assert(out@ =~= mid + snippet_line(h@));
    out.append("\n");
    assert(out@ =~= start + hit_block(rank as nat, h@));
}

/// Human-readable console output: one block per hit, ranked from 1, with the
/// trailing blank lines trimmed; or a line naming the query when nothing hit.
pub fn render_console(query: &str, hits: &Vec<HitRow>) -> (out: String)
    ensures
        out@ == console_text(query@, row_views(hits@)),
{
    if hits.len() == 0 {
        let mut out = "no hits for ".to_owned();
        out.append(debug_quoted(query).as_str());
        return out;
    }
    let ghost rows = row_views(hits@);
    let mut text = String::new();
    let mut i: usize = 0;
    while i < hits.len()
        invariant
            rows == row_views(hits@),
            i <= hits@.len(),
            text@ == hit_blocks(rows.take(i as int)),
        decreases hits@.len() - i,
    {
        append_block(&mut text, i + 1, &hits[i]);
        proof {
            let t = rows.take(i + 1);
            assert(t.drop_last() == rows.take(i as int));
            assert(t.last() == hits@[i as int]@);
        }
        i = i + 1;
    }
    proof {
        assert(rows.take(hits@.len() as int) == rows);
    }
    trimmed_end(text.as_str())
}

/// Law: blocks come in rank order — appending a hit to the list appends its
/// block, ranked one past the others, at the end of the text.
pub proof fn law_blocks_in_rank_order(hits: Seq<HitRowSpec>, h: HitRowSpec)
    ensures
        hit_blocks(hits.push(h)) == hit_blocks(hits) + hit_block(hits.len() + 1, h),
{
    assert(hits.push(h).drop_last() == hits);
    assert(hits.push(h).last() == h);
}

proof fn lemma_blocks_start(hits: Seq<HitRowSpec>)
    requires
        hits.len() > 0,
    ensures
        hit_blocks(hits).len() >= hit_block(1, hits[0]).len(),
        hit_blocks(hits).take(hit_block(1, hits[0]).len() as int) == hit_block(1, hits[0]),
    decreases hits.len(),
{
    let b = hit_block(1, hits[0]);
    if hits.len() == 1 {
        assert(hits.drop_last() == Seq::<HitRowSpec>::empty());
        assert(hits.last() == hits[0]);
        assert(hit_blocks(hits.drop_last()) == Seq::<char>::empty());
        assert(hit_blocks(hits) =~= b);
    } else {
        let t = hits.drop_last();
        assert(t[0] == hits[0]);
        lemma_blocks_start(t);
        let x = hit_blocks(t);
        let y = hit_block(hits.len() as nat, hits.last());
        assert(hit_blocks(hits) == x + y);
        assert((x + y).take(b.len() as int) == x.take(b.len() as int));
    }
}

/// Law: the console output of a non-empty hit list begins with the block of
/// the first hit, ranked 1: `1. `, its tag (or `<no tag>`), its score, and
/// then the line that names its document.
pub proof fn law_console_starts_with_first_hit(query: Seq<char>, hits: Seq<HitRowSpec>)
    requires
        hits.len() > 0,
    ensures
        ({
            let h = hits[0];
            let start = "1. "@ + or_text(h.tag, "<no tag>"@) + "  (score "@ + h.score + ")\n"@
                + "   "@ + h.document + ":"@;
            &&& console_text(query, hits).len() >= start.len()
            &&& console_text(query, hits).take(start.len() as int) == start
        }),
{
    let h = hits[0];
    reveal_strlit("1. ");
    reveal_strlit(". ");
    reveal_strlit(":");
    assert(decimal(1) == seq![(48 + 1) as char]);
    assert(decimal(1) + ". "@ =~= "1. "@);
    let start = "1. "@ + or_text(h.tag, "<no tag>"@) + "  (score "@ + h.score + ")\n"@ + "   "@
        + h.document + ":"@;
    let b = hit_block(1, h);
    let w = where_line(h);
    assert(head_line(1, h) =~= "1. "@ + or_text(h.tag, "<no tag>"@) + "  (score "@ + h.score
        + ")\n"@);
    let rest = decimal(h.line) + "  \u{2014} "@ + or_text(h.section_header, "<no header>"@)
        + "\n"@;
    assert(w =~= ("   "@ + h.document + ":"@) + rest);
    assert(b =~= start + (rest + snippet_line(h) + "\n"@));
    assert(b.take(start.len() as int) =~= start);
    lemma_blocks_start(hits);
    let all = hit_blocks(hits);
    assert(all.take(start.len() as int) =~= b.take(b.len() as int).take(start.len() as int));
    assert(start[start.len() - 1] == ':');
    assert(all[start.len() - 1] == start[start.len() - 1]);
    lemma_trim_end_keeps(all, start.len() as int);
    assert(console_text(query, hits) == trim_end(all));
}

} // verus!
