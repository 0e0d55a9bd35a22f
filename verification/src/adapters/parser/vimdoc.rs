//! Vimdoc parser.
//!
//! - **Section rules** — a line of 40 or more `=` and nothing else separates
//!   top-level sections. The line right after a rule is the section header;
//!   the lines up to the next rule (or the end) are the section body.
//! - **Tags** — `*name*` markers where `name` has no whitespace and no `*`.
//!   Every tag surfaces both in its enclosing [`Section`] and in the
//!   [`Document`]'s top-level tag list (deduplicated, first occurrence first).
//!
//! Subsection rules (40+ `-`) are not section breaks: they stay in the body.

use crate::domain::{Document, DocumentSpec, Section, SectionSpec, opt_view, section_views};
use crate::text::{
    chars_of, lemma_trim_empty_iff_all_ws, is_all_whitespace, is_ws, join_lines, join_range, lines, split_lines, string_of,
    strs, trim, trimmed, views, law_trim_idempotent, line_scan, strip_cr,
};
use vstd::prelude::*;

verus! {

/// The regular expression that finds `*name*` tag markers; group 1 is the name.
pub const TAG_PATTERN: &'static str = "\\*([^\\s*]+)\\*";

/// A character that may stand inside a tag name: neither whitespace nor `*`.
pub open spec fn is_tag_char(c: char) -> bool {
    !is_ws(c) && c != '*'
}

/// The end (exclusive) of the run of tag-name characters that starts at `i`.
pub open spec fn tag_run_end(s: Seq<char>, i: int) -> int
    decreases s.len() - i,
{
    if 0 <= i < s.len() && is_tag_char(s[i]) {
        tag_run_end(s, i + 1)
    } else {
        i
    }
}

/// Whether a tag marker `*name*` starts at `i`: a `*`, one or more tag-name
/// characters, and a closing `*` at `tag_run_end(s, i + 1)`.
pub open spec fn tag_at(s: Seq<char>, i: int) -> bool {
    &&& 0 <= i < s.len()
    &&& s[i] == '*'
    &&& i + 1 < tag_run_end(s, i + 1) < s.len()
    &&& s[tag_run_end(s, i + 1)] == '*'
}

/// The names of the tag markers found scanning `s` from `i`, leftmost first,
/// without overlap: what `captures_iter` of [`TAG_PATTERN`] yields as group 1.
pub open spec fn tags_from(s: Seq<char>, i: int) -> Seq<Seq<char>>
    decreases s.len() - i,
{
    if i < 0 || i >= s.len() {
        seq![]
    } else if tag_at(s, i) {
        seq![s.subrange(i + 1, tag_run_end(s, i + 1))] + tags_from(s, tag_run_end(s, i + 1) + 1)
    } else {
        tags_from(s, i + 1)
    }
}

/// The tag names of `s`, in order, repeats included.
pub open spec fn tag_matches(s: Seq<char>) -> Seq<Seq<char>> {
    tags_from(s, 0)
}

/// `s` from `i` on, with every tag marker removed: what `replace_all` of
/// [`TAG_PATTERN`] with an empty replacement gives.
pub open spec fn strip_from(s: Seq<char>, i: int) -> Seq<char>
    decreases s.len() - i,
{
    if i < 0 || i >= s.len() {
        seq![]
    } else if tag_at(s, i) {
        strip_from(s, tag_run_end(s, i + 1) + 1)
    } else {
        seq![s[i]] + strip_from(s, i + 1)
    }
}

/// `s` with every tag marker removed.
pub open spec fn strip_tag_markers(s: Seq<char>) -> Seq<char> {
    strip_from(s, 0)
}

#[verifier::external_type_specification]
#[verifier::external_body]
pub struct ExRegex(regex::Regex);

/// Compiles a regular expression with `regex::Regex::new`; the pattern is
/// [`TAG_PATTERN`], which compiles, so the call does not fail. Nothing is
/// claimed of the result here: [`TagMatcher`] records which pattern it was
/// compiled from.
#[verifier::external_body]
fn compile_regex(pattern: &str) -> (re: regex::Regex)
    requires
        pattern@ == TAG_PATTERN@,
{
    regex::Regex::new(pattern).unwrap()
}

/// The compiled tag regular expression, with the pattern it was compiled
/// from.
pub struct TagMatcher {
    re: regex::Regex,
    pattern: Ghost<Seq<char>>,
}

impl TagMatcher {
    /// The pattern the matcher was compiled from.
    pub closed spec fn pattern(&self) -> Seq<char> {
        self.pattern@
    }

    /// Compiles [`TAG_PATTERN`] once, for a whole file.
    pub fn new() -> (m: TagMatcher)
        ensures
            m.pattern() == TAG_PATTERN@,
    {
        TagMatcher { re: compile_regex(TAG_PATTERN), pattern: Ghost(TAG_PATTERN@) }
    }
}

/// Finds the tag names in `haystack` with `regex::Regex::captures_iter`:
/// the contract claims the regex crate yields, for a regex compiled from
/// [`TAG_PATTERN`], group 1 of each leftmost, non-overlapping match.
#[verifier::external_body]
fn capture_tags(m: &TagMatcher, haystack: &str) -> (tags: Vec<String>)
    requires
        m.pattern() == TAG_PATTERN@,
    ensures
        strs(tags@) == tag_matches(haystack@),
{
    m.re.captures_iter(haystack).map(|cap| cap[1].to_string()).collect()
}

/// Removes the tag markers from `haystack` with `regex::Regex::replace_all`
/// and an empty replacement: the contract claims every leftmost,
/// non-overlapping match of a regex compiled from [`TAG_PATTERN`] is cut out
/// and the rest kept.
#[verifier::external_body]
fn remove_tag_markers(m: &TagMatcher, haystack: &str, replacement: &str) -> (r: String)
    requires
        m.pattern() == TAG_PATTERN@,
        replacement@ == Seq::<char>::empty(),
    ensures
        r@ == strip_tag_markers(haystack@),
{
    m.re.replace_all(haystack, replacement).into_owned()
}

/// `s` without repeats, each kept at its first occurrence.
pub open spec fn dedup(s: Seq<Seq<char>>) -> Seq<Seq<char>>
    decreases s.len(),
{
    if s.len() == 0 {
        seq![]
    } else {
        let d = dedup(s.drop_last());
        if d.contains(s.last()) {
            d
        } else {
            d.push(s.last())
        }
    }
}

fn contains_string(v: &Vec<String>, x: &String) -> (b: bool)
    ensures
        b == strs(v@).contains(x@),
{
    let mut i: usize = 0;
    while i < v.len()
        invariant
            i <= v@.len(),
            forall|j: int| 0 <= j < i ==> strs(v@)[j] != x@,
        decreases v@.len() - i,
    {
        if v[i] == *x {
            assert(strs(v@)[i as int] == x@);
            return true;
        }
        i = i + 1;
    }
    false
}

/// Keeps the first occurrence of each string, in order.
fn dedup_strings(items: &Vec<String>) -> (r: Vec<String>)
    ensures
        strs(r@) == dedup(strs(items@)),
{
    let mut out: Vec<String> = Vec::new();
    let mut i: usize = 0;
    let ghost all = strs(items@);
    while i < items.len()
        invariant
            all == strs(items@),
            i <= items@.len(),
            strs(out@) == dedup(all.take(i as int)),
        decreases items@.len() - i,
    {
        let x = items[i].clone();
        proof {
            assert(all.take(i + 1).drop_last() == all.take(i as int));
            assert(all.take(i + 1).last() == all[i as int]);
        }
        if !contains_string(&out, &x) {
            proof {
                assert(strs(out@.push(x)) == strs(out@).push(x@));
            }
            out.push(x);
        }
        i = i + 1;
    }
    proof {
        assert(all.take(items@.len() as int) == all);
    }
    out
}

/// A section rule: 40 or more `=` and nothing else.
pub open spec fn is_rule(l: Seq<char>) -> bool {
    l.len() >= 40 && forall|i: int| 0 <= i < l.len() ==> l[i] == '='
}

fn is_rule_chars(l: &Vec<char>) -> (b: bool)
    ensures
        b == is_rule(l@),
{
    if l.len() < 40 {
        return false;
    }
    let mut i: usize = 0;
    while i < l.len()
        invariant
            i <= l@.len(),
            forall|j: int| 0 <= j < i ==> l@[j] == '=',
        decreases l@.len() - i,
    {
        if l[i] != '=' {
            return false;
        }
        i = i + 1;
    }
    true
}

/// A section rule is a line of 40+ `=` characters and nothing else.
pub fn is_section_rule(line: &str) -> (b: bool)
    ensures
        b == is_rule(line@),
{
    let v = chars_of(line);
    is_rule_chars(&v)
}

/// The displayed header of a header line: its tag markers removed, then trimmed.
pub open spec fn header_of(line: Seq<char>) -> Seq<char> {
    trim(strip_tag_markers(line))
}

/// Strips `*tag*` markers and surrounding whitespace from a header line so the
/// stored header is just the human-readable text.
pub fn header_text(line: &str) -> (h: String)
    ensures
        h@ == header_of(line@),
{
    let m = TagMatcher::new();
    header_text_with(&m, line)
}

fn header_text_with(m: &TagMatcher, line: &str) -> (h: String)
    requires
        m.pattern() == TAG_PATTERN@,
    ensures
        h@ == header_of(line@),
{
    let nothing = "";
    proof {
        reveal_strlit("");
        assert(nothing@ =~= Seq::<char>::empty());
    }
    let stripped = remove_tag_markers(m, line, nothing);
    trimmed(stripped.as_str())
}

/// The tag names of an optional header line.
pub open spec fn header_tags(header: Option<Seq<char>>) -> Seq<Seq<char>> {
    match header {
        Some(h) => tag_matches(h),
        None => seq![],
    }
}

/// The tags of a section: those of its header line, then those of its body,
/// deduplicated in first-occurrence order.
pub open spec fn section_tags(body: Seq<char>, header: Option<Seq<char>>) -> Seq<Seq<char>> {
    dedup(header_tags(header) + tag_matches(body))
}

/// Extracts all `*tag*` names from a header line (if any) and a body,
/// deduplicated in first-occurrence order.
pub fn extract_tags(body: &str, header: Option<&str>) -> (tags: Vec<String>)
    ensures
        strs(tags@) == section_tags(
            body@,
            match header {
                Some(h) => Some(h@),
                None => None,
            },
        ),
{
    let m = TagMatcher::new();
    extract_tags_with(&m, body, header)
}

fn extract_tags_with(m: &TagMatcher, body: &str, header: Option<&str>) -> (tags: Vec<String>)
    requires
        m.pattern() == TAG_PATTERN@,
    ensures
        strs(tags@) == section_tags(
            body@,
            match header {
                Some(h) => Some(h@),
                None => None,
            },
        ),
{
    let mut all: Vec<String> = match header {
        Some(h) => capture_tags(m, h),
        None => Vec::new(),
    };
    let ghost head = strs(all@);
    let mut from_body = capture_tags(m, body);
    all.append(&mut from_body);
    proof {
        assert(strs(all@) == head + tag_matches(body@));
    }
    dedup_strings(&all)
}

/// A stretch of the file before it is shaped into a [`Section`]: its
/// 1-indexed first line, its raw header line (if it follows a rule), and its
/// body lines.
pub type Chunk = (int, Option<Seq<char>>, Seq<Seq<char>>);

/// The index of the first rule line at or after `i`, or `ls.len()` when none.
pub open spec fn next_rule(ls: Seq<Seq<char>>, i: int) -> int
    decreases ls.len() - i,
{
    if 0 <= i < ls.len() {
        if is_rule(ls[i]) {
            i
        } else {
            next_rule(ls, i + 1)
        }
    } else {
        ls.len() as int
    }
}

pub proof fn lemma_next_rule(ls: Seq<Seq<char>>, i: int)
    requires
        0 <= i <= ls.len(),
    ensures
        i <= next_rule(ls, i) <= ls.len(),
        next_rule(ls, i) < ls.len() ==> is_rule(ls[next_rule(ls, i)]),
        forall|j: int| i <= j < next_rule(ls, i) ==> !is_rule(#[trigger] ls[j]),
    decreases ls.len() - i,
{
    if i < ls.len() && !is_rule(ls[i]) {
        lemma_next_rule(ls, i + 1);
    }
}

/// The chunks from a header line at `h` (the line after a rule) to the end.
pub open spec fn chunks_from_header(ls: Seq<Seq<char>>, h: int) -> Seq<Chunk>
    decreases ls.len() - h,
{
    if 0 <= h < ls.len() {
        let e = next_rule(ls, h + 1);
        proof {
            lemma_next_rule(ls, h + 1);
        }
        seq![(h + 1, Some(ls[h]), ls.subrange(h + 1, e))] + if e < ls.len() {
            chunks_from_header(ls, e + 1)
        } else {
            seq![]
        }
    } else {
        seq![]
    }
}

/// The chunks that follow a rule at `e` (none when `e` is past the end).
pub open spec fn chunks_after(ls: Seq<Seq<char>>, e: int) -> Seq<Chunk> {
    if e < ls.len() {
        chunks_from_header(ls, e + 1)
    } else {
        seq![]
    }
}

/// All chunks of a file: the text before the first rule (headerless, from
/// line 1), then one chunk per rule that has a line after it.
pub open spec fn raw_chunks(ls: Seq<Seq<char>>) -> Seq<Chunk> {
    let e = next_rule(ls, 0);
    seq![(1int, None::<Seq<char>>, ls.take(e))] + chunks_after(ls, e)
}

/// A chunk becomes a section unless it has no header and its body trims to
/// nothing.
pub open spec fn keeps(c: Chunk) -> bool {
    c.1 is Some || trim(join_lines(c.2)).len() > 0
}

/// The section a chunk becomes.
pub open spec fn section_of(c: Chunk) -> SectionSpec {
    SectionSpec {
        header: match c.1 {
            Some(h) => Some(header_of(h)),
            None => None,
        },
        tags: section_tags(join_lines(c.2), c.1),
        body: join_lines(c.2),
        line_start: c.0,
    }
}

/// Appends the section of `c`, unless `c` is dropped.
pub open spec fn shape_step(secs: Seq<SectionSpec>, c: Chunk) -> Seq<SectionSpec> {
    if keeps(c) {
        secs.push(section_of(c))
    } else {
        secs
    }
}

/// The sections that the chunks `cs` become, in order.
pub open spec fn shape(cs: Seq<Chunk>) -> Seq<SectionSpec>
    decreases cs.len(),
{
    if cs.len() == 0 {
        seq![]
    } else {
        shape_step(shape(cs.drop_last()), cs.last())
    }
}

/// The sections of a file with the given lines.
pub open spec fn sections_of(ls: Seq<Seq<char>>) -> Seq<SectionSpec> {
    shape(raw_chunks(ls))
}

/// What [`parse_source`] returns for a source text and a path.
pub open spec fn parsed(source: Seq<char>, path: Seq<char>) -> DocumentSpec {
    DocumentSpec {
        path,
        tags: dedup(tag_matches(source)),
        sections: sections_of(lines(source)),
    }
}

/// Shapes the chunk with first line `start`, header line `ls[header]` (if
/// any) and body `ls[from..to]`, and appends it unless it is dropped.
fn flush(
    m: &TagMatcher,
    sections: &mut Vec<Section>,
    start: usize,
    header: Option<usize>,
    ls: &Vec<Vec<char>>,
    from: usize,
    to: usize,
)
    requires
        m.pattern() == TAG_PATTERN@,
        from <= to <= ls@.len(),
        header matches Some(h) ==> h < ls@.len(),
    ensures
        section_views(final(sections)@) == shape_step(
            section_views(old(sections)@),
            (
                start as int,
                match header {
                    Some(h) => Some(ls@[h as int]@),
                    None => None,
                },
                views(ls@).subrange(from as int, to as int),
            ),
        ),
{
    let body_chars = join_range(ls, from, to);
    let ghost c: Chunk = (
        start as int,
        match header {
            Some(h) => Some(ls@[h as int]@),
            None => None,
        },
        views(ls@).subrange(from as int, to as int),
    );
    proof {
        lemma_trim_empty_iff_all_ws(body_chars@);
    }
    if header.is_none() && is_all_whitespace(body_chars.as_slice()) {
        return;
    }
    let body = string_of(body_chars.as_slice());
    let (shown, tags) = match header {
        Some(h) => {
            let raw = string_of(ls[h].as_slice());
            (Some(header_text_with(m, raw.as_str())), extract_tags_with(m, body.as_str(), Some(raw.as_str())))
        },
        None => (None, extract_tags_with(m, body.as_str(), None)),
    };
    let section = Section { header: shown, tags, body, line_start: start };
    proof {
        assert(section@ == section_of(c));
        assert(section_views(sections@.push(section)) == section_views(sections@).push(section@));
    }
    sections.push(section);
}

/// Splits a file's lines into sections at `====` rules.
///
/// A section is the line right after a rule (its header) and every line up
/// to the next rule or the end. Text before the first rule is a section
/// without a header; a chunk with no header and a blank body is dropped.
pub fn split_sections(m: &TagMatcher, ls: &Vec<Vec<char>>) -> (sections: Vec<Section>)
    requires
        m.pattern() == TAG_PATTERN@,
    ensures
        section_views(sections@) == sections_of(views(ls@)),
{
    let ghost all = views(ls@);
    let n = ls.len();
    let mut sections: Vec<Section> = Vec::new();
    let ghost mut done: Seq<Chunk> = seq![];
    let ghost mut ended = false;
    let mut cur_start: usize = 0;
    let mut cur_header: Option<usize> = None;
    let mut body_start: usize = 0;
    let mut i: usize = 0;
    proof {
        lemma_next_rule(all, 0);
    }
    while i < n
        invariant
            m.pattern() == TAG_PATTERN@,
            all == views(ls@),
            n == ls@.len(),
            body_start <= i <= n,
            cur_start < n || cur_start == 0,
            section_views(sections@) == shape(done),
            ended ==> i == n && body_start == n && cur_header is None && raw_chunks(all) == done,
            !ended ==> {
                &&& next_rule(all, body_start as int) == next_rule(all, i as int)
                &&& match cur_header {
                    Some(h) => h == cur_start && body_start == h + 1 && h < n,
                    None => cur_start == 0 && body_start == 0,
                }
                &&& raw_chunks(all) == done + seq![
                    (
                        cur_start + 1,
                        match cur_header {
                            Some(h) => Some(all[h as int]),
                            None => None,
                        },
                        all.subrange(body_start as int, next_rule(all, body_start as int)),
                    ),
                ] + chunks_after(all, next_rule(all, body_start as int))
            },
        decreases n - i,
    {
        if is_rule_chars(&ls[i]) {
            let ghost c: Chunk = (
                cur_start + 1,
                match cur_header {
                    Some(h) => Some(all[h as int]),
                    None => None,
                },
                all.subrange(body_start as int, i as int),
            );
            proof {
                assert(all[i as int] == ls@[i as int]@);
                assert(next_rule(all, i as int) == i);
                match cur_header {
                    Some(h) => assert(all[h as int] == ls@[h as int]@),
                    None => {},
                }
            }
            flush(m, &mut sections, cur_start + 1, cur_header, ls, body_start, i);
            proof {
                assert(done.push(c).drop_last() == done);
                done = done.push(c);
                assert(raw_chunks(all) == done + chunks_after(all, i as int));
            }
            if i + 1 >= n {
                proof {
                    assert(chunks_after(all, i as int) == Seq::<Chunk>::empty());
                    assert(raw_chunks(all) == done);
                    ended = true;
                }
                cur_header = None;
                body_start = n;
                i = n;
            } else {
                let h = i + 1;
                proof {
                    lemma_next_rule(all, h + 1);
                    assert(chunks_after(all, i as int) == chunks_from_header(all, h as int));
                }
                cur_header = Some(h);
                cur_start = h;
                body_start = h + 1;
                i = h + 1;
            }
        } else {
            proof {
                assert(all[i as int] == ls@[i as int]@);
            }
            i = i + 1;
        }
    }
    let ghost c: Chunk = (
        cur_start + 1,
        match cur_header {
            Some(h) => Some(all[h as int]),
            None => None,
        },
        all.subrange(body_start as int, n as int),
    );
    proof {
        match cur_header {
            Some(h) => assert(all[h as int] == ls@[h as int]@),
            None => {},
        }
        if !ended {
            assert(next_rule(all, n as int) == n);
            assert(chunks_after(all, n as int) == Seq::<Chunk>::empty());
            assert(raw_chunks(all) == done.push(c));
            assert(done.push(c).drop_last() == done);
        } else {
            assert(all.subrange(n as int, n as int) == Seq::<Seq<char>>::empty());
            assert(!keeps(c)) by {
                lemma_trim_empty_iff_all_ws(join_lines(c.2));
            }
        }
    }
    flush(m, &mut sections, cur_start + 1, cur_header, ls, body_start, n);
    sections
}

/// Parses a vimdoc source text. Pure — no IO; `path` is stamped into the
/// returned `Document.path`. Total: any input yields a document.
pub fn parse_source(source: &str, path: &str) -> (doc: Document)
    ensures
        doc@ == parsed(source@, path@),
{
    let chars = chars_of(source);
    let ls = split_lines(chars.as_slice());
    let m = TagMatcher::new();
    let found = capture_tags(&m, source);
    let tags = dedup_strings(&found);
    let sections = split_sections(&m, &ls);
    Document { path: path.to_owned(), tags, sections }
}

/// Law: deduplication keeps exactly the items of the input.
pub proof fn law_dedup_same_items(s: Seq<Seq<char>>)
    ensures
        forall|x: Seq<char>| #[trigger] dedup(s).contains(x) <==> s.contains(x),
    decreases s.len(),
{
    if s.len() > 0 {
        let t = s.drop_last();
        law_dedup_same_items(t);
        assert forall|x: Seq<char>| #[trigger] dedup(s).contains(x) <==> s.contains(x) by {
            let d = dedup(t);
            if s.contains(x) {
                let i = choose|i: int| 0 <= i < s.len() && s[i] == x;
                if i < t.len() {
                    assert(t[i] == x);
                    assert(t.contains(x));
                }
            }
            if dedup(s).contains(x) && !d.contains(s.last()) {
                let i = choose|i: int| 0 <= i < d.push(s.last()).len() && d.push(s.last())[i] == x;
                if i < d.len() {
                    assert(d[i] == x);
                }
            }
            if t.contains(x) {
                let i = choose|i: int| 0 <= i < t.len() && t[i] == x;
                assert(s[i] == x);
            }
            if d.contains(x) && !d.contains(s.last()) {
                let i = choose|i: int| 0 <= i < d.len() && d[i] == x;
                assert(d.push(s.last())[i] == x);
            }
            if x == s.last() && !d.contains(s.last()) {
                assert(d.push(s.last())[d.len() as int] == x);
            }
        }
    }
}

/// Law: deduplicated tags hold no repeats.
pub proof fn law_dedup_no_repeats(s: Seq<Seq<char>>)
    ensures
        dedup(s).no_duplicates(),
    decreases s.len(),
{
    if s.len() > 0 {
        law_dedup_no_repeats(s.drop_last());
    }
}

proof fn lemma_tag_run(s: Seq<char>, i: int)
    requires
        0 <= i <= s.len(),
    ensures
        i <= tag_run_end(s, i) <= s.len(),
        forall|k: int| i <= k < tag_run_end(s, i) ==> is_tag_char(#[trigger] s[k]),
    decreases s.len() - i,
{
    if i < s.len() && is_tag_char(s[i]) {
        lemma_tag_run(s, i + 1);
    }
}

/// A tag name: non-empty, of tag-name characters only.
pub open spec fn is_tag_name(t: Seq<char>) -> bool {
    t.len() > 0 && forall|k: int| 0 <= k < t.len() ==> is_tag_char(#[trigger] t[k])
}

proof fn lemma_tags_from_names(s: Seq<char>, i: int)
    requires
        0 <= i,
    ensures
        forall|k: int| 0 <= k < tags_from(s, i).len() ==> is_tag_name(#[trigger] tags_from(s, i)[k]),
    decreases s.len() - i,
{
    if i < s.len() {
        if tag_at(s, i) {
            let e = tag_run_end(s, i + 1);
            lemma_tag_run(s, i + 1);
            lemma_tags_from_names(s, e + 1);
            let head = s.subrange(i + 1, e);
            assert forall|k: int| 0 <= k < head.len() implies is_tag_char(#[trigger] head[k]) by {
                assert(head[k] == s[i + 1 + k]);
            }
            let all = seq![head] + tags_from(s, e + 1);
            assert(tags_from(s, i) == all);
            assert(head.len() > 0);
            assert forall|k: int| 0 <= k < all.len() implies is_tag_name(#[trigger] all[k]) by {
                if k > 0 {
                    assert(all[k] == tags_from(s, e + 1)[k - 1]);
                } else {
                    assert(all[0] == head);
                }
            }
        } else {
            lemma_tags_from_names(s, i + 1);
            assert(tags_from(s, i) == tags_from(s, i + 1));
        }
    }
}

/// Law: every tag found is a tag name — non-empty, with no whitespace and no `*`.
pub proof fn law_tags_are_names(s: Seq<char>)
    ensures
        forall|k: int| 0 <= k < tag_matches(s).len() ==> is_tag_name(#[trigger] tag_matches(s)[k]),
{
    lemma_tags_from_names(s, 0);
}

/// Law: a section's displayed header has no surrounding whitespace.
pub proof fn law_header_is_stripped(line: Seq<char>)
    ensures
        trim(header_of(line)) == header_of(line),
{
    law_trim_idempotent(strip_tag_markers(line));
}

/// Chunks whose first lines strictly increase.
pub open spec fn starts_increasing(cs: Seq<Chunk>) -> bool {
    forall|i: int, j: int| 0 <= i < j < cs.len() ==> (#[trigger] cs[i]).0 < (#[trigger] cs[j]).0
}

proof fn lemma_chunks_from_header_order(ls: Seq<Seq<char>>, h: int)
    requires
        0 <= h,
    ensures
        starts_increasing(chunks_from_header(ls, h)),
        forall|k: int|
            0 <= k < chunks_from_header(ls, h).len() ==> (#[trigger] chunks_from_header(ls, h)[k]).0
                >= h + 1,
    decreases ls.len() - h,
{
    if h < ls.len() {
        let e = next_rule(ls, h + 1);
        lemma_next_rule(ls, h + 1);
        let head = seq![(h + 1, Some(ls[h]), ls.subrange(h + 1, e))];
        let rest = chunks_after(ls, e);
        if e < ls.len() {
            lemma_chunks_from_header_order(ls, e + 1);
        }
        let all = head + rest;
        assert(chunks_from_header(ls, h) == all);
        assert forall|k: int| 0 <= k < all.len() implies (#[trigger] all[k]).0 >= h + 1 by {
            if k > 0 {
                assert(all[k] == rest[k - 1]);
            }
        }
        assert forall|i: int, j: int| 0 <= i < j < all.len() implies (#[trigger] all[i]).0 < (
        #[trigger] all[j]).0 by {
            assert(all[j] == rest[j - 1]);
            if i > 0 {
                assert(all[i] == rest[i - 1]);
            }
        }
    }
}

proof fn lemma_raw_chunks_order(ls: Seq<Seq<char>>)
    ensures
        starts_increasing(raw_chunks(ls)),
        forall|k: int| 0 <= k < raw_chunks(ls).len() ==> (#[trigger] raw_chunks(ls)[k]).0 >= 1,
{
    let e = next_rule(ls, 0);
    lemma_next_rule(ls, 0);
    let head = seq![(1int, None::<Seq<char>>, ls.take(e))];
    let rest = chunks_after(ls, e);
    if e < ls.len() {
        lemma_chunks_from_header_order(ls, e + 1);
    }
    let all = head + rest;
    assert(raw_chunks(ls) == all);
    assert forall|k: int| 0 <= k < all.len() implies (#[trigger] all[k]).0 >= 1 by {
        if k > 0 {
            assert(all[k] == rest[k - 1]);
        }
    }
    assert forall|i: int, j: int| 0 <= i < j < all.len() implies (#[trigger] all[i]).0 < (
    #[trigger] all[j]).0 by {
        assert(all[j] == rest[j - 1]);
        if i > 0 {
            assert(all[i] == rest[i - 1]);
        }
    }
}

proof fn lemma_shape_order(cs: Seq<Chunk>)
    requires
        starts_increasing(cs),
    ensures
        forall|i: int, j: int|
            0 <= i < j < shape(cs).len() ==> (#[trigger] shape(cs)[i]).line_start < (
            #[trigger] shape(cs)[j]).line_start,
        forall|k: int|
            0 <= k < shape(cs).len() ==> exists|m: int|
                0 <= m < cs.len() && (#[trigger] shape(cs)[k]).line_start == (#[trigger] cs[m]).0,
        forall|k: int|
            0 <= k < shape(cs).len() ==> (#[trigger] shape(cs)[k]).header is Some || trim(
                shape(cs)[k].body,
            ).len() > 0,
    decreases cs.len(),
{
    if cs.len() > 0 {
        let t = cs.drop_last();
        assert(starts_increasing(t));
        lemma_shape_order(t);
        let prev = shape(t);
        let c = cs.last();
        if keeps(c) {
            let now = prev.push(section_of(c));
            assert(shape(cs) == now);
            assert forall|k: int|
                0 <= k < now.len() implies exists|m: int|
                    0 <= m < cs.len() && (#[trigger] now[k]).line_start == (#[trigger] cs[m]).0 by {
                if k < prev.len() {
                    let m = choose|m: int| 0 <= m < t.len() && (#[trigger] prev[k]).line_start == (
                    #[trigger] t[m]).0;
                    assert(cs[m] == t[m]);
                } else {
                    assert(now[k].line_start == cs[cs.len() - 1].0);
                }
            }
            assert forall|i: int, j: int| 0 <= i < j < now.len() implies (#[trigger] now[i]).line_start
                < (#[trigger] now[j]).line_start by {
                if j == prev.len() {
                    let m = choose|m: int| 0 <= m < t.len() && (#[trigger] prev[i]).line_start == (
                    #[trigger] t[m]).0;
                    assert(cs[m] == t[m]);
                    assert(cs[m].0 < cs[cs.len() - 1].0);
                }
            }
            assert forall|k: int| 0 <= k < now.len() implies (#[trigger] now[k]).header is Some
                || trim(now[k].body).len() > 0 by {
                if k < prev.len() {
                    assert(now[k] == prev[k]);
                }
            }
        } else {
            assert(shape(cs) == prev);
            assert forall|k: int|
                0 <= k < prev.len() implies exists|m: int|
                    0 <= m < cs.len() && (#[trigger] prev[k]).line_start == (#[trigger] cs[m]).0 by {
                let m = choose|m: int| 0 <= m < t.len() && (#[trigger] prev[k]).line_start == (
                #[trigger] t[m]).0;
                assert(cs[m] == t[m]);
            }
        }
    }
}

/// Law: a file's sections come in source order — their first lines strictly
/// increase and are 1-indexed — and none is headerless with a blank body.
pub proof fn law_sections_in_order(ls: Seq<Seq<char>>)
    ensures
        forall|i: int, j: int|
            0 <= i < j < sections_of(ls).len() ==> (#[trigger] sections_of(ls)[i]).line_start < (
            #[trigger] sections_of(ls)[j]).line_start,
        forall|k: int| 0 <= k < sections_of(ls).len() ==> (#[trigger] sections_of(ls)[k]).line_start >= 1,
        forall|k: int|
            0 <= k < sections_of(ls).len() ==> (#[trigger] sections_of(ls)[k]).header is Some || trim(
                sections_of(ls)[k].body,
            ).len() > 0,
{
    lemma_raw_chunks_order(ls);
    lemma_shape_order(raw_chunks(ls));
    let cs = raw_chunks(ls);
    assert forall|k: int| 0 <= k < sections_of(ls).len() implies (
    #[trigger] sections_of(ls)[k]).line_start >= 1 by {
        let m = choose|m: int| 0 <= m < cs.len() && (#[trigger] shape(cs)[k]).line_start == (
        #[trigger] cs[m]).0;
    }
}

proof fn lemma_run_prefix(a: Seq<char>, c: char, b: Seq<char>, i: int)
    requires
        !is_tag_char(c),
        0 <= i <= a.len(),
    ensures
        tag_run_end(a + seq![c] + b, i) == tag_run_end(a, i),
    decreases a.len() - i,
{
    let s = a + seq![c] + b;
    if i < a.len() {
        assert(s[i] == a[i]);
        if is_tag_char(a[i]) {
            lemma_run_prefix(a, c, b, i + 1);
        }
    } else {
        assert(s[i] == c);
    }
}

proof fn lemma_tags_prefix(a: Seq<char>, c: char, b: Seq<char>, i: int)
    requires
        is_ws(c),
        0 <= i <= a.len(),
    ensures
        tags_from(a + seq![c] + b, i) == tags_from(a, i) + tags_from(a + seq![c] + b, a.len() + 1int),
    decreases a.len() - i,
{
    let s = a + seq![c] + b;
    if i == a.len() {
        assert(s[i] == c);
        assert(!tag_at(s, i));
        assert(tags_from(a, i) == Seq::<Seq<char>>::empty());
        assert(tags_from(s, i) == tags_from(s, i + 1));
    } else {
        assert(s[i] == a[i]);
        lemma_run_prefix(a, c, b, i + 1);
        lemma_tag_run(a, i + 1);
        let e = tag_run_end(a, i + 1);
        if e < a.len() {
            assert(s[e] == a[e]);
        } else {
            assert(s[e] == c);
        }
        if tag_at(a, i) {
            assert(tag_at(s, i));
            lemma_tags_prefix(a, c, b, e + 1);
            assert(s.subrange(i + 1, e) == a.subrange(i + 1, e));
        } else {
            assert(!tag_at(s, i));
            lemma_tags_prefix(a, c, b, i + 1);
        }
    }
}

proof fn lemma_run_shift(x: Seq<char>, b: Seq<char>, j: int)
    requires
        0 <= j,
    ensures
        tag_run_end(x + b, x.len() + j) == x.len() + tag_run_end(b, j),
    decreases b.len() - j,
{
    let s = x + b;
    if j < b.len() {
        assert(s[x.len() + j] == b[j]);
        if is_tag_char(b[j]) {
            lemma_run_shift(x, b, j + 1);
        }
    }
}

proof fn lemma_tags_shift(x: Seq<char>, b: Seq<char>, j: int)
    requires
        0 <= j,
    ensures
        tags_from(x + b, x.len() + j) == tags_from(b, j),
    decreases b.len() - j,
{
    let s = x + b;
    if j < b.len() {
        let i = x.len() + j;
        assert(s[i] == b[j]);
        lemma_run_shift(x, b, j + 1);
        lemma_tag_run(b, j + 1);
        let e = tag_run_end(b, j + 1);
        if e < b.len() {
            assert(s[x.len() + e] == b[e]);
        }
        if tag_at(b, j) {
            assert(tag_at(s, i));
            lemma_tags_shift(x, b, e + 1);
            assert(s.subrange(i + 1, x.len() + e) == b.subrange(j + 1, e));
        } else {
            assert(!tag_at(s, i));
            lemma_tags_shift(x, b, j + 1);
        }
    }
}

/// Tags never span whitespace: the tags of `a`, a whitespace character and
/// `b` are those of `a` followed by those of `b`.
pub proof fn lemma_tags_split(a: Seq<char>, c: char, b: Seq<char>)
    requires
        is_ws(c),
    ensures
        tag_matches(a + seq![c] + b) == tag_matches(a) + tag_matches(b),
{
    lemma_tags_prefix(a, c, b, 0);
    lemma_tags_shift(a + seq![c], b, 0);
    assert(a + seq![c] + b == (a + seq![c]) + b);
}

/// The tags of each line, one line after another.
pub open spec fn concat_tags(ls: Seq<Seq<char>>) -> Seq<Seq<char>>
    decreases ls.len(),
{
    if ls.len() == 0 {
        seq![]
    } else {
        concat_tags(ls.drop_last()) + tag_matches(ls.last())
    }
}

proof fn lemma_join_tags(ls: Seq<Seq<char>>)
    ensures
        tag_matches(join_lines(ls)) == concat_tags(ls),
    decreases ls.len(),
{
    if ls.len() == 0 {
        assert(tag_matches(seq![]) == Seq::<Seq<char>>::empty());
    } else if ls.len() == 1 {
        assert(ls.drop_last() == Seq::<Seq<char>>::empty());
        assert(concat_tags(ls.drop_last()) == Seq::<Seq<char>>::empty());
    } else {
        lemma_join_tags(ls.drop_last());
        lemma_tags_split(join_lines(ls.drop_last()), '\n', ls.last());
    }
}

proof fn lemma_tags_after_break(p: Seq<char>, cur: Seq<char>)
    requires
        p.len() == 0 || is_ws(p.last()),
    ensures
        tag_matches(p + cur) == tag_matches(p) + tag_matches(cur),
{
    if p.len() == 0 {
        assert(p + cur == cur);
        assert(tag_matches(p) == Seq::<Seq<char>>::empty());
    } else {
        let q = p.drop_last();
        assert(p == q + seq![p.last()] + Seq::<char>::empty());
        lemma_tags_split(q, p.last(), Seq::<char>::empty());
        assert(tag_matches(Seq::<char>::empty()) == Seq::<Seq<char>>::empty());
        assert(p + cur == q + seq![p.last()] + cur);
        lemma_tags_split(q, p.last(), cur);
    }
}

proof fn lemma_tags_drop_ws(l: Seq<char>)
    requires
        l.len() > 0,
        is_ws(l.last()),
    ensures
        tag_matches(l) == tag_matches(l.drop_last()),
{
    assert(l == l.drop_last() + seq![l.last()] + Seq::<char>::empty());
    lemma_tags_split(l.drop_last(), l.last(), Seq::<char>::empty());
    assert(tag_matches(Seq::<char>::empty()) == Seq::<Seq<char>>::empty());
}

proof fn lemma_line_scan_tags(s: Seq<char>)
    ensures
        ({
            let (done, cur) = line_scan(s);
            let p = s.take(s.len() - cur.len());
            &&& cur.len() <= s.len()
            &&& s == p + cur
            &&& p.len() == 0 || p.last() == '\n'
            &&& concat_tags(done) == tag_matches(p)
        }),
    decreases s.len(),
{
    if s.len() == 0 {
        assert(tag_matches(seq![]) == Seq::<Seq<char>>::empty());
        assert(s.take(0) == Seq::<char>::empty());
    } else {
        let t = s.drop_last();
        let x = s.last();
        lemma_line_scan_tags(t);
        let (done0, cur0) = line_scan(t);
        let p0 = t.take(t.len() - cur0.len());
        if x == '\n' {
            let (done, cur) = line_scan(s);
            assert(cur == Seq::<char>::empty());
            assert(s.take(s.len() as int) == s);
            assert(done == done0.push(strip_cr(cur0)));
            assert(concat_tags(done) == concat_tags(done0) + tag_matches(strip_cr(cur0))) by {
                assert(done.drop_last() == done0);
            }
            if cur0.len() > 0 && cur0.last() == '\r' {
                lemma_tags_drop_ws(cur0);
            }
            lemma_tags_after_break(p0, cur0);
            assert(s == t + seq!['\n'] + Seq::<char>::empty());
            lemma_tags_split(t, '\n', Seq::<char>::empty());
            assert(tag_matches(Seq::<char>::empty()) == Seq::<Seq<char>>::empty());
        } else {
            let (done, cur) = line_scan(s);
            assert(cur == cur0.push(x));
            assert(done == done0);
            assert(t == p0 + cur0);
            assert(s == t.push(x));
            assert(s =~= p0 + cur);
            assert(s.take(s.len() - cur.len()) == p0);
        }
    }
}

/// The tags of a text are those of its lines, one line after another.
pub proof fn lemma_source_tags(s: Seq<char>)
    ensures
        tag_matches(s) == concat_tags(lines(s)),
{
    lemma_line_scan_tags(s);
    let (done, cur) = line_scan(s);
    let p = s.take(s.len() - cur.len());
    lemma_tags_after_break(p, cur);
    if cur.len() == 0 {
        assert(tag_matches(cur) == Seq::<Seq<char>>::empty());
    } else {
        assert(lines(s).drop_last() == done);
    }
}

proof fn lemma_concat_tags_has(ls: Seq<Seq<char>>, t: Seq<char>)
    ensures
        concat_tags(ls).contains(t) <==> exists|k: int|
            0 <= k < ls.len() && tag_matches(#[trigger] ls[k]).contains(t),
    decreases ls.len(),
{
    if ls.len() > 0 {
        let u = ls.drop_last();
        lemma_concat_tags_has(u, t);
        let a = concat_tags(u);
        let b = tag_matches(ls.last());
        if (a + b).contains(t) {
            let i = choose|i: int| 0 <= i < (a + b).len() && (a + b)[i] == t;
            if i < a.len() {
                assert(a[i] == t);
                let k = choose|k: int| 0 <= k < u.len() && tag_matches(#[trigger] u[k]).contains(t);
                assert(ls[k] == u[k]);
            } else {
                assert(b[i - a.len()] == t);
                assert(ls[ls.len() - 1] == ls.last());
            }
        }
        if exists|k: int| 0 <= k < ls.len() && tag_matches(#[trigger] ls[k]).contains(t) {
            let k = choose|k: int| 0 <= k < ls.len() && tag_matches(#[trigger] ls[k]).contains(t);
            if k < u.len() {
                assert(u[k] == ls[k]);
                assert(a.contains(t));
                let i = choose|i: int| 0 <= i < a.len() && a[i] == t;
                assert((a + b)[i] == t);
            } else {
                assert(b.contains(t));
                let i = choose|i: int| 0 <= i < b.len() && b[i] == t;
                assert((a + b)[a.len() + i] == t);
            }
        }
    } else {
        assert(concat_tags(ls) == Seq::<Seq<char>>::empty());
    }
}

/// A chunk drawn from the lines `ls`: its header is one of them and its body
/// a stretch of them.
pub open spec fn from_lines(ls: Seq<Seq<char>>, c: Chunk) -> bool {
    &&& (c.1 matches Some(h) ==> exists|i: int| 0 <= i < ls.len() && ls[i] == h)
    &&& exists|a: int, b: int| 0 <= a <= b <= ls.len() && c.2 == ls.subrange(a, b)
}

proof fn lemma_chunks_from_header_lines(ls: Seq<Seq<char>>, h: int)
    requires
        0 <= h,
    ensures
        forall|k: int|
            0 <= k < chunks_from_header(ls, h).len() ==> from_lines(
                ls,
                #[trigger] chunks_from_header(ls, h)[k],
            ),
    decreases ls.len() - h,
{
    if h < ls.len() {
        let e = next_rule(ls, h + 1);
        lemma_next_rule(ls, h + 1);
        let c = (h + 1, Some(ls[h]), ls.subrange(h + 1, e));
        assert(from_lines(ls, c));
        let rest = chunks_after(ls, e);
        if e < ls.len() {
            lemma_chunks_from_header_lines(ls, e + 1);
        }
        let all = seq![c] + rest;
        assert(chunks_from_header(ls, h) == all);
        assert forall|k: int| 0 <= k < all.len() implies from_lines(ls, #[trigger] all[k]) by {
            if k > 0 {
                assert(all[k] == rest[k - 1]);
            }
        }
    }
}

proof fn lemma_raw_chunks_lines(ls: Seq<Seq<char>>)
    ensures
        forall|k: int| 0 <= k < raw_chunks(ls).len() ==> from_lines(ls, #[trigger] raw_chunks(ls)[k]),
{
    let e = next_rule(ls, 0);
    lemma_next_rule(ls, 0);
    let c = (1int, None::<Seq<char>>, ls.take(e));
    assert(ls.take(e) == ls.subrange(0, e));
    assert(from_lines(ls, c));
    let rest = chunks_after(ls, e);
    if e < ls.len() {
        lemma_chunks_from_header_lines(ls, e + 1);
    }
    let all = seq![c] + rest;
    assert(raw_chunks(ls) == all);
    assert forall|k: int| 0 <= k < all.len() implies from_lines(ls, #[trigger] all[k]) by {
        if k > 0 {
            assert(all[k] == rest[k - 1]);
        }
    }
}

proof fn lemma_shape_sources(cs: Seq<Chunk>)
    ensures
        forall|k: int|
            0 <= k < shape(cs).len() ==> exists|m: int|
                0 <= m < cs.len() && #[trigger] shape(cs)[k] == section_of(#[trigger] cs[m]),
    decreases cs.len(),
{
    if cs.len() > 0 {
        let t = cs.drop_last();
        lemma_shape_sources(t);
        let prev = shape(t);
        assert forall|k: int|
            0 <= k < shape(cs).len() implies exists|m: int|
                0 <= m < cs.len() && #[trigger] shape(cs)[k] == section_of(#[trigger] cs[m]) by {
            if k < prev.len() {
                assert(shape(cs)[k] == prev[k]);
                let m = choose|m: int| 0 <= m < t.len() && #[trigger] prev[k] == section_of(#[trigger] t[m]);
                assert(cs[m] == t[m]);
            } else {
                assert(shape(cs)[k] == section_of(cs[cs.len() - 1]));
            }
        }
    }
}

proof fn lemma_concat_contains(a: Seq<Seq<char>>, b: Seq<Seq<char>>, t: Seq<char>)
    ensures
        (a + b).contains(t) <==> a.contains(t) || b.contains(t),
{
    if (a + b).contains(t) {
        let i = choose|i: int| 0 <= i < (a + b).len() && (a + b)[i] == t;
        if i < a.len() {
            assert(a[i] == t);
        } else {
            assert(b[i - a.len()] == t);
        }
    }
    if a.contains(t) {
        let i = choose|i: int| 0 <= i < a.len() && a[i] == t;
        assert((a + b)[i] == t);
    }
    if b.contains(t) {
        let i = choose|i: int| 0 <= i < b.len() && b[i] == t;
        assert((a + b)[a.len() + i] == t);
    }
}

/// Law: every tag of a section also stands in the document's tag list.
pub proof fn law_section_tags_in_document(source: Seq<char>, path: Seq<char>, k: int, t: Seq<char>)
    requires
        0 <= k < parsed(source, path).sections.len(),
        parsed(source, path).sections[k].tags.contains(t),
    ensures
        parsed(source, path).tags.contains(t),
{
    let ls = lines(source);
    let cs = raw_chunks(ls);
    lemma_shape_sources(cs);
    lemma_raw_chunks_lines(ls);
    let m = choose|m: int| 0 <= m < cs.len() && #[trigger] shape(cs)[k] == section_of(#[trigger] cs[m]);
    let c = cs[m];
    assert(from_lines(ls, c));
    let body = join_lines(c.2);
    law_dedup_same_items(header_tags(c.1) + tag_matches(body));
    lemma_concat_contains(header_tags(c.1), tag_matches(body), t);
    lemma_source_tags(source);
    law_dedup_same_items(tag_matches(source));
    lemma_concat_tags_has(ls, t);
    if header_tags(c.1).contains(t) {
        let h = c.1->0;
        let i = choose|i: int| 0 <= i < ls.len() && ls[i] == h;
        assert(tag_matches(ls[i]).contains(t));
    } else {
        lemma_join_tags(c.2);
        lemma_concat_tags_has(c.2, t);
        let (a, b) = choose|a: int, b: int| 0 <= a <= b <= ls.len() && c.2 == ls.subrange(a, b);
        let j = choose|j: int| 0 <= j < c.2.len() && tag_matches(#[trigger] c.2[j]).contains(t);
        assert(c.2[j] == ls[a + j]);
        assert(tag_matches(ls[a + j]).contains(t));
    }
}

proof fn lemma_no_star_no_tags(s: Seq<char>, i: int)
    requires
        0 <= i,
        forall|k: int| 0 <= k < s.len() ==> s[k] != '*',
    ensures
        tags_from(s, i) == Seq::<Seq<char>>::empty(),
    decreases s.len() - i,
{
    if i < s.len() {
        lemma_no_star_no_tags(s, i + 1);
    }
}

/// Whether line `l` is the header line or one of the body lines of `c`.
pub open spec fn line_in_chunk(l: Seq<char>, c: Chunk) -> bool {
    c.1 == Some(l) || c.2.contains(l)
}

proof fn lemma_chunks_from_header_cover(ls: Seq<Seq<char>>, h: int)
    requires
        0 <= h,
    ensures
        forall|j: int|
            h <= j < ls.len() ==> is_rule(#[trigger] ls[j]) || exists|k: int|
                0 <= k < chunks_from_header(ls, h).len() && line_in_chunk(
                    ls[j],
                    #[trigger] chunks_from_header(ls, h)[k],
                ),
    decreases ls.len() - h,
{
    if h < ls.len() {
        let e = next_rule(ls, h + 1);
        lemma_next_rule(ls, h + 1);
        let c = (h + 1, Some(ls[h]), ls.subrange(h + 1, e));
        let rest = chunks_after(ls, e);
        if e < ls.len() {
            lemma_chunks_from_header_cover(ls, e + 1);
        }
        let all = seq![c] + rest;
        assert(chunks_from_header(ls, h) == all);
        assert forall|j: int| h <= j < ls.len() implies is_rule(#[trigger] ls[j]) || exists|k: int|
            0 <= k < all.len() && line_in_chunk(ls[j], #[trigger] all[k]) by {
            if j == h {
                assert(line_in_chunk(ls[j], all[0]));
            } else if j < e {
                assert(c.2[j - h - 1] == ls[j]);
                assert(line_in_chunk(ls[j], all[0]));
            } else if j > e && !is_rule(ls[j]) {
                let k = choose|k: int|
                    0 <= k < rest.len() && line_in_chunk(ls[j], #[trigger] chunks_from_header(ls, e + 1)[k]);
                assert(all[k + 1] == rest[k]);
                assert(line_in_chunk(ls[j], all[k + 1]));
            }
        }
    }
}

proof fn lemma_raw_chunks_cover(ls: Seq<Seq<char>>)
    ensures
        forall|j: int|
            0 <= j < ls.len() ==> is_rule(#[trigger] ls[j]) || exists|k: int|
                0 <= k < raw_chunks(ls).len() && line_in_chunk(ls[j], #[trigger] raw_chunks(ls)[k]),
{
    let e = next_rule(ls, 0);
    lemma_next_rule(ls, 0);
    let c = (1int, None::<Seq<char>>, ls.take(e));
    let rest = chunks_after(ls, e);
    if e < ls.len() {
        lemma_chunks_from_header_cover(ls, e + 1);
    }
    let all = seq![c] + rest;
    assert(raw_chunks(ls) == all);
    assert forall|j: int| 0 <= j < ls.len() implies is_rule(#[trigger] ls[j]) || exists|k: int|
        0 <= k < all.len() && line_in_chunk(ls[j], #[trigger] all[k]) by {
        if j < e {
            assert(c.2[j] == ls[j]);
            assert(line_in_chunk(ls[j], all[0]));
        } else if j > e && !is_rule(ls[j]) {
            let k = choose|k: int|
                0 <= k < rest.len() && line_in_chunk(ls[j], #[trigger] chunks_from_header(ls, e + 1)[k]);
            assert(all[k + 1] == rest[k]);
            assert(line_in_chunk(ls[j], all[k + 1]));
        }
    }
}

proof fn lemma_shape_complete(cs: Seq<Chunk>)
    ensures
        forall|m: int|
            0 <= m < cs.len() && keeps(#[trigger] cs[m]) ==> exists|k: int|
                0 <= k < shape(cs).len() && #[trigger] shape(cs)[k] == section_of(cs[m]),
    decreases cs.len(),
{
    if cs.len() > 0 {
        let t = cs.drop_last();
        lemma_shape_complete(t);
        let prev = shape(t);
        assert forall|m: int| 0 <= m < cs.len() && keeps(#[trigger] cs[m]) implies exists|k: int|
            0 <= k < shape(cs).len() && #[trigger] shape(cs)[k] == section_of(cs[m]) by {
            if m < t.len() {
                assert(cs[m] == t[m]);
                let k = choose|k: int| 0 <= k < prev.len() && #[trigger] prev[k] == section_of(t[m]);
                assert(shape(cs)[k] == prev[k]);
            } else {
                assert(shape(cs) == prev.push(section_of(cs.last())));
                assert(shape(cs)[prev.len() as int] == section_of(cs[m]));
            }
        }
    }
}

/// Law: every tag of the document's list stands in the tags of some
/// section, so the list is exactly the union of the sections' tags.
pub proof fn law_document_tags_in_sections(source: Seq<char>, path: Seq<char>, t: Seq<char>)
    requires
        parsed(source, path).tags.contains(t),
    ensures
        exists|k: int|
            0 <= k < parsed(source, path).sections.len() && (
            #[trigger] parsed(source, path).sections[k]).tags.contains(t),
{
    let ls = lines(source);
    let cs = raw_chunks(ls);
    law_dedup_same_items(tag_matches(source));
    lemma_source_tags(source);
    lemma_concat_tags_has(ls, t);
    let j = choose|j: int| 0 <= j < ls.len() && tag_matches(#[trigger] ls[j]).contains(t);
    lemma_raw_chunks_cover(ls);
    if is_rule(ls[j]) {
        lemma_no_star_no_tags(ls[j], 0);
        assert(false);
    }
    let m = choose|m: int| 0 <= m < cs.len() && line_in_chunk(ls[j], #[trigger] cs[m]);
    let c = cs[m];
    let body = join_lines(c.2);
    lemma_join_tags(c.2);
    assert(tag_matches(body).contains(t) || header_tags(c.1).contains(t)) by {
        if c.1 != Some(ls[j]) {
            assert(c.2.contains(ls[j]));
            let i = choose|i: int| 0 <= i < c.2.len() && c.2[i] == ls[j];
            lemma_concat_tags_has(c.2, t);
        }
    }
    if !keeps(c) {
        lemma_trim_empty_iff_all_ws(body);
        assert forall|k: int| 0 <= k < body.len() implies body[k] != '*' by {
            assert(is_ws(body[k]));
        }
        lemma_no_star_no_tags(body, 0);
        assert(false);
    }
    lemma_shape_complete(cs);
    let k = choose|k: int| 0 <= k < shape(cs).len() && #[trigger] shape(cs)[k] == section_of(cs[m]);
    law_dedup_same_items(header_tags(c.1) + tag_matches(body));
    lemma_concat_contains(header_tags(c.1), tag_matches(body), t);
    assert(parsed(source, path).sections[k].tags.contains(t));
}

/// Whether every chunk of `cs` that has a header takes it from the line of
/// `ls` just before its first line.
pub open spec fn headers_from_lines(ls: Seq<Seq<char>>, cs: Seq<Chunk>) -> bool {
    forall|m: int|
        0 <= m < cs.len() && (#[trigger] cs[m]).1 is Some ==> 1 <= cs[m].0 <= ls.len()
            && cs[m].1 == Some(ls[cs[m].0 - 1])
}

proof fn lemma_chunks_from_header_headers(ls: Seq<Seq<char>>, h: int)
    requires
        0 <= h,
    ensures
        headers_from_lines(ls, chunks_from_header(ls, h)),
    decreases ls.len() - h,
{
    if h < ls.len() {
        let e = next_rule(ls, h + 1);
        lemma_next_rule(ls, h + 1);
        let head = seq![(h + 1, Some(ls[h]), ls.subrange(h + 1, e))];
        let rest = chunks_after(ls, e);
        if e < ls.len() {
            lemma_chunks_from_header_headers(ls, e + 1);
        }
        let all = head + rest;
        assert(chunks_from_header(ls, h) == all);
        assert forall|m: int| 0 <= m < all.len() && (#[trigger] all[m]).1 is Some implies 1 <= all[m].0
            <= ls.len() && all[m].1 == Some(ls[all[m].0 - 1]) by {
            if m > 0 {
                assert(all[m] == rest[m - 1]);
            }
        }
    }
}

proof fn lemma_raw_chunks_headers(ls: Seq<Seq<char>>)
    ensures
        headers_from_lines(ls, raw_chunks(ls)),
{
    let e = next_rule(ls, 0);
    lemma_next_rule(ls, 0);
    let head = seq![(1int, None::<Seq<char>>, ls.take(e))];
    let rest = chunks_after(ls, e);
    if e < ls.len() {
        lemma_chunks_from_header_headers(ls, e + 1);
    }
    let all = head + rest;
    assert(raw_chunks(ls) == all);
    assert forall|m: int| 0 <= m < all.len() && (#[trigger] all[m]).1 is Some implies 1 <= all[m].0
        <= ls.len() && all[m].1 == Some(ls[all[m].0 - 1]) by {
        if m > 0 {
            assert(all[m] == rest[m - 1]);
        }
    }
}

proof fn lemma_shape_headers(cs: Seq<Chunk>)
    ensures
        forall|k: int|
            0 <= k < shape(cs).len() && (#[trigger] shape(cs)[k]).header is Some ==> exists|m: int|
                0 <= m < cs.len() && (#[trigger] cs[m]).0 == shape(cs)[k].line_start && cs[m].1 is Some
                    && shape(cs)[k].header == Some(trim(strip_tag_markers(cs[m].1->Some_0))),
    decreases cs.len(),
{
    if cs.len() > 0 {
        let t = cs.drop_last();
        lemma_shape_headers(t);
        let prev = shape(t);
        let c = cs.last();
        let now = shape(cs);
        assert forall|k: int| 0 <= k < now.len() && (#[trigger] now[k]).header is Some implies exists|m: int|
            0 <= m < cs.len() && (#[trigger] cs[m]).0 == now[k].line_start && cs[m].1 is Some
                && now[k].header == Some(trim(strip_tag_markers(cs[m].1->Some_0))) by {
            if k < prev.len() {
                assert(now[k] == prev[k]);
                let m = choose|m: int|
                    0 <= m < t.len() && (#[trigger] t[m]).0 == prev[k].line_start && t[m].1 is Some
                        && prev[k].header == Some(trim(strip_tag_markers(t[m].1->Some_0)));
                assert(cs[m] == t[m]);
            } else {
                assert(keeps(c) && now[k] == section_of(c));
                assert(cs[cs.len() - 1] == c);
            }
        }
    }
}

/// Law: a section's header is its raw header line — the line just before its
/// first line, right after a rule — with every tag marker removed and the
/// surrounding whitespace trimmed.
pub proof fn law_header_is_stripped_header_line(source: Seq<char>, path: Seq<char>, k: int)
    requires
        0 <= k < parsed(source, path).sections.len(),
        parsed(source, path).sections[k].header is Some,
    ensures
        1 <= parsed(source, path).sections[k].line_start <= lines(source).len(),
        parsed(source, path).sections[k].header == Some(
            trim(strip_tag_markers(lines(source)[parsed(source, path).sections[k].line_start - 1])),
        ),
{
    let ls = lines(source);
    let cs = raw_chunks(ls);
    lemma_raw_chunks_headers(ls);
    lemma_shape_headers(cs);
    let sec = shape(cs)[k];
    let m = choose|m: int|
        0 <= m < cs.len() && (#[trigger] cs[m]).0 == sec.line_start && cs[m].1 is Some
            && sec.header == Some(trim(strip_tag_markers(cs[m].1->Some_0)));
    assert(cs[m].1 == Some(ls[cs[m].0 - 1]));
}

} // verus!
