//! Domain types — the language of the problem.
//!
//! - [`Document`] — one parsed vimdoc file, with its tags surfaced separately
//!   from its sectioned body.
//! - [`Query`] — the user's search input, bounded by a max-hit cap.
//!
//! Paths are kept as the text the caller supplied.

use crate::text::{is_ws, law_trim_idempotent, lemma_trim_ends, strs, trim, trimmed};
use vstd::prelude::*;

verus! {

/// A parsed vimdoc file.
#[derive(Debug, Clone, PartialEq, Eq)]
pub struct Document {
    /// The path as supplied by the caller.
    pub path: String,
    /// All tags declared in the file, in source order, deduplicated.
    pub tags: Vec<String>,
    pub sections: Vec<Section>,
}

/// One section of a vimdoc file — the text between two `====` rules, or from
/// the top of the file to the first rule.
#[derive(Debug, Clone, PartialEq, Eq)]
pub struct Section {
    /// The section's own header, when there is one.
    pub header: Option<String>,
    /// Tags declared inside this section, header included.
    pub tags: Vec<String>,
    /// Body text, verbatim.
    pub body: String,
    /// 1-indexed line number of the section's first line within the file.
    pub line_start: usize,
}

/// The mathematical value of a [`Section`].
pub struct SectionSpec {
    pub header: Option<Seq<char>>,
    pub tags: Seq<Seq<char>>,
    pub body: Seq<char>,
    pub line_start: int,
}

/// The mathematical value of a [`Document`].
pub struct DocumentSpec {
    pub path: Seq<char>,
    pub tags: Seq<Seq<char>>,
    pub sections: Seq<SectionSpec>,
}

/// The view of an optional string.
pub open spec fn opt_view(o: Option<String>) -> Option<Seq<char>> {
    match o {
        Some(s) => Some(s@),
        None => None,
    }
}

impl View for Section {
    type V = SectionSpec;

    open spec fn view(&self) -> SectionSpec {
        SectionSpec {
            header: opt_view(self.header),
            tags: strs(self.tags@),
            body: self.body@,
            line_start: self.line_start as int,
        }
    }
}

/// Views of a sequence of sections.
pub open spec fn section_views(s: Seq<Section>) -> Seq<SectionSpec> {
    s.map_values(|x: Section| x@)
}

impl View for Document {
    type V = DocumentSpec;

    open spec fn view(&self) -> DocumentSpec {
        DocumentSpec {
            path: self.path@,
            tags: strs(self.tags@),
            sections: section_views(self.sections@),
        }
    }
}

/// Search input.
#[derive(Debug, Clone, PartialEq, Eq)]
pub struct Query {
    pub text: String,
    /// Cap on results returned. Zero means "use the searcher's default cap";
    /// it is never "unbounded".
    pub max_hits: usize,
}

/// Errors constructing a [`Query`].
#[derive(Debug, Clone, Copy, PartialEq, Eq, Structural)]
pub enum QueryError {
    Empty,
}

impl QueryError {
    /// The error's message.
    pub fn message(&self) -> (m: String)
        ensures
            m@ == "query text must not be empty"@,
    {
        "query text must not be empty".to_owned()
    }
}

impl Query {
    /// Trims whitespace and rejects an empty query, so downstream code can
    /// rely on `text` being non-empty and stripped.
    pub fn new(text: &str, max_hits: usize) -> (r: Result<Query, QueryError>)
        ensures
            trim(text@).len() == 0 <==> r is Err,
            r matches Err(e) ==> e == QueryError::Empty,
            r matches Ok(q) ==> q.text@ == trim(text@) && q.max_hits == max_hits,
    {
        let t = trimmed(text);
        if t.as_str().is_empty() {
            proof {
                assert(t@.len() == 0);
            }
            return Err(QueryError::Empty);
        }
        Ok(Query { text: t, max_hits })
    }
}

/// Law: the text of every query that [`Query::new`] accepts is non-empty and
/// stripped — it starts and ends with a non-whitespace character, and
/// trimming it again changes nothing.
pub proof fn law_query_text_is_stripped(text: Seq<char>)
    requires
        trim(text).len() > 0,
    ensures
        !is_ws(trim(text)[0]),
        !is_ws(trim(text).last()),
        trim(trim(text)) == trim(text),
{
    lemma_trim_ends(text);
    law_trim_idempotent(text);
}

} // verus!
