//! The tantivy-backed index: its schema, what one indexed section holds, and
//! how a stored section reads back as a hit.
//!
//! One tantivy document per section, not per file, so hits attribute to a
//! specific header and line inside a file. Schema fields:
//!   - `doc_path`   exact-match string, stored
//!   - `header`     tokenized text, stored
//!   - `tags`       tokenized text, stored
//!   - `body`       tokenized text, stored (the primary search target)
//!   - `line_start` u64, stored (1-indexed line for jumps)

use crate::domain::{Document, Section, SectionSpec, opt_view, section_views};
use crate::cli::search::or_text;
use crate::text::{
    chars_of, first_word, first_word_of, join_with_spaces, join_words, slice_vec, string_of, strs,
};
use vstd::prelude::*;

verus! {

/// Writer heap for a build: tantivy's suggested minimum.
pub const WRITER_HEAP_BYTES: usize = 50_000_000;

/// The cap used when a query asks for zero hits (the "let the searcher
/// decide" sentinel).
pub const DEFAULT_MAX_HITS: usize = 50;

/// The most body characters a snippet shows before it is cut and marked.
pub const SNIPPET_CHARS: usize = 240;

/// How a schema field is indexed; every field is stored.
#[derive(Debug, Clone, Copy, PartialEq, Eq, Structural)]
pub enum FieldKind {
    /// Indexed as one untokenized string (exact match).
    Exact,
    /// Tokenized full text.
    Text,
    /// An unsigned integer, stored only.
    U64,
    /// Any other field type or set of options tantivy offers.
    Other,
}

#[verifier::external_type_specification]
#[verifier::external_body]
pub struct ExSchemaBuilder(::tantivy::schema::SchemaBuilder);

#[verifier::external_type_specification]
#[verifier::external_body]
pub struct ExSchema(::tantivy::schema::Schema);

/// The fields a schema builder has been given, in order: name and kind.
pub uninterp spec fn builder_fields(b: ::tantivy::schema::SchemaBuilder) -> Seq<(Seq<char>, FieldKind)>;

/// The fields of a schema, in order: name and kind.
pub uninterp spec fn schema_fields(s: ::tantivy::schema::Schema) -> Seq<(Seq<char>, FieldKind)>;

/// `Schema::builder`: the contract claims a new builder has no fields.
#[verifier::external_body]
fn new_schema_builder() -> (b: ::tantivy::schema::SchemaBuilder)
    ensures
        builder_fields(b) == Seq::<(Seq<char>, FieldKind)>::empty(),
{
    ::tantivy::schema::Schema::builder()
}

/// A name tantivy accepts for a field: not empty, and not starting with `-`.
pub open spec fn valid_field_name(name: Seq<char>) -> bool {
    name.len() > 0 && name[0] != '-'
}

/// `SchemaBuilder::add_text_field`, with `STRING | STORED` for an exact field
/// and `TEXT | STORED` for a text field. The contract claims the field is
/// appended and its id is its position; tantivy panics on a repeated name and
/// on an invalid one (empty, or starting with `-`), which the precondition
/// rules out.
#[verifier::external_body]
fn add_text_field(b: &mut ::tantivy::schema::SchemaBuilder, name: &str, kind: FieldKind) -> (id: u32)
    requires
        kind == FieldKind::Exact || kind == FieldKind::Text,
        valid_field_name(name@),
        forall|i: int|
            0 <= i < builder_fields(*old(b)).len() ==> (#[trigger] builder_fields(*old(b))[i]).0
                != name@,
        builder_fields(*old(b)).len() < u32::MAX,
    ensures
        builder_fields(*final(b)) == builder_fields(*old(b)).push((name@, kind)),
        id == builder_fields(*old(b)).len(),
{
    let options = match kind {
        FieldKind::Exact => ::tantivy::schema::STRING | ::tantivy::schema::STORED,
        _ => ::tantivy::schema::TEXT | ::tantivy::schema::STORED,
    };
    b.add_text_field(name, options).field_id()
}

/// `SchemaBuilder::add_u64_field` with `STORED`. The contract claims the
/// field is appended and its id is its position; tantivy panics on a
/// repeated name and on an invalid one (empty, or starting with `-`), which
/// the precondition rules out.
#[verifier::external_body]
fn add_u64_field(b: &mut ::tantivy::schema::SchemaBuilder, name: &str) -> (id: u32)
    requires
        valid_field_name(name@),
        forall|i: int|
            0 <= i < builder_fields(*old(b)).len() ==> (#[trigger] builder_fields(*old(b))[i]).0
                != name@,
        builder_fields(*old(b)).len() < u32::MAX,
    ensures
        builder_fields(*final(b)) == builder_fields(*old(b)).push((name@, FieldKind::U64)),
        id == builder_fields(*old(b)).len(),
{
    b.add_u64_field(name, ::tantivy::schema::STORED).field_id()
}

/// `SchemaBuilder::build`: the contract claims the schema has the builder's
/// fields.
#[verifier::external_body]
fn finish_schema(b: ::tantivy::schema::SchemaBuilder) -> (s: ::tantivy::schema::Schema)
    ensures
        schema_fields(s) == builder_fields(b),
{
    b.build()
}

/// Handles (field ids) of the schema's fields.
#[derive(Debug, Clone, Copy, PartialEq, Eq, Structural)]
pub struct Fields {
    pub doc_path: u32,
    pub header: u32,
    pub tags: u32,
    pub body: u32,
    pub line_start: u32,
}

/// The index schema, field by field.
pub open spec fn index_schema() -> Seq<(Seq<char>, FieldKind)> {
    seq![
        ("doc_path"@, FieldKind::Exact),
        ("header"@, FieldKind::Text),
        ("tags"@, FieldKind::Text),
        ("body"@, FieldKind::Text),
        ("line_start"@, FieldKind::U64),
    ]
}

/// Builds the index schema and the handles of its fields.
pub fn build_schema() -> (r: (::tantivy::schema::Schema, Fields))
    ensures
        schema_fields(r.0) == index_schema(),
        r.1 == (Fields { doc_path: 0, header: 1, tags: 2, body: 3, line_start: 4 }),
        schema_fields(r.0).len() == 5,
        schema_fields(r.0)[r.1.doc_path as int] == ("doc_path"@, FieldKind::Exact),
        schema_fields(r.0)[r.1.header as int] == ("header"@, FieldKind::Text),
        schema_fields(r.0)[r.1.tags as int] == ("tags"@, FieldKind::Text),
        schema_fields(r.0)[r.1.body as int] == ("body"@, FieldKind::Text),
        schema_fields(r.0)[r.1.line_start as int] == ("line_start"@, FieldKind::U64),
{
    proof {
        reveal_strlit("doc_path");
        reveal_strlit("header");
        reveal_strlit("tags");
        reveal_strlit("body");
        reveal_strlit("line_start");
        assert("doc_path"@.len() == 8 && "header"@.len() == 6 && "line_start"@.len() == 10);
        assert("tags"@[0] != "body"@[0]);
    }
    let mut b = new_schema_builder();
    let doc_path = add_text_field(&mut b, "doc_path", FieldKind::Exact);
    let header = add_text_field(&mut b, "header", FieldKind::Text);
    let tags = add_text_field(&mut b, "tags", FieldKind::Text);
    let body = add_text_field(&mut b, "body", FieldKind::Text);
    let line_start = add_u64_field(&mut b, "line_start");
    let schema = finish_schema(b);
    assert(schema_fields(schema) =~= index_schema());
    (schema, Fields { doc_path, header, tags, body, line_start })
}

/// `Schema::get_field`: the contract claims the id of the field named `name`
/// (its position among the schema's fields) when there is one, and `None`
/// exactly when no field has that name.
#[verifier::external_body]
fn field_id(schema: &::tantivy::schema::Schema, name: &str) -> (r: Option<u32>)
    ensures
        match r {
            Some(id) => id < schema_fields(*schema).len() && schema_fields(*schema)[id as int].0
                == name@,
            None => forall|i: int|
                0 <= i < schema_fields(*schema).len() ==> (#[trigger] schema_fields(*schema)[i]).0
                    != name@,
        },
{
    match schema.get_field(name) {
        Ok(field) => Some(field.field_id()),
        Err(_) => None,
    }
}

/// The names of the index's fields, in schema order.
pub open spec fn index_field_names() -> Seq<Seq<char>> {
    seq!["doc_path"@, "header"@, "tags"@, "body"@, "line_start"@]
}

/// Whether some field of `fs` is named `name`.
pub open spec fn has_field(fs: Seq<(Seq<char>, FieldKind)>, name: Seq<char>) -> bool {
    exists|i: int| 0 <= i < fs.len() && (#[trigger] fs[i]).0 == name
}

/// Whether `id` is the position of a field of `fs` named `name`.
pub open spec fn names(fs: Seq<(Seq<char>, FieldKind)>, id: u32, name: Seq<char>) -> bool {
    id < fs.len() && fs[id as int].0 == name
}

/// Whether each handle of `f` is the position of the field of its name.
pub open spec fn handles_of(fs: Seq<(Seq<char>, FieldKind)>, f: Fields) -> bool {
    &&& names(fs, f.doc_path, index_field_names()[0])
    &&& names(fs, f.header, index_field_names()[1])
    &&& names(fs, f.tags, index_field_names()[2])
    &&& names(fs, f.body, index_field_names()[3])
    &&& names(fs, f.line_start, index_field_names()[4])
}

/// Whether `name` is the first of the index's field names that `fs` lacks.
pub open spec fn first_missing(fs: Seq<(Seq<char>, FieldKind)>, name: Seq<char>) -> bool {
    exists|k: int|
        0 <= k < 5 && name == index_field_names()[k] && !has_field(fs, index_field_names()[k])
            && forall|j: int| 0 <= j < k ==> has_field(fs, #[trigger] index_field_names()[j])
}

/// A field of the index that a schema lacks.
#[derive(Debug, Clone, PartialEq, Eq)]
pub struct MissingField {
    pub name: String,
}

fn lookup(schema: &::tantivy::schema::Schema, name: &str) -> (r: Result<u32, MissingField>)
    ensures
        match r {
            Ok(id) => names(schema_fields(*schema), id, name@),
            Err(e) => e.name@ == name@ && !has_field(schema_fields(*schema), name@),
        },
{
    match field_id(schema, name) {
        Some(id) => Ok(id),
        None => Err(MissingField { name: name.to_string() }),
    }
}

impl Fields {
    /// The handles of the index's fields in `schema`, looked up by name; the
    /// first field (in schema order) that it lacks is an error. On the schema
    /// that [`build_schema`] makes, these are the handles that it returns.
    pub fn from_schema(schema: &::tantivy::schema::Schema) -> (r: Result<Fields, MissingField>)
        ensures
            match r {
                Ok(f) => handles_of(schema_fields(*schema), f),
                Err(e) => first_missing(schema_fields(*schema), e.name@),
            },
            r is Ok <==> (forall|k: int|
                0 <= k < 5 ==> has_field(schema_fields(*schema), #[trigger] index_field_names()[k])),
            schema_fields(*schema) == index_schema() ==> r == Ok::<Fields, MissingField>(
                Fields { doc_path: 0, header: 1, tags: 2, body: 3, line_start: 4 },
            ),
    {
        let ghost fs = schema_fields(*schema);
        proof {
            reveal_strlit("doc_path");
            reveal_strlit("header");
            reveal_strlit("tags");
            reveal_strlit("body");
            reveal_strlit("line_start");
        }
        let ghost n = index_field_names();
        assert(n[0] == "doc_path"@ && n[1] == "header"@ && n[2] == "tags"@ && n[3] == "body"@
            && n[4] == "line_start"@);
        let r = match lookup(schema, "doc_path") {
            Err(e) => {
                assert(first_missing(fs, e.name@)) by {
                    assert(forall|j: int| 0 <= j < 0 ==> has_field(fs, #[trigger] n[j]));
                }
                Err(e)
            },
            Ok(doc_path) => match lookup(schema, "header") {
                Err(e) => {
                    assert(has_field(fs, n[0])) by { assert(fs[doc_path as int].0 == n[0]); }
                    assert(first_missing(fs, e.name@)) by {
                        assert(forall|j: int| 0 <= j < 1 ==> has_field(fs, #[trigger] n[j]));
                    }
                    Err(e)
                },
                Ok(header) => match lookup(schema, "tags") {
                    Err(e) => {
                        assert(has_field(fs, n[0])) by { assert(fs[doc_path as int].0 == n[0]); }
                        assert(has_field(fs, n[1])) by { assert(fs[header as int].0 == n[1]); }
                        assert(first_missing(fs, e.name@)) by {
                            assert(forall|j: int| 0 <= j < 2 ==> has_field(fs, #[trigger] n[j]));
                        }
                        Err(e)
                    },
                    Ok(tags) => match lookup(schema, "body") {
                        Err(e) => {
                            assert(has_field(fs, n[0])) by { assert(fs[doc_path as int].0 == n[0]); }
                            assert(has_field(fs, n[1])) by { assert(fs[header as int].0 == n[1]); }
                            assert(has_field(fs, n[2])) by { assert(fs[tags as int].0 == n[2]); }
                            assert(first_missing(fs, e.name@)) by {
                                assert(forall|j: int| 0 <= j < 3 ==> has_field(fs, #[trigger] n[j]));
                            }
                            Err(e)
                        },
                        Ok(body) => match lookup(schema, "line_start") {
                            Err(e) => {
                                assert(has_field(fs, n[0])) by { assert(fs[doc_path as int].0 == n[0]); }
                                assert(has_field(fs, n[1])) by { assert(fs[header as int].0 == n[1]); }
                                assert(has_field(fs, n[2])) by { assert(fs[tags as int].0 == n[2]); }
                                assert(has_field(fs, n[3])) by { assert(fs[body as int].0 == n[3]); }
                                assert(first_missing(fs, e.name@)) by {
                                    assert(forall|j: int| 0 <= j < 4 ==> has_field(fs, #[trigger] n[j]));
                                }
                                Err(e)
                            },
                            Ok(line_start) => Ok(Fields { doc_path, header, tags, body, line_start }),
                        },
                    },
                },
            },
        };
        proof {
            if r is Ok {
                let f = r->Ok_0;
                assert(fs[f.doc_path as int].0 == n[0]);
                assert(fs[f.header as int].0 == n[1]);
                assert(fs[f.tags as int].0 == n[2]);
                assert(fs[f.body as int].0 == n[3]);
                assert(fs[f.line_start as int].0 == n[4]);
                assert forall|k: int| 0 <= k < 5 implies has_field(fs, #[trigger] n[k]) by {
                    if k == 0 { assert(fs[f.doc_path as int].0 == n[0]); }
                    if k == 1 { assert(fs[f.header as int].0 == n[1]); }
                    if k == 2 { assert(fs[f.tags as int].0 == n[2]); }
                    if k == 3 { assert(fs[f.body as int].0 == n[3]); }
                    if k == 4 { assert(fs[f.line_start as int].0 == n[4]); }
                }
                if fs == index_schema() {
                    lemma_index_schema_positions(f);
                }
            } else {
                let e = r->Err_0;
                let k = choose|k: int|
                    0 <= k < 5 && e.name@ == n[k] && !has_field(fs, n[k])
                        && forall|j: int| 0 <= j < k ==> has_field(fs, #[trigger] n[j]);
                assert(!has_field(fs, n[k]));
                if fs == index_schema() {
                    assert(fs[k].0 == n[k]);
                    assert(has_field(fs, n[k]));
                }
            }
        }
        r
    }
}

/// In the index schema, each field name is at exactly one position.
proof fn lemma_index_schema_positions(f: Fields)
    requires
        handles_of(index_schema(), f),
    ensures
        f == (Fields { doc_path: 0, header: 1, tags: 2, body: 3, line_start: 4 }),
{
    reveal_strlit("doc_path");
    reveal_strlit("header");
    reveal_strlit("tags");
    reveal_strlit("body");
    reveal_strlit("line_start");
    let s = index_schema();
    assert(s[0].0.len() == 8 && s[1].0.len() == 6 && s[2].0.len() == 4 && s[3].0.len() == 4
        && s[4].0.len() == 10);
    assert(s[2].0[0] != s[3].0[0]);
}

/// The searcher's hit limit for a requested cap: zero means the default,
/// never "unbounded".
pub fn search_limit(max_hits: usize) -> (limit: usize)
    ensures
        limit == if max_hits == 0 {
            DEFAULT_MAX_HITS
        } else {
            max_hits
        },
        limit > 0,
{
    if max_hits == 0 {
        DEFAULT_MAX_HITS
    } else {
        max_hits
    }
}

/// The values one section is indexed with.
#[derive(Debug, Clone, PartialEq, Eq)]
pub struct IndexRecord {
    pub doc_path: String,
    pub header: String,
    pub tags: String,
    pub body: String,
    pub line_start: u64,
}

/// The mathematical value of an [`IndexRecord`].
pub struct IndexRecordSpec {
    pub doc_path: Seq<char>,
    pub header: Seq<char>,
    pub tags: Seq<char>,
    pub body: Seq<char>,
    pub line_start: int,
}

impl View for IndexRecord {
    type V = IndexRecordSpec;

    open spec fn view(&self) -> IndexRecordSpec {
        IndexRecordSpec {
            doc_path: self.doc_path@,
            header: self.header@,
            tags: self.tags@,
            body: self.body@,
            line_start: self.line_start as int,
        }
    }
}

/// The record a section of the document at `path` is indexed with: an absent
/// header as empty text, the tags joined with spaces.
pub open spec fn record_of(path: Seq<char>, s: SectionSpec) -> IndexRecordSpec {
    IndexRecordSpec {
        doc_path: path,
        header: or_text(s.header, seq![]),
        tags: join_words(s.tags),
        body: s.body,
        line_start: s.line_start,
    }
}

fn record_for(path: &String, s: &Section) -> (r: IndexRecord)
    ensures
        r@ == record_of(path@, s@),
{
    let header = match &s.header {
        Some(h) => h.clone(),
        None => String::new(),
    };
    IndexRecord {
        doc_path: path.clone(),
        header,
        tags: join_with_spaces(&s.tags),
        body: s.body.clone(),
        line_start: s.line_start as u64,
    }
}

/// The records of every section of a document, in order: one indexed
/// document per section.
pub fn section_records(document: &Document) -> (records: Vec<IndexRecord>)
    ensures
        records@.len() == document.sections@.len(),
        forall|i: int|
            0 <= i < records@.len() ==> (#[trigger] records@[i])@ == record_of(
                document.path@,
                document.sections@[i]@,
            ),
        forall|i: int|
            0 <= i < records@.len() ==> {
                &&& (#[trigger] records@[i]).doc_path@ == document.path@
                &&& records@[i].body@ == document.sections@[i].body@
                &&& records@[i].line_start == document.sections@[i].line_start
                &&& records@[i].tags@ == join_words(strs(document.sections@[i].tags@))
                &&& records@[i].header@ == match document.sections@[i].header {
                    Some(h) => h@,
                    None => Seq::<char>::empty(),
                }
            },
{
    let mut records: Vec<IndexRecord> = Vec::new();
    let mut i: usize = 0;
    while i < document.sections.len()
        invariant
            i <= document.sections@.len(),
            records@.len() == i,
            forall|j: int|
                0 <= j < i ==> (#[trigger] records@[j])@ == record_of(
                    document.path@,
                    document.sections@[j]@,
                ),
        decreases document.sections@.len() - i,
    {
        let r = record_for(&document.path, &document.sections[i]);
        records.push(r);
        i = i + 1;
    }
    records
}

/// The stored values of one indexed section, as read back for a hit.
#[derive(Debug, Clone, PartialEq, Eq)]
pub struct StoredHit {
    pub doc_path: Option<String>,
    pub header: Option<String>,
    pub tags: Option<String>,
    pub body: Option<String>,
    pub line_start: Option<u64>,
}

/// A hit as the domain sees it, apart from its score.
#[derive(Debug, Clone, PartialEq, Eq)]
pub struct ShapedHit {
    pub document: String,
    pub tag: Option<String>,
    pub section_header: Option<String>,
    pub line: usize,
    pub snippet: String,
}

/// The text of `o`, or empty text when there is none.
pub open spec fn or_empty(o: Option<String>) -> Seq<char> {
    match o {
        Some(s) => s@,
        None => seq![],
    }
}

/// The snippet of a body: the body itself, or its first 240 characters and
/// `…` when it is longer.
pub open spec fn snippet_of(body: Seq<char>) -> Seq<char> {
    if body.len() > SNIPPET_CHARS {
        body.take(SNIPPET_CHARS as int) + "\u{2026}"@
    } else {
        body
    }
}

fn snippet(body: &str) -> (s: String)
    ensures
        s@ == snippet_of(body@),
{
    let chars = chars_of(body);
    if chars.len() > SNIPPET_CHARS {
        let head = slice_vec(chars.as_slice(), 0, SNIPPET_CHARS);
        let mut s = string_of(head.as_slice());
        s.append("\u{2026}");
        proof {
            assert(head@ == body@.take(SNIPPET_CHARS as int));
        }
        s
    } else {
        body.to_owned()
    }
}

/// Reads one stored section back as a hit: the path (empty when absent), a
/// non-empty header, the section's first tag, the line (0 when absent) and a
/// snippet of the body.
pub fn shape_hit(stored: &StoredHit) -> (h: ShapedHit)
    ensures
        h.document@ == or_empty(stored.doc_path),
        opt_view(h.tag) == first_word(or_empty(stored.tags)),
        opt_view(h.section_header) == match stored.header {
            Some(x) => if x@.len() > 0 {
                Some(x@)
            } else {
                None
            },
            None => None,
        },
        h.line == match stored.line_start {
            Some(n) => n as usize,
            None => 0usize,
        },
        h.snippet@ == snippet_of(or_empty(stored.body)),
        or_empty(stored.body).len() <= SNIPPET_CHARS ==> h.snippet@ == or_empty(stored.body),
        or_empty(stored.body).len() > SNIPPET_CHARS ==> {
            &&& h.snippet@.len() == SNIPPET_CHARS + 1
            &&& h.snippet@.take(SNIPPET_CHARS as int) == or_empty(stored.body).take(
                SNIPPET_CHARS as int,
            )
            &&& h.snippet@.last() == '\u{2026}'
        },
{
    let document = match &stored.doc_path {
        Some(p) => p.clone(),
        None => String::new(),
    };
    let section_header = match &stored.header {
        Some(x) => if x.as_str().is_empty() {
            None
        } else {
            Some(x.clone())
        },
        None => None,
    };
    let tag = match &stored.tags {
        Some(t) => first_word_of(t.as_str()),
        None => first_word_of(""),
    };
    proof {
        reveal_strlit("");
        assert(""@ =~= Seq::<char>::empty());
    }
    let line: usize = match stored.line_start {
        Some(n) => n as usize,
        None => 0,
    };
    let snip = match &stored.body {
        Some(b) => snippet(b.as_str()),
        None => snippet(""),
    };
    proof {
        let b = or_empty(stored.body);
        law_snippet_is_body_prefix(b);
        if b.len() > SNIPPET_CHARS {
            assert(snip@.take(SNIPPET_CHARS as int) =~= b.take(SNIPPET_CHARS as int));
        }
    }
    ShapedHit { document, tag, section_header, line, snippet: snip }
}

/// Law: the schema indexes `doc_path` as one exact string, `header`, `tags`
/// and `body` as tokenized full text (so single words of them match), and
/// `line_start` as a stored integer; these are its only fields.
pub proof fn law_schema_field_kinds()
    ensures
        index_schema().len() == 5,
        forall|i: int|
            0 <= i < index_schema().len() ==> {
                &&& (#[trigger] index_schema()[i]).0 == "doc_path"@ ==> index_schema()[i].1
                    == FieldKind::Exact
                &&& (index_schema()[i].0 == "header"@ || index_schema()[i].0 == "tags"@
                    || index_schema()[i].0 == "body"@) ==> index_schema()[i].1 == FieldKind::Text
                &&& index_schema()[i].0 == "line_start"@ ==> index_schema()[i].1 == FieldKind::U64
            },
        has_field(index_schema(), "doc_path"@),
        has_field(index_schema(), "header"@),
        has_field(index_schema(), "tags"@),
        has_field(index_schema(), "body"@),
        has_field(index_schema(), "line_start"@),
{
    reveal_strlit("doc_path");
    reveal_strlit("header");
    reveal_strlit("tags");
    reveal_strlit("body");
    reveal_strlit("line_start");
    let s = index_schema();
    assert(s[0].0.len() == 8 && s[1].0.len() == 6 && s[2].0.len() == 4 && s[3].0.len() == 4
        && s[4].0.len() == 10);
    assert(s[2].0[0] != s[3].0[0]);
    assert(s[0].0 == "doc_path"@ && s[1].0 == "header"@ && s[2].0 == "tags"@ && s[3].0 == "body"@
        && s[4].0 == "line_start"@);
}

/// Law: a section is indexed with the document's path, its own body verbatim,
/// its own line, its tags joined with spaces, and its header (empty text when
/// it has none) — whatever the other fields hold.
pub proof fn law_record_keeps_section_fields(path: Seq<char>, s: SectionSpec)
    ensures
        record_of(path, s).doc_path == path,
        record_of(path, s).body == s.body,
        record_of(path, s).line_start == s.line_start,
        record_of(path, s).tags == join_words(s.tags),
        s.header matches Some(h) ==> record_of(path, s).header == h,
        s.header is None ==> record_of(path, s).header == Seq::<char>::empty(),
{
}

/// Law: a snippet is made of the body's own characters — the whole body when
/// it has at most 240 characters, and otherwise exactly its first 240
/// characters followed by one `…`.
pub proof fn law_snippet_is_body_prefix(body: Seq<char>)
    ensures
        body.len() <= SNIPPET_CHARS ==> snippet_of(body) == body,
        body.len() > SNIPPET_CHARS ==> {
            &&& snippet_of(body).len() == SNIPPET_CHARS + 1
            &&& forall|i: int| 0 <= i < SNIPPET_CHARS ==> #[trigger] snippet_of(body)[i] == body[i]
            &&& snippet_of(body)[SNIPPET_CHARS as int] == '\u{2026}'
        },
{
    reveal_strlit("\u{2026}");
}

} // verus!
