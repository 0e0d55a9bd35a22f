//! The `build` subcommand's decisions about its corpus.
//!
//! `--docs` is repeatable: every occurrence adds one glob, and the union of
//! the resolved paths, sorted and without repeats, becomes the corpus.

use crate::paths::{
    Part, distinct_paths, order_parts, part_views, path_parts, path_parts_of, same_path,
    sort_paths, sorted_paths,
};
use crate::adapters::manifest::ManifestDiff;
use crate::domain::Document;
use crate::text::{debug_quoted, debug_text, decimal, decimal_string, lemma_push_contains, strs};
use vstd::prelude::*;

verus! {

/// Whether `s[k]` is the first of `s` to name its path.
pub open spec fn first_occurrence(s: Seq<Seq<char>>, k: int) -> bool {
    0 <= k < s.len() && forall|j: int| 0 <= j < k ==> !same_path(#[trigger] s[j], s[k])
}

/// Whether `p` is the first of `s` to name its path.
pub open spec fn kept_path(s: Seq<Seq<char>>, p: Seq<char>) -> bool {
    exists|k: int| first_occurrence(s, k) && #[trigger] s[k] == p
}

/// Whether `q` is, among the first `i` paths of `s`, the first to name its path.
pub open spec fn first_below(s: Seq<Seq<char>>, i: int, q: Seq<char>) -> bool {
    exists|k: int| 0 <= k < i && first_occurrence(s, k) && #[trigger] s[k] == q
}

proof fn lemma_first_below_step(s: Seq<Seq<char>>, i: int)
    requires
        0 <= i < s.len(),
    ensures
        forall|q: Seq<char>|
            #[trigger] first_below(s, i + 1, q) <==> (first_below(s, i, q) || (first_occurrence(s, i)
                && s[i] == q)),
{
    assert forall|q: Seq<char>|
        #[trigger] first_below(s, i + 1, q) <==> (first_below(s, i, q) || (first_occurrence(s, i)
            && s[i] == q)) by {
        if first_below(s, i + 1, q) {
            let k = choose|k: int| 0 <= k < i + 1 && first_occurrence(s, k) && #[trigger] s[k] == q;
            if k < i {
                assert(first_below(s, i, q));
            }
        }
        if first_occurrence(s, i) && s[i] == q {
            assert(first_occurrence(s, i) && s[i] == q);
        }
    }
}

/// The union of the files matched by every glob, in path order and without
/// repeats: of several paths that name the same file, the first found is
/// kept. (Sorting keeps build output stable across filesystems that walk in
/// different orders; deduplication handles overlapping globs.)
pub fn union_paths(found: &Vec<String>) -> (r: Vec<String>)
    ensures
        sorted_paths(strs(r@)),
        forall|p: Seq<char>| strs(r@).contains(p) <==> kept_path(strs(found@), p),
{
    let ghost all = strs(found@);
    let mut kept: Vec<String> = Vec::new();
    let mut kept_parts: Vec<Vec<Part>> = Vec::new();
    let mut i: usize = 0;
    while i < found.len()
        invariant
            all == strs(found@),
            i <= found@.len(),
            kept@.len() == kept_parts@.len(),
            forall|m: int|
                0 <= m < kept_parts@.len() ==> part_views(#[trigger] kept_parts@[m]@) == path_parts(
                    kept@[m]@,
                ),
            distinct_paths(strs(kept@)),
            forall|q: Seq<char>| #[trigger] strs(kept@).contains(q) <==> first_below(all, i as int, q),
            forall|j: int|
                0 <= j < i ==> exists|m: int|
                    0 <= m < kept@.len() && same_path(#[trigger] all[j], kept@[m]@),
        decreases found@.len() - i,
    {
        let p = found[i].clone();
        let parts = path_parts_of(p.as_str());
        let mut m: usize = 0;
        let mut seen = false;
        while m < kept_parts.len()
            invariant
                kept@.len() == kept_parts@.len(),
                forall|t: int|
                    0 <= t < kept_parts@.len() ==> part_views(#[trigger] kept_parts@[t]@)
                        == path_parts(kept@[t]@),
                part_views(parts@) == path_parts(p@),
                m <= kept_parts@.len(),
                !seen ==> forall|t: int| 0 <= t < m ==> !same_path(#[trigger] kept@[t]@, p@),
                seen ==> exists|t: int| 0 <= t < kept@.len() && same_path(#[trigger] kept@[t]@, p@),
            decreases kept_parts@.len() - m,
        {
            if order_parts(&kept_parts[m], &parts) == 0 {
                assert(same_path(kept@[m as int]@, p@));
                seen = true;
            }
            m = m + 1;
        }
        proof {
            assert(all[i as int] == p@);
            if seen {
                let t = choose|t: int| 0 <= t < kept@.len() && same_path(#[trigger] kept@[t]@, p@);
                assert(strs(kept@).contains(kept@[t]@)) by {
                    assert(strs(kept@)[t] == kept@[t]@);
                }
                let k = choose|k: int|
                    0 <= k < i && first_occurrence(all, k) && #[trigger] all[k] == kept@[t]@;
                assert(!first_occurrence(all, i as int)) by {
                    assert(same_path(all[k], all[i as int]));
                }
            } else {
                assert forall|j: int| 0 <= j < i implies !same_path(#[trigger] all[j], all[i as int]) by {
                    let t = choose|t: int| 0 <= t < kept@.len() && same_path(#[trigger] all[j], kept@[t]@);
                    assert(!same_path(kept@[t]@, p@));
                }
                assert(first_occurrence(all, i as int));
            }
        }
        let ghost prev = strs(kept@);
        let ghost prev_kept = kept@;
        if !seen {
            proof {
                assert(strs(kept@.push(p)) == prev.push(p@));
                assert forall|a: int, b: int|
                    0 <= a < prev.len() + 1 && 0 <= b < prev.len() + 1 && a != b implies !same_path(
                    #[trigger] prev.push(p@)[a],
                    #[trigger] prev.push(p@)[b],
                ) by {
                    if a == prev.len() {
                        assert(prev[b] == kept@[b]@);
                    } else if b == prev.len() {
                        assert(prev[a] == kept@[a]@);
                    }
                }
            }
            kept.push(p);
            kept_parts.push(parts);
        }
        proof {
            lemma_first_below_step(all, i as int);
            lemma_push_contains(prev, all[i as int]);
            if seen {
                assert(strs(kept@) == prev);
            } else {
                assert(strs(kept@) == prev.push(all[i as int]));
            }
            assert forall|j: int| 0 <= j < i + 1 implies exists|m: int|
                0 <= m < kept@.len() && same_path(#[trigger] all[j], kept@[m]@) by {
                if j < i {
                    let m = choose|m: int| 0 <= m < prev_kept.len() && same_path(#[trigger] all[j], prev_kept[m]@);
                    assert(kept@[m] == prev_kept[m]);
                } else if seen {
                    let t = choose|t: int| 0 <= t < prev_kept.len() && same_path(#[trigger] prev_kept[t]@, p@);
                    assert(kept@[t] == prev_kept[t]);
                    assert(same_path(all[j], kept@[t]@));
                } else {
                    assert(kept@[prev_kept.len() as int]@ == p@);
                    assert(same_path(all[j], kept@[prev_kept.len() as int]@));
                }
            }
        }
        i = i + 1;
    }
    proof {
        assert forall|q: Seq<char>| first_below(all, all.len() as int, q) <==> kept_path(all, q) by {
            if kept_path(all, q) {
                let k = choose|k: int| first_occurrence(all, k) && #[trigger] all[k] == q;
                assert(0 <= k < all.len() && first_occurrence(all, k) && all[k] == q);
            }
        }
    }
    sort_paths(&kept)
}

/// The `{:?}` rendering of a list of strings: each quoted, comma-separated,
/// in square brackets.
pub open spec fn debug_list(items: Seq<Seq<char>>) -> Seq<char> {
    "["@ + debug_items(items) + "]"@
}

/// The quoted items of a list, comma-separated.
pub open spec fn debug_items(items: Seq<Seq<char>>) -> Seq<char>
    decreases items.len(),
{
    if items.len() == 0 {
        seq![]
    } else if items.len() == 1 {
        debug_text(items[0])
    } else {
        debug_items(items.drop_last()) + ", "@ + debug_text(items.last())
    }
}

/// The error when no glob matched a file.
pub fn no_match_message(globs: &Vec<String>) -> (m: String)
    ensures
        m@ == "no files matched any --docs pattern (checked "@ + decimal(globs@.len() as nat)
            + " glob(s): "@ + debug_list(strs(globs@)) + ")"@,
{
    let ghost all = strs(globs@);
    let mut items = String::new();
    let mut i: usize = 0;
    while i < globs.len()
        invariant
            all == strs(globs@),
            i <= globs@.len(),
            items@ == debug_items(all.take(i as int)),
        decreases globs@.len() - i,
    {
        let ghost before = items@;
        if i > 0 {
            items.append(", ");
        }
        let q = debug_quoted(globs[i].as_str());
        items.append(q.as_str());
        proof {
            let t = all.take(i + 1);
            assert(t.drop_last() == all.take(i as int));
            assert(t.last() == globs@[i as int]@);
            if i == 0 {
                assert(before == Seq::<char>::empty());
                assert(items@ == debug_text(t[0]));
            } else {
                assert(items@ == before + ", "@ + debug_text(t.last()));
            }
        }
        i = i + 1;
    }
    assert(all.take(globs@.len() as int) == all);
    let mut m = "no files matched any --docs pattern (checked ".to_owned();
    m.append(decimal_string(globs.len()).as_str());
    m.append(" glob(s): [");
    m.append(items.as_str());
    m.append("])");
    proof {
        reveal_strlit(" glob(s): [");
        reveal_strlit(" glob(s): ");
        reveal_strlit("[");
        reveal_strlit("])");
        reveal_strlit("]");
        reveal_strlit(")");
        assert(" glob(s): ["@ == " glob(s): "@ + "["@);
        assert("])"@ == "]"@ + ")"@);
        assert(m@ =~= "no files matched any --docs pattern (checked "@ + decimal(globs@.len() as nat)
            + " glob(s): "@ + debug_list(all) + ")"@);
    }
    m
}

/// The number of sections of all documents.
pub open spec fn sections_total(docs: Seq<Document>) -> int
    decreases docs.len(),
{
    if docs.len() == 0 {
        0
    } else {
        sections_total(docs.drop_last()) + docs.last().sections@.len()
    }
}

/// Counts the sections of all documents (which, held in memory, number no
/// more than `usize::MAX`).
pub fn section_count(docs: &Vec<Document>) -> (n: usize)
    requires
        sections_total(docs@) <= usize::MAX,
    ensures
        n == sections_total(docs@),
{
    let mut n: usize = 0;
    let mut i: usize = 0;
    while i < docs.len()
        invariant
            i <= docs@.len(),
            sections_total(docs@) <= usize::MAX,
            n == sections_total(docs@.take(i as int)),
        decreases docs@.len() - i,
    {
        proof {
            let t = docs@.take(i + 1);
            assert(t.drop_last() == docs@.take(i as int));
            assert(t.last() == docs@[i as int]);
            lemma_sections_total_prefix(docs@, i + 1);
        }
        n = n + docs[i].sections.len();
        i = i + 1;
    }
    assert(docs@.take(docs@.len() as int) == docs@);
    n
}

proof fn lemma_sections_total_prefix(docs: Seq<Document>, k: int)
    requires
        0 <= k <= docs.len(),
    ensures
        sections_total(docs.take(k)) <= sections_total(docs),
    decreases docs.len() - k,
{
    if k < docs.len() {
        lemma_sections_total_prefix(docs, k + 1);
        assert(docs.take(k + 1).drop_last() == docs.take(k));
    } else {
        assert(docs.take(k) == docs);
    }
}

/// The report of a full build.
pub fn full_build_summary(sections: usize, files: usize, out_dir: &str) -> (m: String)
    ensures
        m@ == "Indexed "@ + decimal(sections as nat) + " section(s) from "@ + decimal(files as nat)
            + " file(s) \u{2192} "@ + out_dir@,
{
    let mut m = "Indexed ".to_owned();
    m.append(decimal_string(sections).as_str());
    m.append(" section(s) from ");
    m.append(decimal_string(files).as_str());
    m.append(" file(s) \u{2192} ");
    m.append(out_dir);
    m
}

/// The notice that an incremental build found no usable manifest.
pub fn no_prior_manifest_message(out_dir: &str) -> (m: String)
    ensures
        m@ == "no prior manifest at "@ + out_dir@ + " \u{2014} running full build"@,
{
    let mut m = "no prior manifest at ".to_owned();
    m.append(out_dir);
    m.append(" \u{2014} running full build");
    m
}

/// The report of an incremental build that found nothing to do.
pub fn no_changes_message(out_dir: &str, unchanged: usize) -> (m: String)
    ensures
        m@ == "Incremental update at "@ + out_dir@ + ": no changes ("@ + decimal(unchanged as nat)
            + " unchanged)"@,
{
    let mut m = "Incremental update at ".to_owned();
    m.append(out_dir);
    m.append(": no changes (");
    m.append(decimal_string(unchanged).as_str());
    m.append(" unchanged)");
    m
}

/// The report of an incremental build: how many files were new, changed,
/// removed and unchanged.
pub fn incremental_summary(out_dir: &str, d: &ManifestDiff) -> (m: String)
    ensures
        m@ == "Incremental update at "@ + out_dir@ + ":\n"@ + "  new:       "@ + decimal(
            d.new@.len() as nat,
        ) + "\n"@ + "  changed:   "@ + decimal(d.changed@.len() as nat) + "\n"@ + "  removed:   "@
            + decimal(d.removed@.len() as nat) + "\n"@ + "  unchanged: "@ + decimal(
            d.unchanged@.len() as nat,
        ),
{
    let mut m = "Incremental update at ".to_owned();
    m.append(out_dir);
    m.append(":\n");
    m.append("  new:       ");
    m.append(decimal_string(d.new.len()).as_str());
    m.append("\n");
    m.append("  changed:   ");
    m.append(decimal_string(d.changed.len()).as_str());
    m.append("\n");
    m.append("  removed:   ");
    m.append(decimal_string(d.removed.len()).as_str());
    m.append("\n");
    m.append("  unchanged: ");
    m.append(decimal_string(d.unchanged.len()).as_str());
    m
}

} // verus!
