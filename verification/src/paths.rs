//! Path identity and order, component by component.
//!
//! Two paths name the same key when their components agree (`a//b`, `a/./b`
//! and `a/b/` are all `a/b`), and paths sort by their components, as
//! `std::path::Path` compares them on Unix: a root, a leading `.`, `..`, and
//! names, with names ordered character by character.

use crate::text::{chars_of, strs};
use vstd::prelude::*;

verus! {

/// One component of a path.
pub enum PathPart {
    Root,
    Cur,
    Parent,
    Normal(Seq<char>),
}

/// One component of a path, as held at run time.
#[derive(Debug)]
pub enum Part {
    Root,
    Cur,
    Parent,
    Normal(Vec<char>),
}

impl View for Part {
    type V = PathPart;

    open spec fn view(&self) -> PathPart {
        match self {
            Part::Root => PathPart::Root,
            Part::Cur => PathPart::Cur,
            Part::Parent => PathPart::Parent,
            Part::Normal(v) => PathPart::Normal(v@),
        }
    }
}

/// Views of a sequence of run-time components.
pub open spec fn part_views(v: Seq<Part>) -> Seq<PathPart> {
    v.map_values(|p: Part| p@)
}

/// The component a segment between separators stands for: none for an empty
/// segment or `.`.
pub open spec fn seg_part(seg: Seq<char>) -> Option<PathPart> {
    if seg.len() == 0 || seg == seq!['.'] {
        None
    } else if seg == seq!['.', '.'] {
        Some(PathPart::Parent)
    } else {
        Some(PathPart::Normal(seg))
    }
}

/// `ps` followed by the component of `seg`, if it has one.
pub open spec fn push_seg(ps: Seq<PathPart>, seg: Seq<char>) -> Seq<PathPart> {
    match seg_part(seg) {
        Some(p) => ps.push(p),
        None => ps,
    }
}

/// Reading the body of a path: the components of the segments closed by a
/// `/` so far, and the segment still open.
pub open spec fn body_scan(s: Seq<char>) -> (Seq<PathPart>, Seq<char>)
    decreases s.len(),
{
    if s.len() == 0 {
        (seq![], seq![])
    } else {
        let (ps, cur) = body_scan(s.drop_last());
        if s.last() == '/' {
            (push_seg(ps, cur), seq![])
        } else {
            (ps, cur.push(s.last()))
        }
    }
}

/// The components of the body of a path.
pub open spec fn body_parts(s: Seq<char>) -> Seq<PathPart> {
    let (ps, cur) = body_scan(s);
    push_seg(ps, cur)
}

/// Whether the path starts at the root.
pub open spec fn has_root(s: Seq<char>) -> bool {
    s.len() > 0 && s[0] == '/'
}

/// Whether a relative path starts with a `.` component.
pub open spec fn has_cur(s: Seq<char>) -> bool {
    !has_root(s) && s.len() > 0 && s[0] == '.' && (s.len() == 1 || s[1] == '/')
}

/// The components of a path.
pub open spec fn path_parts(s: Seq<char>) -> Seq<PathPart> {
    if has_root(s) {
        seq![PathPart::Root] + body_parts(s.drop_first())
    } else if has_cur(s) {
        seq![PathPart::Cur] + body_parts(s.drop_first())
    } else {
        body_parts(s)
    }
}

/// Strict lexicographic order of character sequences, by code point.
pub open spec fn chars_lt(a: Seq<char>, b: Seq<char>) -> bool
    decreases a.len(),
{
    if a.len() == 0 {
        b.len() > 0
    } else if b.len() == 0 {
        false
    } else if a[0] != b[0] {
        a[0] < b[0]
    } else {
        chars_lt(a.drop_first(), b.drop_first())
    }
}

/// The rank of a component kind: root, then `.`, then `..`, then names.
pub open spec fn rank(p: PathPart) -> int {
    match p {
        PathPart::Root => 1,
        PathPart::Cur => 2,
        PathPart::Parent => 3,
        PathPart::Normal(_) => 4,
    }
}

/// Strict order of components.
pub open spec fn part_lt(a: PathPart, b: PathPart) -> bool {
    ||| rank(a) < rank(b)
    ||| (a matches PathPart::Normal(x) && b matches PathPart::Normal(y) && chars_lt(x, y))
}

/// Strict lexicographic order of component sequences.
pub open spec fn parts_lt(a: Seq<PathPart>, b: Seq<PathPart>) -> bool
    decreases a.len(),
{
    if a.len() == 0 {
        b.len() > 0
    } else if b.len() == 0 {
        false
    } else if a[0] != b[0] {
        part_lt(a[0], b[0])
    } else {
        parts_lt(a.drop_first(), b.drop_first())
    }
}

/// Whether two paths name the same thing.
pub open spec fn same_path(a: Seq<char>, b: Seq<char>) -> bool {
    path_parts(a) == path_parts(b)
}

/// Strict order of paths.
pub open spec fn path_lt(a: Seq<char>, b: Seq<char>) -> bool {
    parts_lt(path_parts(a), path_parts(b))
}

pub proof fn lemma_chars_lt_order(a: Seq<char>, b: Seq<char>, c: Seq<char>)
    ensures
        !chars_lt(a, a),
        a != b ==> chars_lt(a, b) || chars_lt(b, a),
        !(chars_lt(a, b) && chars_lt(b, a)),
        chars_lt(a, b) && chars_lt(b, c) ==> chars_lt(a, c),
    decreases a.len(),
{
    if a.len() > 0 && b.len() > 0 && c.len() > 0 {
        lemma_chars_lt_order(a.drop_first(), b.drop_first(), c.drop_first());
    } else if a.len() > 0 && b.len() > 0 {
        lemma_chars_lt_order(a.drop_first(), b.drop_first(), b.drop_first());
    } else if a.len() > 0 {
        lemma_chars_lt_order(a.drop_first(), a.drop_first(), a.drop_first());
    }
    if a.len() > 0 && b.len() > 0 && a[0] == b[0] && a.drop_first() == b.drop_first() {
        assert(a == b) by {
            assert(a =~= seq![a[0]] + a.drop_first());
            assert(b =~= seq![b[0]] + b.drop_first());
        }
    }
    if a.len() == 0 && b.len() == 0 {
        assert(a =~= b);
    }
}

pub proof fn lemma_part_lt_order(a: PathPart, b: PathPart, c: PathPart)
    ensures
        !part_lt(a, a),
        a != b ==> part_lt(a, b) || part_lt(b, a),
        !(part_lt(a, b) && part_lt(b, a)),
        part_lt(a, b) && part_lt(b, c) ==> part_lt(a, c),
{
    match (a, b, c) {
        (PathPart::Normal(x), PathPart::Normal(y), PathPart::Normal(z)) => {
            lemma_chars_lt_order(x, y, z);
        },
        (PathPart::Normal(x), PathPart::Normal(y), _) => {
            lemma_chars_lt_order(x, y, y);
        },
        (PathPart::Normal(x), _, _) => {
            lemma_chars_lt_order(x, x, x);
        },
        _ => {},
    }
}

pub proof fn lemma_parts_lt_order(a: Seq<PathPart>, b: Seq<PathPart>, c: Seq<PathPart>)
    ensures
        !parts_lt(a, a),
        a != b ==> parts_lt(a, b) || parts_lt(b, a),
        !(parts_lt(a, b) && parts_lt(b, a)),
        parts_lt(a, b) && parts_lt(b, c) ==> parts_lt(a, c),
    decreases a.len(),
{
    if a.len() > 0 && b.len() > 0 && c.len() > 0 {
        lemma_part_lt_order(a[0], b[0], c[0]);
        lemma_parts_lt_order(a.drop_first(), b.drop_first(), c.drop_first());
    } else if a.len() > 0 && b.len() > 0 {
        lemma_part_lt_order(a[0], b[0], b[0]);
        lemma_parts_lt_order(a.drop_first(), b.drop_first(), b.drop_first());
    } else if a.len() > 0 {
        lemma_part_lt_order(a[0], a[0], a[0]);
        lemma_parts_lt_order(a.drop_first(), a.drop_first(), a.drop_first());
    }
    if a.len() > 0 && b.len() > 0 && a[0] == b[0] && a.drop_first() == b.drop_first() {
        assert(a == b) by {
            assert(a =~= seq![a[0]] + a.drop_first());
            assert(b =~= seq![b[0]] + b.drop_first());
        }
    }
    if a.len() == 0 && b.len() == 0 {
        assert(a =~= b);
    }
}

/// Path order is a strict total order on component sequences.
pub proof fn lemma_path_lt_order(a: Seq<char>, b: Seq<char>, c: Seq<char>)
    ensures
        !path_lt(a, a),
        !same_path(a, b) ==> path_lt(a, b) || path_lt(b, a),
        !(path_lt(a, b) && path_lt(b, a)),
        path_lt(a, b) && path_lt(b, c) ==> path_lt(a, c),
        same_path(a, b) ==> !path_lt(a, b),
{
    lemma_parts_lt_order(path_parts(a), path_parts(b), path_parts(c));
}

/// Compares two character sequences: negative, zero or positive as `a` is
/// before, equal to or after `b`.
pub fn order_chars(a: &Vec<char>, b: &Vec<char>) -> (r: i8)
    ensures
        r < 0 <==> chars_lt(a@, b@),
        r == 0 <==> a@ == b@,
        r > 0 <==> chars_lt(b@, a@),
{
    let mut i: usize = 0;
    while i < a.len() && i < b.len() && a[i] == b[i]
        invariant
            i <= a@.len(),
            i <= b@.len(),
            a@.take(i as int) == b@.take(i as int),
        decreases a@.len() - i,
    {
        i = i + 1;
        assert(a@.take(i as int) == a@.take(i - 1).push(a@[i - 1]));
        assert(b@.take(i as int) == b@.take(i - 1).push(b@[i - 1]));
    }
    proof {
        lemma_chars_lt_skip(a@, b@, i as int);
        lemma_chars_lt_order(a@, b@, b@);
        if a@ == b@ {
            assert(i == a@.len());
        }
        if i == a@.len() && i == b@.len() {
            assert(a@ == a@.take(i as int));
            assert(b@ == b@.take(i as int));
        }
    }
    if i == a.len() && i == b.len() {
        0
    } else if i == a.len() {
        -1
    } else if i == b.len() {
        1
    } else if a[i] < b[i] {
        -1
    } else {
        1
    }
}

proof fn lemma_chars_lt_skip(a: Seq<char>, b: Seq<char>, i: int)
    requires
        0 <= i <= a.len(),
        i <= b.len(),
        a.take(i) == b.take(i),
    ensures
        chars_lt(a, b) == chars_lt(a.skip(i), b.skip(i)),
    decreases i,
{
    if i > 0 {
        assert(a[0] == a.take(i)[0]);
        assert(b[0] == b.take(i)[0]);
        assert(a.drop_first().take(i - 1) == a.take(i).drop_first());
        assert(b.drop_first().take(i - 1) == b.take(i).drop_first());
        lemma_chars_lt_skip(a.drop_first(), b.drop_first(), i - 1);
        assert(a.drop_first().skip(i - 1) == a.skip(i));
        assert(b.drop_first().skip(i - 1) == b.skip(i));
    } else {
        assert(a.skip(0) == a);
        assert(b.skip(0) == b);
    }
}

proof fn lemma_parts_lt_skip(a: Seq<PathPart>, b: Seq<PathPart>, i: int)
    requires
        0 <= i <= a.len(),
        i <= b.len(),
        a.take(i) == b.take(i),
    ensures
        parts_lt(a, b) == parts_lt(a.skip(i), b.skip(i)),
    decreases i,
{
    if i > 0 {
        assert(a[0] == a.take(i)[0]);
        assert(b[0] == b.take(i)[0]);
        assert(a.drop_first().take(i - 1) == a.take(i).drop_first());
        assert(b.drop_first().take(i - 1) == b.take(i).drop_first());
        lemma_parts_lt_skip(a.drop_first(), b.drop_first(), i - 1);
        assert(a.drop_first().skip(i - 1) == a.skip(i));
        assert(b.drop_first().skip(i - 1) == b.skip(i));
    } else {
        assert(a.skip(0) == a);
        assert(b.skip(0) == b);
    }
}

/// Compares two components.
pub fn order_part(a: &Part, b: &Part) -> (r: i8)
    ensures
        r < 0 <==> part_lt(a@, b@),
        r == 0 <==> a@ == b@,
        r > 0 <==> part_lt(b@, a@),
{
    proof {
        lemma_part_lt_order(a@, b@, b@);
    }
    let ra: u8 = match a {
        Part::Root => 1,
        Part::Cur => 2,
        Part::Parent => 3,
        Part::Normal(_) => 4,
    };
    let rb: u8 = match b {
        Part::Root => 1,
        Part::Cur => 2,
        Part::Parent => 3,
        Part::Normal(_) => 4,
    };
    if ra < rb {
        -1
    } else if ra > rb {
        1
    } else {
        match (a, b) {
            (Part::Normal(x), Part::Normal(y)) => order_chars(x, y),
            _ => 0,
        }
    }
}

/// Compares two component sequences.
pub fn order_parts(a: &Vec<Part>, b: &Vec<Part>) -> (r: i8)
    ensures
        r < 0 <==> parts_lt(part_views(a@), part_views(b@)),
        r == 0 <==> part_views(a@) == part_views(b@),
        r > 0 <==> parts_lt(part_views(b@), part_views(a@)),
{
    let ghost va = part_views(a@);
    let ghost vb = part_views(b@);
    let mut i: usize = 0;
    while i < a.len() && i < b.len()
        invariant
            va == part_views(a@),
            vb == part_views(b@),
            i <= a@.len(),
            i <= b@.len(),
            va.take(i as int) == vb.take(i as int),
        decreases a@.len() - i,
    {
        let o = order_part(&a[i], &b[i]);
        if o != 0 {
            proof {
                lemma_parts_lt_skip(va, vb, i as int);
                lemma_parts_lt_order(va, vb, vb);
                assert(va.skip(i as int)[0] == va[i as int]);
                assert(vb.skip(i as int)[0] == vb[i as int]);
                if va == vb {
                    assert(va[i as int] == vb[i as int]);
                }
            }
            return o;
        }
        i = i + 1;
        assert(va.take(i as int) == va.take(i - 1).push(va[i - 1]));
        assert(vb.take(i as int) == vb.take(i - 1).push(vb[i - 1]));
    }
    proof {
        lemma_parts_lt_skip(va, vb, i as int);
        lemma_parts_lt_order(va, vb, vb);
        if i == a@.len() && i == b@.len() {
            assert(va == va.take(i as int));
            assert(vb == vb.take(i as int));
        }
        if va == vb {
            assert(i == a@.len() && i == b@.len());
        }
    }
    if i == a.len() && i == b.len() {
        0
    } else if i == a.len() {
        -1
    } else {
        1
    }
}

fn seg_to_part(seg: Vec<char>) -> (p: Option<Part>)
    ensures
        match p {
            Some(x) => seg_part(seg@) == Some(x@),
            None => seg_part(seg@) is None,
        },
{
    let n = seg.len();
    if n == 0 {
        return None;
    }
    if n == 1 && seg[0] == '.' {
        assert(seg@ =~= seq!['.']);
        return None;
    }
    if n == 2 && seg[0] == '.' && seg[1] == '.' {
        assert(seg@ =~= seq!['.', '.']);
        return Some(Part::Parent);
    }
    proof {
        if seg@ == seq!['.'] {
            assert(seg@[0] == '.');
        }
        if seg@ == seq!['.', '.'] {
            assert(seg@[0] == '.' && seg@[1] == '.');
        }
    }
    Some(Part::Normal(seg))
}

/// The components of a path.
pub fn path_parts_of(path: &str) -> (parts: Vec<Part>)
    ensures
        part_views(parts@) == path_parts(path@),
{
    let v = chars_of(path);
    let n = v.len();
    let mut parts: Vec<Part> = Vec::new();
    let mut start: usize = 0;
    if n > 0 && v[0] == '/' {
        parts.push(Part::Root);
        start = 1;
    } else if n > 0 && v[0] == '.' && (n == 1 || v[1] == '/') {
        parts.push(Part::Cur);
        start = 1;
    }
    let ghost head = part_views(parts@);
    let ghost body = v@.skip(start as int);
    let mut cur: Vec<char> = Vec::new();
    let mut i: usize = start;
    while i < n
        invariant
            n == v@.len(),
            start <= i <= n,
            body == v@.skip(start as int),
            part_views(parts@) == head + body_scan(body.take(i - start)).0,
            cur@ == body_scan(body.take(i - start)).1,
        decreases n - i,
    {
        let c = v[i];
        proof {
            assert(body.take(i + 1 - start).drop_last() == body.take(i - start));
            assert(body.take(i + 1 - start).last() == c);
        }
        if c == '/' {
            let seg = cur;
            cur = Vec::new();
            match seg_to_part(seg) {
                Some(p) => {
                    proof {
                        assert(part_views(parts@.push(p)) == part_views(parts@).push(p@));
                    }
                    parts.push(p);
                },
                None => {},
            }
        } else {
            cur.push(c);
        }
        i = i + 1;
    }
    proof {
        assert(body.take(n - start) == body);
    }
    match seg_to_part(cur) {
        Some(p) => {
            proof {
                assert(part_views(parts@.push(p)) == part_views(parts@).push(p@));
            }
            parts.push(p);
        },
        None => {},
    }
    proof {
        if start == 0 {
            assert(head == Seq::<PathPart>::empty());
            assert(body == v@);
        }
    }
    parts
}

/// Paths in strictly increasing path order.
pub open spec fn sorted_paths(s: Seq<Seq<char>>) -> bool {
    forall|i: int, j: int| 0 <= i < j < s.len() ==> path_lt(#[trigger] s[i], #[trigger] s[j])
}

/// No two of the paths name the same thing.
pub open spec fn distinct_paths(s: Seq<Seq<char>>) -> bool {
    forall|i: int, j: int|
        0 <= i < s.len() && 0 <= j < s.len() && i != j ==> !same_path(#[trigger] s[i], #[trigger] s[j])
}

/// Sorts paths that name distinct things into path order.
pub fn sort_paths(items: &Vec<String>) -> (r: Vec<String>)
    requires
        distinct_paths(strs(items@)),
    ensures
        r@.len() == items@.len(),
        sorted_paths(strs(r@)),
        forall|p: Seq<char>| strs(r@).contains(p) <==> strs(items@).contains(p),
{
    let ghost all = strs(items@);
    let mut sorted: Vec<(Vec<Part>, String)> = Vec::new();
    let ghost mut sv: Seq<Seq<char>> = seq![];
    let mut i: usize = 0;
    while i < items.len()
        invariant
            all == strs(items@),
            distinct_paths(all),
            i <= items@.len(),
            sorted@.len() == i,
            sv.len() == i,
            forall|j: int|
                0 <= j < sorted@.len() ==> (#[trigger] sorted@[j]).1@ == sv[j] && part_views(
                    sorted@[j].0@,
                ) == path_parts(sv[j]),
            sorted_paths(sv),
            forall|p: Seq<char>| sv.contains(p) <==> all.take(i as int).contains(p),
        decreases items@.len() - i,
    {
        let p = items[i].clone();
        let parts = path_parts_of(p.as_str());
        let ghost x = p@;
        proof {
            assert(x == all[i as int]);
            assert forall|j: int| 0 <= j < sv.len() implies !same_path(#[trigger] sv[j], x) by {
                assert(sv.contains(sv[j]));
                assert(all.take(i as int).contains(sv[j]));
                let m = choose|m: int| 0 <= m < all.take(i as int).len() && all.take(i as int)[m] == sv[j];
                assert(all[m] == sv[j]);
            }
        }
        let mut k: usize = 0;
        while k < sorted.len() && order_parts(&sorted[k].0, &parts) < 0
            invariant
                k <= sorted@.len(),
                sorted@.len() == sv.len(),
                part_views(parts@) == path_parts(x),
                forall|j: int|
                    0 <= j < sorted@.len() ==> (#[trigger] sorted@[j]).1@ == sv[j] && part_views(
                        sorted@[j].0@,
                    ) == path_parts(sv[j]),
                forall|j: int| 0 <= j < k ==> path_lt(#[trigger] sv[j], x),
            decreases sorted@.len() - k,
        {
            assert(sorted@[k as int].1@ == sv[k as int]);
            k = k + 1;
        }
        proof {
            if k < sorted@.len() {
                assert(sorted@[k as int].1@ == sv[k as int]);
                lemma_path_lt_order(sv[k as int], x, x);
                assert(path_lt(x, sv[k as int]));
                assert forall|j: int| k <= j < sv.len() implies path_lt(x, #[trigger] sv[j]) by {
                    if j > k {
                        lemma_path_lt_order(x, sv[k as int], sv[j]);
                    }
                }
            }
        }
        let ghost old_sorted = sorted@;
        sorted.insert(k, (parts, p));
        proof {
            let nsv = sv.insert(k as int, x);
            assert forall|j: int|
                0 <= j < sorted@.len() implies (#[trigger] sorted@[j]).1@ == nsv[j] && part_views(
                sorted@[j].0@,
            ) == path_parts(nsv[j]) by {
                if j < k {
                    assert(sorted@[j] == old_sorted[j]);
                } else if j > k {
                    assert(sorted@[j] == old_sorted[j - 1]);
                }
            }
            assert forall|a: int, b: int| 0 <= a < b < nsv.len() implies path_lt(
                #[trigger] nsv[a],
                #[trigger] nsv[b],
            ) by {
                if b < k {
                } else if a < k && b == k {
                } else if a < k && b > k {
                    assert(nsv[b] == sv[b - 1]);
                } else if a == k {
                    assert(nsv[b] == sv[b - 1]);
                } else {
                    assert(nsv[a] == sv[a - 1]);
                    assert(nsv[b] == sv[b - 1]);
                }
            }
            let t1 = all.take(i + 1);
            let t0 = all.take(i as int);
            assert(t1 == t0.push(x));
            assert forall|q: Seq<char>| nsv.contains(q) <==> t1.contains(q) by {
                if nsv.contains(q) {
                    let m = choose|m: int| 0 <= m < nsv.len() && nsv[m] == q;
                    if m < k {
                        assert(sv[m] == q);
                        assert(sv.contains(q));
                    } else if m > k {
                        assert(sv[m - 1] == q);
                        assert(sv.contains(q));
                    }
                    assert(t1.contains(q)) by {
                        if q == x {
                            assert(t1[i as int] == q);
                        } else {
                            assert(t0.contains(q));
                            let m2 = choose|m2: int| 0 <= m2 < t0.len() && t0[m2] == q;
                            assert(t1[m2] == q);
                        }
                    }
                }
                if t1.contains(q) {
                    let m = choose|m: int| 0 <= m < t1.len() && t1[m] == q;
                    if m == i {
                        assert(nsv[k as int] == q);
                    } else {
                        assert(t0[m] == q);
                        assert(sv.contains(q));
                        let m2 = choose|m2: int| 0 <= m2 < sv.len() && sv[m2] == q;
                        if m2 < k {
                            assert(nsv[m2] == q);
                        } else {
                            assert(nsv[m2 + 1] == q);
                        }
                    }
                }
            }
            sv = nsv;
        }
        i = i + 1;
    }
    let mut out: Vec<String> = Vec::new();
    let mut j: usize = 0;
    while j < sorted.len()
        invariant
            j <= sorted@.len(),
            sorted@.len() == sv.len(),
            forall|m: int| 0 <= m < sorted@.len() ==> (#[trigger] sorted@[m]).1@ == sv[m],
            strs(out@) == sv.take(j as int),
        decreases sorted@.len() - j,
    {
        let s = sorted[j].1.clone();
        proof {
            assert(strs(out@.push(s)) == strs(out@).push(s@));
            assert(sv.take(j + 1) == sv.take(j as int).push(sv[j as int]));
        }
        out.push(s);
        j = j + 1;
    }
    proof {
        assert(sv.take(sv.len() as int) == sv);
        assert(all.take(all.len() as int) == all);
    }
    out
}

} // verus!
