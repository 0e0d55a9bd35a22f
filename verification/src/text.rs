//! Character-level text helpers shared by the parser and the renderers.

use vstd::prelude::*;

verus! {

/// The Unicode `White_Space` property: the characters that `char::is_whitespace`
/// and the `\s` class of the `regex` crate treat as whitespace.
pub open spec fn is_ws(c: char) -> bool {
    ||| ('\u{9}' <= c && c <= '\u{d}')
    ||| c == ' '
    ||| c == '\u{85}'
    ||| c == '\u{a0}'
    ||| c == '\u{1680}'
    ||| ('\u{2000}' <= c && c <= '\u{200a}')
    ||| c == '\u{2028}'
    ||| c == '\u{2029}'
    ||| c == '\u{202f}'
    ||| c == '\u{205f}'
    ||| c == '\u{3000}'
}

/// Executable whitespace test.
pub fn is_whitespace(c: char) -> (b: bool)
    ensures
        b == is_ws(c),
{
    ('\u{9}' <= c && c <= '\u{d}') || c == ' ' || c == '\u{85}' || c == '\u{a0}' || c
        == '\u{1680}' || ('\u{2000}' <= c && c <= '\u{200a}') || c == '\u{2028}' || c
        == '\u{2029}' || c == '\u{202f}' || c == '\u{205f}' || c == '\u{3000}'
}


/// Views of a sequence of strings.
pub open spec fn strs(v: Seq<String>) -> Seq<Seq<char>> {
    v.map_values(|x: String| x@)
}

/// The characters of a string slice, in order.
pub fn chars_of(s: &str) -> (v: Vec<char>)
    ensures
        v@ == s@,
{
    let mut v: Vec<char> = Vec::new();
    for c in it: s.chars()
        invariant
            it.seq() == s@,
            v@ == it.seq().take(it.index()),
    {
        v.push(c);
    }
    v
}


/// Appends one character to a `String` (`String::push`).
#[verifier::external_body]
fn string_push(s: &mut String, c: char)
    ensures
        final(s)@ == old(s)@.push(c),
{
    s.push(c);
}

/// A `String` holding the given characters.
pub fn string_of(v: &[char]) -> (s: String)
    ensures
        s@ == v@,
{
    let mut s = String::new();
    let mut i: usize = 0;
    while i < v.len()
        invariant
            i <= v@.len(),
            s@ == v@.take(i as int),
        decreases v@.len() - i,
    {
        string_push(&mut s, v[i]);
        i = i + 1;
        assert(v@.take(i as int) == v@.take((i - 1) as int).push(v@[i - 1]));
    }
    assert(v@.take(v@.len() as int) == v@);
    s
}

/// `s` with leading whitespace removed.
pub open spec fn trim_start(s: Seq<char>) -> Seq<char>
    decreases s.len(),
{
    if s.len() > 0 && is_ws(s[0]) {
        trim_start(s.drop_first())
    } else {
        s
    }
}

/// `s` with trailing whitespace removed.
pub open spec fn trim_end(s: Seq<char>) -> Seq<char>
    decreases s.len(),
{
    if s.len() > 0 && is_ws(s.last()) {
        trim_end(s.drop_last())
    } else {
        s
    }
}

/// `s` with leading and trailing whitespace removed (`str::trim`).
pub open spec fn trim(s: Seq<char>) -> Seq<char> {
    trim_end(trim_start(s))
}

/// Whether every character of `s` is whitespace.
pub open spec fn all_ws(s: Seq<char>) -> bool {
    forall|i: int| 0 <= i < s.len() ==> is_ws(#[trigger] s[i])
}

/// Skipping a leading run of whitespace that ends at a non-whitespace
/// character (or at the end) is trimming the start.
pub proof fn lemma_trim_start_skip(s: Seq<char>, a: int)
    requires
        0 <= a <= s.len(),
        forall|i: int| 0 <= i < a ==> is_ws(#[trigger] s[i]),
        a == s.len() || !is_ws(s[a]),
    ensures
        trim_start(s) == s.skip(a),
    decreases a,
{
    if a == 0 {
        assert(s.skip(0) == s);
    } else {
        let t = s.drop_first();
        assert forall|i: int| 0 <= i < a - 1 implies is_ws(#[trigger] t[i]) by {
            assert(t[i] == s[i + 1]);
        }
        lemma_trim_start_skip(t, a - 1);
        assert(t.skip(a - 1) == s.skip(a));
    }
}

/// Cutting a trailing run of whitespace that follows a non-whitespace
/// character (or the start) is trimming the end.
pub proof fn lemma_trim_end_take(s: Seq<char>, b: int)
    requires
        0 <= b <= s.len(),
        forall|i: int| b <= i < s.len() ==> is_ws(#[trigger] s[i]),
        b == 0 || !is_ws(s[b - 1]),
    ensures
        trim_end(s) == s.take(b),
    decreases s.len() - b,
{
    if b == s.len() {
        assert(s.take(b) == s);
    } else {
        let t = s.drop_last();
        assert forall|i: int| b <= i < t.len() implies is_ws(#[trigger] t[i]) by {
            assert(t[i] == s[i]);
        }
        lemma_trim_end_take(t, b);
        assert(t.take(b) == s.take(b));
    }
}

/// The trimmed text is empty exactly when the text is all whitespace.
pub proof fn lemma_trim_empty_iff_all_ws(s: Seq<char>)
    ensures
        trim(s).len() == 0 <==> all_ws(s),
    decreases s.len(),
{
    if s.len() > 0 && is_ws(s[0]) {
        let t = s.drop_first();
        lemma_trim_empty_iff_all_ws(t);
        assert(trim(s) == trim(t));
        if all_ws(t) {
            assert forall|i: int| 0 <= i < s.len() implies is_ws(#[trigger] s[i]) by {
                if i > 0 {
                    assert(s[i] == t[i - 1]);
                }
            }
        }
        if all_ws(s) {
            assert forall|i: int| 0 <= i < t.len() implies is_ws(#[trigger] t[i]) by {
                assert(t[i] == s[i + 1]);
            }
        }
    } else {
        assert(trim_start(s) == s);
        if s.len() > 0 {
            lemma_trim_end_nonempty(s);
        }
    }
}

proof fn lemma_trim_end_nonempty(s: Seq<char>)
    requires
        s.len() > 0,
        !is_ws(s[0]),
    ensures
        trim_end(s).len() > 0,
    decreases s.len(),
{
    if is_ws(s.last()) {
        lemma_trim_end_nonempty(s.drop_last());
    }
}

/// Bounds of the trimmed part of `v`: `v[a..b]` is `trim(v)`.
pub fn trim_bounds(v: &[char]) -> (r: (usize, usize))
    ensures
        r.0 <= r.1 <= v@.len(),
        v@.subrange(r.0 as int, r.1 as int) == trim(v@),
{
    let n = v.len();
    let mut a: usize = 0;
    while a < n && is_whitespace(v[a])
        invariant
            n == v@.len(),
            a <= n,
            forall|i: int| 0 <= i < a ==> is_ws(#[trigger] v@[i]),
        decreases n - a,
    {
        a = a + 1;
    }
    let mut b: usize = n;
    while b > a && is_whitespace(v[b - 1])
        invariant
            n == v@.len(),
            a <= b <= n,
            forall|i: int| b <= i < n ==> is_ws(#[trigger] v@[i]),
        decreases b,
    {
        b = b - 1;
    }
    proof {
        lemma_trim_start_skip(v@, a as int);
        let t = v@.skip(a as int);
        assert forall|i: int| (b - a) <= i < t.len() implies is_ws(#[trigger] t[i]) by {
            assert(t[i] == v@[i + a]);
        }
        if b > a {
            assert(t[b - a - 1] == v@[b - 1]);
        }
        lemma_trim_end_take(t, (b - a) as int);
        assert(t.take((b - a) as int) == v@.subrange(a as int, b as int));
    }
    (a, b)
}

/// Whether every character of `v` is whitespace.
pub fn is_all_whitespace(v: &[char]) -> (b: bool)
    ensures
        b == all_ws(v@),
{
    let mut i: usize = 0;
    while i < v.len()
        invariant
            i <= v@.len(),
            forall|j: int| 0 <= j < i ==> is_ws(#[trigger] v@[j]),
        decreases v@.len() - i,
    {
        if !is_whitespace(v[i]) {
            return false;
        }
        i = i + 1;
    }
    true
}

/// A copy of `v[a..b]`.
pub fn slice_vec(v: &[char], a: usize, b: usize) -> (r: Vec<char>)
    requires
        a <= b <= v@.len(),
    ensures
        r@ == v@.subrange(a as int, b as int),
{
    let mut r: Vec<char> = Vec::new();
    let mut i: usize = a;
    while i < b
        invariant
            a <= i <= b <= v@.len(),
            r@ == v@.subrange(a as int, i as int),
        decreases b - i,
    {
        r.push(v[i]);
        i = i + 1;
        assert(r@ == v@.subrange(a as int, i as int));
    }
    r
}

/// Trimmed copy of a string slice (`str::trim` then `to_string`).
pub fn trimmed(s: &str) -> (t: String)
    ensures
        t@ == trim(s@),
{
    let v = chars_of(s);
    let (a, b) = trim_bounds(v.as_slice());
    let w = slice_vec(v.as_slice(), a, b);
    string_of(w.as_slice())
}

/// A line with one trailing carriage return removed, if it has one.
pub open spec fn strip_cr(l: Seq<char>) -> Seq<char> {
    if l.len() > 0 && l.last() == '\r' {
        l.drop_last()
    } else {
        l
    }
}

/// Reading `s` from the start: the lines finished by a `\n` so far, and the
/// text after the last `\n`.
pub open spec fn line_scan(s: Seq<char>) -> (Seq<Seq<char>>, Seq<char>)
    decreases s.len(),
{
    if s.len() == 0 {
        (seq![], seq![])
    } else {
        let (done, cur) = line_scan(s.drop_last());
        if s.last() == '\n' {
            (done.push(strip_cr(cur)), seq![])
        } else {
            (done, cur.push(s.last()))
        }
    }
}

/// The lines of `s` as `str::lines` yields them: split at `\n`, a `\r` before
/// the `\n` dropped, and no empty line after a final `\n`.
pub open spec fn lines(s: Seq<char>) -> Seq<Seq<char>> {
    let (done, cur) = line_scan(s);
    if cur.len() == 0 {
        done
    } else {
        done.push(cur)
    }
}

/// Views of a vector of character vectors.
pub open spec fn views(v: Seq<Vec<char>>) -> Seq<Seq<char>> {
    v.map_values(|x: Vec<char>| x@)
}

/// Splits text into lines (`str::lines`).
pub fn split_lines(v: &[char]) -> (ls: Vec<Vec<char>>)
    ensures
        views(ls@) == lines(v@),
{
    let mut done: Vec<Vec<char>> = Vec::new();
    let mut cur: Vec<char> = Vec::new();
    let mut i: usize = 0;
    while i < v.len()
        invariant
            i <= v@.len(),
            (views(done@), cur@) == line_scan(v@.take(i as int)),
        decreases v@.len() - i,
    {
        let c = v[i];
        assert(v@.take(i + 1).drop_last() == v@.take(i as int));
        if c == '\n' {
            let n = cur.len();
            if n > 0 && cur[n - 1] == '\r' {
                cur.pop();
            }
            let line = cur;
            assert(views(done@.push(line)) == views(done@).push(line@));
            done.push(line);
            cur = Vec::new();
        } else {
            cur.push(c);
        }
        i = i + 1;
    }
    assert(v@.take(v@.len() as int) == v@);
    if cur.len() > 0 {
        assert(views(done@.push(cur)) == views(done@).push(cur@));
        done.push(cur);
    }
    done
}

/// Lines joined with `\n` between them (`[&str]::join("\n")`).
pub open spec fn join_lines(ls: Seq<Seq<char>>) -> Seq<char>
    decreases ls.len(),
{
    if ls.len() == 0 {
        seq![]
    } else if ls.len() == 1 {
        ls[0]
    } else {
        join_lines(ls.drop_last()) + seq!['\n'] + ls.last()
    }
}

/// Joins the lines `ls[from..to]` with `\n`.
pub fn join_range(ls: &Vec<Vec<char>>, from: usize, to: usize) -> (r: Vec<char>)
    requires
        from <= to <= ls@.len(),
    ensures
        r@ == join_lines(views(ls@).subrange(from as int, to as int)),
{
    let ghost all = views(ls@);
    let mut r: Vec<char> = Vec::new();
    let mut i: usize = from;
    while i < to
        invariant
            all == views(ls@),
            from <= i <= to <= ls@.len(),
            r@ == join_lines(all.subrange(from as int, i as int)),
        decreases to - i,
    {
        if i > from {
            r.push('\n');
        }
        let line = &ls[i];
        let mut j: usize = 0;
        let ghost before = r@;
        while j < line.len()
            invariant
                j <= line@.len(),
                r@ == before + line@.take(j as int),
            decreases line@.len() - j,
        {
            r.push(line[j]);
            j = j + 1;
            assert(r@ == before + line@.take(j as int));
        }
        assert(line@.take(line@.len() as int) == line@);
        proof {
            let p = all.subrange(from as int, i + 1);
            assert(p.drop_last() == all.subrange(from as int, i as int));
            assert(p.last() == line@);
            if i == from {
                assert(before == Seq::<char>::empty());
            }
        }
        i = i + 1;
    }
    r
}

/// The decimal digit character for `d` (0 to 9).
pub open spec fn digit_char(d: nat) -> char {
    (48 + d) as char
}

/// The decimal numeral of `n`, as `{}` prints an unsigned integer.
pub open spec fn decimal(n: nat) -> Seq<char>
    decreases n,
{
    if n < 10 {
        seq![digit_char(n)]
    } else {
        decimal(n / 10).push(digit_char(n % 10))
    }
}

/// The decimal numeral of `n`.
pub fn decimal_string(n: usize) -> (s: String)
    ensures
        s@ == decimal(n as nat),
{
    let mut digits: Vec<char> = Vec::new();
    let mut m: usize = n;
    while m >= 10
        invariant
            decimal(n as nat) == decimal(m as nat) + digits@,
        decreases m,
    {
        let d = (m % 10) as u8;
        let c = (48u8 + d) as char;
        let ghost before = digits@;
        proof {
            assert(decimal(m as nat) == decimal((m / 10) as nat).push(digit_char((m % 10) as nat)));
            assert(c == digit_char((m % 10) as nat));
        }
        digits.insert(0, c);
        proof {
            assert(digits@ == seq![c] + before);
            assert(decimal((m / 10) as nat) + digits@ == decimal(m as nat) + before);
        }
        m = m / 10;
    }
    let c = (48u8 + (m as u8)) as char;
    let ghost before = digits@;
    digits.insert(0, c);
    proof {
        assert(c == digit_char(m as nat));
        assert(digits@ == seq![c] + before);
        assert(decimal(m as nat) == seq![c]);
    }
    string_of(digits.as_slice())
}

/// What `{:?}` prints for a string slice: the text in double quotes, with
/// escapes.
pub uninterp spec fn debug_text(s: Seq<char>) -> Seq<char>;

/// Formats a string slice with `{:?}` (the `Debug` impl of `str`); the
/// contract names the result and claims nothing more of it.
#[verifier::external_body]
pub(crate) fn debug_quoted(s: &str) -> (r: String)
    ensures
        r@ == debug_text(s@),
{
    format!("{:?}", s)
}

/// Whether two string slices hold the same text.
pub fn same_text(a: &str, b: &str) -> (r: bool)
    ensures
        r == (a@ == b@),
{
    let x = chars_of(a);
    let y = chars_of(b);
    if x.len() != y.len() {
        proof {
            if a@ == b@ {
                assert(x@.len() == y@.len());
            }
        }
        return false;
    }
    let mut i: usize = 0;
    while i < x.len()
        invariant
            x@ == a@,
            y@ == b@,
            x@.len() == y@.len(),
            i <= x@.len(),
            x@.take(i as int) == y@.take(i as int),
        decreases x@.len() - i,
    {
        let cx = x[i];
        let cy = y[i];
        if cx != cy {
            proof {
                assert(cx == x@[i as int] && cy == y@[i as int]);
                if a@ == b@ {
                    assert(x@ == y@);
                }
            }
            return false;
        }
        i = i + 1;
        assert(x@.take(i as int) == x@.take(i - 1).push(x@[i - 1]));
        assert(y@.take(i as int) == y@.take(i - 1).push(y@[i - 1]));
    }
    assert(x@ == x@.take(i as int));
    assert(y@ == y@.take(i as int));
    true
}

/// `s` without trailing whitespace (`str::trim_end` then `to_string`).
pub fn trimmed_end(s: &str) -> (t: String)
    ensures
        t@ == trim_end(s@),
{
    let v = chars_of(s);
    let mut b: usize = v.len();
    while b > 0 && is_whitespace(v[b - 1])
        invariant
            b <= v@.len(),
            forall|i: int| b <= i < v@.len() ==> is_ws(#[trigger] v@[i]),
        decreases b,
    {
        b = b - 1;
    }
    proof {
        lemma_trim_end_take(v@, b as int);
    }
    let w = slice_vec(v.as_slice(), 0, b);
    proof {
        assert(v@.subrange(0, b as int) == v@.take(b as int));
    }
    string_of(w.as_slice())
}

/// The length of the run of non-whitespace characters that starts `t`.
pub open spec fn word_len(t: Seq<char>) -> int
    decreases t.len(),
{
    if t.len() > 0 && !is_ws(t[0]) {
        1 + word_len(t.drop_first())
    } else {
        0
    }
}

/// The first whitespace-separated word of `s`, if any (the first item of
/// `str::split_whitespace`).
pub open spec fn first_word(s: Seq<char>) -> Option<Seq<char>> {
    let t = trim_start(s);
    if t.len() == 0 {
        None
    } else {
        Some(t.take(word_len(t)))
    }
}

proof fn lemma_word_len(t: Seq<char>, n: int)
    requires
        0 <= n <= t.len(),
        forall|i: int| 0 <= i < n ==> !is_ws(#[trigger] t[i]),
        n == t.len() || is_ws(t[n]),
    ensures
        word_len(t) == n,
    decreases n,
{
    if n > 0 {
        let u = t.drop_first();
        assert forall|i: int| 0 <= i < n - 1 implies !is_ws(#[trigger] u[i]) by {
            assert(u[i] == t[i + 1]);
        }
        if n < t.len() {
            assert(u[n - 1] == t[n]);
        }
        lemma_word_len(u, n - 1);
    }
}

/// The first whitespace-separated word of `s`, if any.
pub fn first_word_of(s: &str) -> (w: Option<String>)
    ensures
        match w {
            Some(x) => first_word(s@) == Some(x@),
            None => first_word(s@) is None,
        },
{
    let v = chars_of(s);
    let n = v.len();
    let mut a: usize = 0;
    while a < n && is_whitespace(v[a])
        invariant
            n == v@.len(),
            a <= n,
            forall|i: int| 0 <= i < a ==> is_ws(#[trigger] v@[i]),
        decreases n - a,
    {
        a = a + 1;
    }
    proof {
        lemma_trim_start_skip(v@, a as int);
    }
    if a == n {
        return None;
    }
    let mut b: usize = a;
    while b < n && !is_whitespace(v[b])
        invariant
            n == v@.len(),
            a <= b <= n,
            forall|i: int| a <= i < b ==> !is_ws(#[trigger] v@[i]),
        decreases n - b,
    {
        b = b + 1;
    }
    proof {
        let t = v@.skip(a as int);
        assert forall|i: int| 0 <= i < b - a implies !is_ws(#[trigger] t[i]) by {
            assert(t[i] == v@[i + a]);
        }
        if b < n {
            assert(t[b - a] == v@[b as int]);
        }
        lemma_word_len(t, (b - a) as int);
        assert(t.take((b - a) as int) == v@.subrange(a as int, b as int));
    }
    let w = slice_vec(v.as_slice(), a, b);
    Some(string_of(w.as_slice()))
}

/// Words joined with single spaces between them (`[String]::join(" ")`).
pub open spec fn join_words(ws: Seq<Seq<char>>) -> Seq<char>
    decreases ws.len(),
{
    if ws.len() == 0 {
        seq![]
    } else if ws.len() == 1 {
        ws[0]
    } else {
        join_words(ws.drop_last()) + seq![' '] + ws.last()
    }
}

/// Joins strings with single spaces.
pub fn join_with_spaces(ws: &Vec<String>) -> (r: String)
    ensures
        r@ == join_words(strs(ws@)),
{
    let ghost all = strs(ws@);
    let mut r = String::new();
    let mut i: usize = 0;
    while i < ws.len()
        invariant
            all == strs(ws@),
            i <= ws@.len(),
            r@ == join_words(all.take(i as int)),
        decreases ws@.len() - i,
    {
        let ghost before = r@;
        if i > 0 {
            r.append(" ");
        }
        r.append(ws[i].as_str());
        proof {
            reveal_strlit(" ");
            let p = all.take(i + 1);
            assert(p.drop_last() == all.take(i as int));
            assert(p.last() == ws@[i as int]@);
            if i == 0 {
                assert(before == Seq::<char>::empty());
                assert(r@ == p[0]);
            } else {
                assert(r@ == before + seq![' '] + p.last());
            }
        }
        i = i + 1;
    }
    assert(all.take(ws@.len() as int) == all);
    r
}

/// Pushing `x` adds exactly `x` to what a sequence contains.
pub proof fn lemma_push_contains(s: Seq<Seq<char>>, x: Seq<char>)
    ensures
        forall|q: Seq<char>| #[trigger] s.push(x).contains(q) <==> (s.contains(q) || q == x),
{
    assert forall|q: Seq<char>| #[trigger] s.push(x).contains(q) <==> (s.contains(q) || q == x) by {
        if s.contains(q) {
            let j = choose|j: int| 0 <= j < s.len() && s[j] == q;
            assert(s.push(x)[j] == q);
        }
        if q == x {
            assert(s.push(x)[s.len() as int] == q);
        }
        if s.push(x).contains(q) {
            let j = choose|j: int| 0 <= j < s.push(x).len() && s.push(x)[j] == q;
            if j < s.len() {
                assert(s[j] == q);
            }
        }
    }
}

proof fn lemma_trim_start_first(s: Seq<char>)
    ensures
        trim_start(s).len() == 0 || !is_ws(trim_start(s)[0]),
    decreases s.len(),
{
    if s.len() > 0 && is_ws(s[0]) {
        lemma_trim_start_first(s.drop_first());
    }
}

proof fn lemma_trim_end_prefix(s: Seq<char>)
    ensures
        trim_end(s).len() <= s.len(),
        trim_end(s) == s.take(trim_end(s).len() as int),
        trim_end(s).len() == 0 || !is_ws(trim_end(s).last()),
    decreases s.len(),
{
    if s.len() > 0 && is_ws(s.last()) {
        lemma_trim_end_prefix(s.drop_last());
        assert(s.drop_last().take(trim_end(s).len() as int) == s.take(trim_end(s).len() as int));
    } else {
        assert(s.take(s.len() as int) == s);
    }
}

/// Trimming the end keeps every character up to the last non-whitespace one:
/// a prefix of `s` that ends in a non-whitespace character is a prefix of
/// `trim_end(s)`.
pub proof fn lemma_trim_end_keeps(s: Seq<char>, n: int)
    requires
        0 < n <= s.len(),
        !is_ws(s[n - 1]),
    ensures
        trim_end(s).len() >= n,
        trim_end(s).take(n) == s.take(n),
    decreases s.len(),
{
    lemma_trim_end_prefix(s);
    if s.len() > 0 && is_ws(s.last()) {
        let t = s.drop_last();
        assert(t[n - 1] == s[n - 1]);
        lemma_trim_end_keeps(t, n);
        assert(t.take(n) == s.take(n));
    }
    assert(trim_end(s).take(n) == s.take(trim_end(s).len() as int).take(n));
}

/// Trimmed text starts and ends with a non-whitespace character (or is empty).
pub proof fn lemma_trim_ends(s: Seq<char>)
    ensures
        trim(s).len() == 0 || (!is_ws(trim(s)[0]) && !is_ws(trim(s).last())),
{
    lemma_trim_start_first(s);
    lemma_trim_end_prefix(trim_start(s));
    if trim(s).len() > 0 {
        assert(trim(s)[0] == trim_start(s)[0]);
    }
}

/// Law: trimming is idempotent — trimmed text has nothing left to trim.
pub proof fn law_trim_idempotent(s: Seq<char>)
    ensures
        trim(trim(s)) == trim(s),
{
    let w = trim(s);
    lemma_trim_ends(s);
    assert(trim_start(w) == w);
    assert(trim_end(w) == w);
}

} // verus!
