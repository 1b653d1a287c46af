//! Text handling around the compiler oracle: removing the annotation lines of
//! compiler UI tests, and reading the error count from the compiler's output.
use vstd::prelude::*;
use crate::corpus::strip_cr;
use crate::text::{chars_of, string_of};

verus! {

/// The characters with the Unicode White_Space property (`char::is_whitespace`).
pub open spec fn is_ws(c: char) -> bool {
    let u = c as u32;
    ||| 0x09 <= u <= 0x0D
    ||| u == 0x20
    ||| u == 0x85
    ||| u == 0xA0
    ||| u == 0x1680
    ||| 0x2000 <= u <= 0x200A
    ||| u == 0x2028
    ||| u == 0x2029
    ||| u == 0x202F
    ||| u == 0x205F
    ||| u == 0x3000
}

/// Whether a character is white space (see [`is_ws`]).
pub fn is_white_space(c: char) -> (r: bool)
    ensures
        r == is_ws(c),
{
    let u = c as u32;
    (0x09 <= u && u <= 0x0D) || u == 0x20 || u == 0x85 || u == 0xA0 || u == 0x1680 || (0x2000 <= u
        && u <= 0x200A) || u == 0x2028 || u == 0x2029 || u == 0x202F || u == 0x205F || u == 0x3000
}

/// `s` without its leading white space.
pub open spec fn trim_start_ws(s: Seq<char>) -> Seq<char>
    decreases s.len(),
{
    if s.len() > 0 && is_ws(s[0]) {
        trim_start_ws(s.drop_first())
    } else {
        s
    }
}

/// `s` without its trailing white space.
pub open spec fn trim_end_ws(s: Seq<char>) -> Seq<char>
    decreases s.len(),
{
    if s.len() > 0 && is_ws(s.last()) {
        trim_end_ws(s.drop_last())
    } else {
        s
    }
}

/// `s` without leading and trailing white space (`str::trim`).
pub open spec fn trim_ws(s: Seq<char>) -> Seq<char> {
    trim_end_ws(trim_start_ws(s))
}

/// Reading `t` as `str::lines` does: the finished lines (a `'\r'` before the
/// `'\n'` dropped), and the characters of the line not yet ended.
pub open spec fn lines_scan(t: Seq<char>) -> (Seq<Seq<char>>, Seq<char>)
    decreases t.len(),
{
    if t.len() == 0 {
        (seq![], seq![])
    } else {
        let prev = lines_scan(t.drop_last());
        if t.last() == '\n' {
            (prev.0.push(strip_cr(prev.1)), seq![])
        } else {
            (prev.0, prev.1.push(t.last()))
        }
    }
}

/// The lines of `t` (`str::lines`): the last line needs no line ending, and a
/// text ending in a line ending has no empty last line.
pub open spec fn str_lines(t: Seq<char>) -> Seq<Seq<char>> {
    let s = lines_scan(t);
    if s.1.len() > 0 {
        s.0.push(s.1)
    } else {
        s.0
    }
}

/// `t` starts with `p`.
pub open spec fn has_prefix(t: Seq<char>, p: Seq<char>) -> bool {
    p.len() <= t.len() && t.take(p.len() as int) == p
}

/// A compiler UI test annotation: a line that, trimmed, starts with `//@`, `//~`,
/// `// compile-flags`, `// edition`, `// revisions` or `// aux-build`.
pub open spec fn is_annotation(line: Seq<char>) -> bool {
    let t = trim_ws(line);
    ||| has_prefix(t, "//@"@)
    ||| has_prefix(t, "//~"@)
    ||| has_prefix(t, "// compile-flags"@)
    ||| has_prefix(t, "// edition"@)
    ||| has_prefix(t, "// revisions"@)
    ||| has_prefix(t, "// aux-build"@)
}

/// The lines that are not annotations, in order.
pub open spec fn kept_lines(ls: Seq<Seq<char>>) -> Seq<Seq<char>>
    decreases ls.len(),
{
    if ls.len() == 0 {
        seq![]
    } else {
        let prev = kept_lines(ls.drop_last());
        if is_annotation(ls.last()) {
            prev
        } else {
            prev.push(ls.last())
        }
    }
}

/// Lines joined with `'\n'` between them.
pub open spec fn join_lines(ls: Seq<Seq<char>>) -> Seq<char>
    decreases ls.len(),
{
    if ls.len() == 0 {
        seq![]
    } else if ls.len() == 1 {
        ls[0]
    } else {
        join_lines(ls.drop_last()) + seq!['\n'] + ls.last()
    }
}

/// The views of a list of character vectors.
pub open spec fn char_views(v: Seq<Vec<char>>) -> Seq<Seq<char>> {
    v.map_values(|l: Vec<char>| l@)
}

/// The lines of a character sequence (see [`str_lines`]).
fn split_lines(ch: &Vec<char>) -> (r: Vec<Vec<char>>)
    ensures
        char_views(r@) == str_lines(ch@),
{
    let mut lines: Vec<Vec<char>> = Vec::new();
    let mut cur: Vec<char> = Vec::new();
    for i in 0..ch.len()
        invariant
            char_views(lines@) == lines_scan(ch@.take(i as int)).0,
            cur@ == lines_scan(ch@.take(i as int)).1,
    {
        let c = ch[i];
        assert(ch@.take(i + 1).drop_last() =~= ch@.take(i as int));
        assert(ch@.take(i + 1).last() == c);
        if c == '\n' {
            let n = cur.len();
            if n > 0 && cur[n - 1] == '\r' {
                cur.pop();
            }
            let line = cur;
            lines.push(line);
            assert(char_views(lines@) =~= lines_scan(ch@.take(i + 1)).0);
            cur = Vec::new();
        } else {
            cur.push(c);
        }
    }
    assert(ch@.take(ch@.len() as int) =~= ch@);
    if cur.len() > 0 {
        lines.push(cur);
        assert(char_views(lines@) =~= str_lines(ch@));
    }
    lines
}

/// The bounds `(a, b)` of `v[lo .. hi]` without its leading and trailing white space.
fn trim_bounds(v: &Vec<char>, lo: usize, hi: usize) -> (r: (usize, usize))
    requires
        lo <= hi <= v@.len(),
    ensures
        lo <= r.0 <= r.1 <= hi,
        v@.subrange(r.0 as int, r.1 as int) == trim_ws(v@.subrange(lo as int, hi as int)),
{
    let mut a = lo;
    while a < hi && is_white_space(v[a])
        invariant
            lo <= a <= hi <= v@.len(),
            trim_start_ws(v@.subrange(lo as int, hi as int)) == trim_start_ws(
                v@.subrange(a as int, hi as int),
            ),
        decreases hi - a,
    {
        assert(v@.subrange(a as int, hi as int).drop_first() =~= v@.subrange(a + 1, hi as int));
        a = a + 1;
    }
    assert(trim_start_ws(v@.subrange(a as int, hi as int)) == v@.subrange(a as int, hi as int));
    let mut b = hi;
    while b > a && is_white_space(v[b - 1])
        invariant
            lo <= a <= b <= hi <= v@.len(),
            trim_end_ws(v@.subrange(a as int, hi as int)) == trim_end_ws(
                v@.subrange(a as int, b as int),
            ),
        decreases b - a,
    {
        assert(v@.subrange(a as int, b as int).drop_last() =~= v@.subrange(a as int, b - 1));
        b = b - 1;
    }
    assert(trim_end_ws(v@.subrange(a as int, b as int)) == v@.subrange(a as int, b as int));
    (a, b)
}

/// Whether `v[a .. b]` starts with the characters of `p`.
fn starts_with_str(v: &Vec<char>, a: usize, b: usize, p: &str) -> (r: bool)
    requires
        a <= b <= v@.len(),
    ensures
        r == has_prefix(v@.subrange(a as int, b as int), p@),
{
    let pc = chars_of(p);
    if pc.len() > b - a {
        return false;
    }
    for i in 0..pc.len()
        invariant
            pc@ == p@,
            a <= b <= v@.len(),
            pc@.len() <= b - a,
            forall|k: int| 0 <= k < i ==> v@[a + k] == pc@[k],
    {
        if v[a + i] != pc[i] {
            assert(v@.subrange(a as int, b as int).take(pc@.len() as int)[i as int] != p@[i as int]);
            return false;
        }
    }
    assert(v@.subrange(a as int, b as int).take(pc@.len() as int) =~= p@);
    true
}

/// Whether a line is an annotation (see [`is_annotation`]).
fn annotation_line(line: &Vec<char>) -> (r: bool)
    ensures
        r == is_annotation(line@),
{
    let (a, b) = trim_bounds(line, 0, line.len());
    assert(line@.subrange(0, line@.len() as int) =~= line@);
    starts_with_str(line, a, b, "//@") || starts_with_str(line, a, b, "//~") || starts_with_str(
        line,
        a,
        b,
        "// compile-flags",
    ) || starts_with_str(line, a, b, "// edition") || starts_with_str(line, a, b, "// revisions")
        || starts_with_str(line, a, b, "// aux-build")
}

/// A compiler UI test source without its annotation lines: the remaining lines
/// joined with `'\n'`, with leading and trailing white space removed.
pub fn strip_annotations(src: &str) -> (r: String)
    ensures
        r@ == trim_ws(join_lines(kept_lines(str_lines(src@)))),
{
    let ch = chars_of(src);
    let lines = split_lines(&ch);
    let ghost views = char_views(lines@);
    let mut out: Vec<char> = Vec::new();
    let mut any_kept = false;
    for i in 0..lines.len()
        invariant
            views == char_views(lines@),
            out@ == join_lines(kept_lines(views.take(i as int))),
            any_kept == (kept_lines(views.take(i as int)).len() > 0),
    {
        assert(views.take(i + 1).drop_last() =~= views.take(i as int));
        assert(views.take(i + 1).last() == lines@[i as int]@);
        if !annotation_line(&lines[i]) {
            let ghost before = out@;
            let ghost k = kept_lines(views.take(i as int));
            if any_kept {
                out.push('\n');
            }
            let line = &lines[i];
            for j in 0..line.len()
                invariant
                    out@ == (if k.len() > 0 {
                        before + seq!['\n']
                    } else {
                        before
                    }) + line@.take(j as int),
            {
                out.push(line[j]);
                assert(line@.take(j + 1) =~= line@.take(j as int).push(line@[j as int]));
            }
            assert(line@.take(line@.len() as int) =~= line@);
            assert(k.len() == 0 ==> before =~= seq![]);
            assert(k.push(line@).drop_last() =~= k);
            assert(out@ =~= join_lines(k.push(line@)));
            any_kept = true;
        }
    }
    assert(views.take(views.len() as int) =~= views);
    let (a, b) = trim_bounds(&out, 0, out.len());
    assert(out@.subrange(0, out@.len() as int) =~= out@);
    let r = string_of(&out, a, b - a);
    r
}

/// The leading run of characters of `s` that are not white space.
pub open spec fn leading_word(s: Seq<char>) -> Seq<char>
    decreases s.len(),
{
    if s.len() == 0 || is_ws(s[0]) {
        seq![]
    } else {
        seq![s[0]] + leading_word(s.drop_first())
    }
}

/// The first white-space separated word of `s` (`split_whitespace().next()`).
pub open spec fn first_word(s: Seq<char>) -> Option<Seq<char>> {
    let t = trim_start_ws(s);
    if t.len() == 0 {
        None
    } else {
        Some(leading_word(t))
    }
}

/// An ASCII decimal digit.
pub open spec fn is_digit(c: char) -> bool {
    '0' <= c <= '9'
}

/// The value of a string of decimal digits.
pub open spec fn digits_value(d: Seq<char>) -> nat
    decreases d.len(),
{
    if d.len() == 0 {
        0
    } else {
        digits_value(d.drop_last()) * 10 + ((d.last() as u32) - ('0' as u32)) as nat
    }
}

/// `t` without a leading `+`.
pub open spec fn unsigned_part(t: Seq<char>) -> Seq<char> {
    if t.len() > 0 && t[0] == '+' {
        t.drop_first()
    } else {
        t
    }
}

/// The result of parsing `t` as a `u32` (`str::parse::<u32>`): an optional `+`,
/// then one or more decimal digits, with a value that fits.
pub open spec fn parse_u32(t: Seq<char>) -> Option<u32> {
    let d = unsigned_part(t);
    if d.len() > 0 && (forall|i: int| 0 <= i < d.len() ==> #[trigger] is_digit(d[i])) && digits_value(
        d,
    ) <= u32::MAX {
        Some(digits_value(d) as u32)
    } else {
        None
    }
}

/// The count a line `error: aborting due to N ...` reports, when `N` parses.
pub open spec fn aborting_count(line: Seq<char>) -> Option<u32> {
    let p = "error: aborting due to "@;
    if has_prefix(line, p) {
        match first_word(line.skip(p.len() as int)) {
            Some(w) => parse_u32(w),
            None => None,
        }
    } else {
        None
    }
}

/// The count of the first line that reports one (see [`aborting_count`]).
pub open spec fn first_aborting(ls: Seq<Seq<char>>) -> Option<u32>
    decreases ls.len(),
{
    if ls.len() == 0 {
        None
    } else {
        match aborting_count(ls[0]) {
            Some(v) => Some(v),
            None => first_aborting(ls.drop_first()),
        }
    }
}

/// The number of lines that start with `p`.
pub open spec fn count_prefixed(ls: Seq<Seq<char>>, p: Seq<char>) -> nat
    decreases ls.len(),
{
    if ls.len() == 0 {
        0
    } else {
        count_prefixed(ls.drop_last(), p) + (if has_prefix(ls.last(), p) {
            1nat
        } else {
            0nat
        })
    }
}

/// The error count of a compiler output: the number on the first
/// `error: aborting due to N` line where `N` parses, else the number of lines
/// that start with `error[` (truncated to 32 bits).
pub open spec fn error_count_of(t: Seq<char>) -> u32 {
    let ls = str_lines(t);
    match first_aborting(ls) {
        Some(v) => v,
        None => count_prefixed(ls, "error["@) as u32,
    }
}

/// A digit string's prefixes have values no larger than the whole.
proof fn lemma_digits_value_prefix(d: Seq<char>, k: int)
    requires
        0 <= k <= d.len(),
        forall|i: int| 0 <= i < d.len() ==> #[trigger] is_digit(d[i]),
    ensures
        digits_value(d.take(k)) <= digits_value(d),
    decreases d.len() - k,
{
    if k < d.len() {
        assert(d.take(k + 1).drop_last() =~= d.take(k));
        assert(is_digit(d.take(k + 1).last()));
        if k + 1 < d.len() {
            lemma_digits_value_prefix(d, k + 1);
        } else {
            assert(d.take(k + 1) =~= d);
        }
    } else {
        assert(d.take(k) =~= d);
    }
}

/// Parses `v[a .. b]` as a `u32` (see [`parse_u32`]).
fn parse_u32_at(v: &Vec<char>, a: usize, b: usize) -> (r: Option<u32>)
    requires
        a <= b <= v@.len(),
    ensures
        r == parse_u32(v@.subrange(a as int, b as int)),
{
    let ghost t = v@.subrange(a as int, b as int);
    let start = if a < b && v[a] == '+' {
        a + 1
    } else {
        a
    };
    let ghost d = v@.subrange(start as int, b as int);
    assert(d =~= unsigned_part(t));
    if start == b {
        return None;
    }
    let mut acc: u64 = 0;
    let mut k = start;
    while k < b
        invariant
            start <= k <= b <= v@.len(),
            t == v@.subrange(a as int, b as int),
            d == unsigned_part(t),
            d == v@.subrange(start as int, b as int),
            forall|i: int| 0 <= i < k - start ==> #[trigger] is_digit(d[i]),
            acc == digits_value(d.take(k - start)),
            acc <= u32::MAX,
        decreases b - k,
    {
        let c = v[k];
        if !('0' <= c && c <= '9') {
            assert(d[k - start] == c);
            assert(!is_digit(unsigned_part(t)[k - start]));
            return None;
        }
        let digit = (c as u32 - '0' as u32) as u64;
        assert(d.take(k - start + 1).drop_last() =~= d.take(k - start));
        assert(d.take(k - start + 1).last() == c);
        assert(is_digit(d[k - start]));
        acc = acc * 10 + digit;
        if acc > 0xFFFF_FFFF {
            proof {
                if forall|i: int| 0 <= i < d.len() ==> #[trigger] is_digit(d[i]) {
                    lemma_digits_value_prefix(d, k - start + 1);
                }
                assert(parse_u32(t) is None);
            }
            return None;
        }
        k = k + 1;
    }
    assert(d.take(d.len() as int) =~= d);
    Some(acc as u32)
}

/// The first word of `v[a .. b]`, as bounds into `v` (see [`first_word`]).
fn first_word_bounds(v: &Vec<char>, a: usize, b: usize) -> (r: Option<(usize, usize)>)
    requires
        a <= b <= v@.len(),
    ensures
        match r {
            None => first_word(v@.subrange(a as int, b as int)) is None,
            Some(p) => p.0 <= p.1 <= b && first_word(v@.subrange(a as int, b as int)) == Some(
                v@.subrange(p.0 as int, p.1 as int),
            ),
        },
{
    let mut s = a;
    while s < b && is_white_space(v[s])
        invariant
            a <= s <= b <= v@.len(),
            trim_start_ws(v@.subrange(a as int, b as int)) == trim_start_ws(
                v@.subrange(s as int, b as int),
            ),
        decreases b - s,
    {
        assert(v@.subrange(s as int, b as int).drop_first() =~= v@.subrange(s + 1, b as int));
        s = s + 1;
    }
    assert(trim_start_ws(v@.subrange(s as int, b as int)) == v@.subrange(s as int, b as int));
    if s == b {
        return None;
    }
    let mut e = s;
    while e < b && !is_white_space(v[e])
        invariant
            s <= e <= b <= v@.len(),
            leading_word(v@.subrange(s as int, b as int)) == v@.subrange(s as int, e as int)
                + leading_word(v@.subrange(e as int, b as int)),
        decreases b - e,
    {
        assert(v@.subrange(e as int, b as int).drop_first() =~= v@.subrange(e + 1, b as int));
        assert(v@.subrange(s as int, e + 1) =~= v@.subrange(s as int, e as int) + seq![v@[e as int]]);
        e = e + 1;
    }
    assert(leading_word(v@.subrange(e as int, b as int)) =~= seq![]);
    assert(v@.subrange(s as int, e as int) + seq![] =~= v@.subrange(s as int, e as int));
    Some((s, e))
}

/// The count an `error: aborting due to N` line reports (see [`aborting_count`]).
fn aborting_count_of(line: &Vec<char>) -> (r: Option<u32>)
    ensures
        r == aborting_count(line@),
{
    let n = line.len();
    assert(line@.subrange(0, n as int) =~= line@);
    if !starts_with_str(line, 0, n, "error: aborting due to ") {
        return None;
    }
    let plen = chars_of("error: aborting due to ").len();
    assert(line@.subrange(plen as int, n as int) =~= line@.skip(plen as int));
    match first_word_bounds(line, plen, n) {
        None => None,
        Some(p) => parse_u32_at(line, p.0, p.1),
    }
}

/// The error count of a compiler output (see [`error_count_of`]).
pub fn error_count(stderr: &str) -> (r: u32)
    ensures
        r == error_count_of(stderr@),
{
    let ch = chars_of(stderr);
    let lines = split_lines(&ch);
    let ghost ls = char_views(lines@);
    let mut i: usize = 0;
    assert(ls.skip(0) =~= ls);
    while i < lines.len()
        invariant
            ls == char_views(lines@),
            ls == str_lines(stderr@),
            i <= lines@.len(),
            first_aborting(ls) == first_aborting(ls.skip(i as int)),
        decreases lines@.len() - i,
    {
        let c = aborting_count_of(&lines[i]);
        assert(ls.skip(i as int)[0] == lines@[i as int]@);
        assert(ls.skip(i as int).drop_first() =~= ls.skip(i + 1));
        match c {
            Some(v) => {
                assert(first_aborting(ls.skip(i as int)) == Some(v));
                assert(ls == str_lines(stderr@));
                return v;
            },
            None => {},
        }
        i = i + 1;
    }
    assert(ls.skip(i as int).len() == 0);
    let mut count: usize = 0;
    for j in 0..lines.len()
        invariant
            ls == char_views(lines@),
            ls == str_lines(stderr@),
            count == count_prefixed(ls.take(j as int), "error["@),
            count <= j,
    {
        assert(ls.take(j + 1).drop_last() =~= ls.take(j as int));
        assert(ls.take(j + 1).last() == lines@[j as int]@);
        let n = lines[j].len();
        assert(lines@[j as int]@.subrange(0, n as int) =~= lines@[j as int]@);
        if starts_with_str(&lines[j], 0, n, "error[") {
            count = count + 1;
        }
    }
    assert(ls.take(ls.len() as int) =~= ls);
    count as u32
}

} // verus!
