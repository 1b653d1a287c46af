//! A corpus text as its non-empty lines.
use vstd::prelude::*;
use crate::text::{chars_of, string_of};

verus! {

/// A line without the carriage return that ended it, if any.
pub open spec fn strip_cr(line: Seq<char>) -> Seq<char> {
    if line.len() > 0 && line.last() == '\r' {
        line.drop_last()
    } else {
        line
    }
}

/// Reading `t` line by line as `str::lines` does (a line ends at `'\n'`, and a
/// `'\r'` just before it is dropped): the finished non-empty lines, and the
/// characters of the line not yet ended.
pub open spec fn line_scan(t: Seq<char>) -> (Seq<Seq<char>>, Seq<char>)
    decreases t.len(),
{
    if t.len() == 0 {
        (seq![], seq![])
    } else {
        let prev = line_scan(t.drop_last());
        if t.last() == '\n' {
            let line = strip_cr(prev.1);
            (if line.len() > 0 {
                prev.0.push(line)
            } else {
                prev.0
            }, seq![])
        } else {
            (prev.0, prev.1.push(t.last()))
        }
    }
}

/// The non-empty lines of `t`, in order; the last line needs no line ending.
pub open spec fn nonempty_lines(t: Seq<char>) -> Seq<Seq<char>> {
    let s = line_scan(t);
    if s.1.len() > 0 {
        s.0.push(s.1)
    } else {
        s.0
    }
}

/// The views of a list of strings.
pub open spec fn string_views(v: Seq<String>) -> Seq<Seq<char>> {
    v.map_values(|s: String| s@)
}

/// The non-empty lines of a corpus text, each as a string, in order.
pub fn corpus_lines(text: &str) -> (r: Vec<String>)
    ensures
        string_views(r@) == nonempty_lines(text@),
{
    let ch = chars_of(text);
    let mut lines: Vec<String> = Vec::new();
    let mut cur: Vec<char> = Vec::new();
    for i in 0..ch.len()
        invariant
            ch@ == text@,
            string_views(lines@) == line_scan(text@.take(i as int)).0,
            cur@ == line_scan(text@.take(i as int)).1,
    {
        let c = ch[i];
        assert(text@.take(i + 1).drop_last() =~= text@.take(i as int));
        assert(text@.take(i + 1).last() == c);
        if c == '\n' {
            let n = cur.len();
            let keep = if n > 0 && cur[n - 1] == '\r' {
                n - 1
            } else {
                n
            };
            if keep > 0 {
                let line = string_of(&cur, 0, keep);
                assert(cur@.subrange(0, keep as int) =~= strip_cr(cur@));
                lines.push(line);
                assert(string_views(lines@) =~= line_scan(text@.take(i + 1)).0);
            } else {
                assert(strip_cr(cur@).len() == 0);
            }
            cur = Vec::new();
        } else {
            cur.push(c);
        }
    }
    assert(text@.take(ch@.len() as int) =~= text@);
    if cur.len() > 0 {
        let n = cur.len();
        let line = string_of(&cur, 0, n);
        assert(cur@.subrange(0, n as int) =~= cur@);
        lines.push(line);
        assert(string_views(lines@) =~= nonempty_lines(text@));
    }
    lines
}

} // verus!
