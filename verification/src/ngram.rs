//! Character n-grams of a text, and the sorted set of its 2-, 3- and 4-grams.
use vstd::prelude::*;
use crate::text::{chars_of, string_of};

verus! {

/// Strict lexicographic order of character sequences, by code point.
pub open spec fn char_lt(a: Seq<char>, b: Seq<char>) -> bool
    decreases a.len(),
{
    if a.len() == 0 {
        b.len() > 0
    } else if b.len() == 0 {
        false
    } else if a[0] != b[0] {
        (a[0] as u32) < (b[0] as u32)
    } else {
        char_lt(a.drop_first(), b.drop_first())
    }
}

/// The `n`-character windows of `t`, in order.
pub open spec fn windows(t: Seq<char>, n: int) -> Seq<Seq<char>> {
    if t.len() < n {
        seq![]
    } else {
        Seq::new((t.len() - n + 1) as nat, |i: int| t.subrange(i, i + n))
    }
}

/// The 2-, 3- and 4-character windows of `t`, as a set.
pub open spec fn gram_windows(t: Seq<char>) -> Set<Seq<char>> {
    Set::new(
        |g: Seq<char>|
            exists|n: int, i: int|
                2 <= n <= 4 && 0 <= i && i + n <= t.len() && #[trigger] t.subrange(i, i + n) == g,
    )
}

/// The `n`-character n-grams of a text, in order (none when the text is shorter than `n`).
pub fn ngrams(text: &str, n: usize) -> (r: Vec<String>)
    ensures
        r@.len() == windows(text@, n as int).len(),
        forall|i: int| 0 <= i < r@.len() ==> #[trigger] r@[i]@ == windows(text@, n as int)[i],
{
    let ch = chars_of(text);
    let mut out: Vec<String> = Vec::new();
    if ch.len() < n {
        return out;
    }
    let last = ch.len() - n;
    let mut i: usize = 0;
    loop
        invariant_except_break
            out@.len() == i,
            forall|k: int| 0 <= k < i ==> #[trigger] out@[k]@ == windows(text@, n as int)[k],
        invariant
            ch@ == text@,
            ch@.len() >= n,
            last == ch@.len() - n,
            i <= last,
        ensures
            out@.len() == last + 1,
            forall|k: int| 0 <= k <= last ==> #[trigger] out@[k]@ == windows(text@, n as int)[k],
        decreases last - i,
    {
        out.push(string_of(&ch, i, n));
        if i == last {
            break;
        }
        i = i + 1;
    }
    out
}

/// The order is irreflexive.
pub proof fn lemma_char_lt_irreflexive(a: Seq<char>)
    ensures
        !char_lt(a, a),
    decreases a.len(),
{
    if a.len() > 0 {
        lemma_char_lt_irreflexive(a.drop_first());
    }
}

/// The order is transitive.
pub proof fn lemma_char_lt_transitive(a: Seq<char>, b: Seq<char>, c: Seq<char>)
    requires
        char_lt(a, b),
        char_lt(b, c),
    ensures
        char_lt(a, c),
    decreases a.len(),
{
    if a.len() > 0 && b.len() > 0 && c.len() > 0 {
        if a[0] == b[0] && b[0] == c[0] {
            lemma_char_lt_transitive(a.drop_first(), b.drop_first(), c.drop_first());
        }
    }
}

/// Any two different sequences are ordered one way or the other.
pub proof fn lemma_char_lt_total(a: Seq<char>, b: Seq<char>)
    ensures
        a == b || char_lt(a, b) || char_lt(b, a),
    decreases a.len(),
{
    if a.len() > 0 && b.len() > 0 {
        if a[0] == b[0] {
            lemma_char_lt_total(a.drop_first(), b.drop_first());
            if a.drop_first() == b.drop_first() {
                assert(a =~= seq![a[0]] + a.drop_first());
                assert(b =~= seq![b[0]] + b.drop_first());
            }
        } else {
            vstd::utf8::char_u32_cast(a[0], a[0] as u32);
            vstd::utf8::char_u32_cast(b[0], b[0] as u32);
        }
    } else if a.len() == 0 && b.len() == 0 {
        assert(a =~= b);
    }
}

/// Whether `a` comes strictly before `b`.
pub(crate) fn chars_lt(a: &Vec<char>, b: &Vec<char>) -> (r: bool)
    ensures
        r == char_lt(a@, b@),
{
    let mut i: usize = 0;
    assert(a@.skip(0) =~= a@ && b@.skip(0) =~= b@);
    while i < a.len() && i < b.len()
        invariant
            i <= a@.len(),
            i <= b@.len(),
            char_lt(a@, b@) == char_lt(a@.skip(i as int), b@.skip(i as int)),
        decreases a@.len() - i,
    {
        if a[i] != b[i] {
            return (a[i] as u32) < (b[i] as u32);
        }
        assert(a@.skip(i as int).drop_first() =~= a@.skip(i + 1));
        assert(b@.skip(i as int).drop_first() =~= b@.skip(i + 1));
        i = i + 1;
    }
    i < b.len()
}

/// Whether two character vectors are equal.
pub(crate) fn chars_eq(a: &Vec<char>, b: &Vec<char>) -> (r: bool)
    ensures
        r == (a@ == b@),
{
    if a.len() != b.len() {
        return false;
    }
    for i in 0..a.len()
        invariant
            a@.len() == b@.len(),
            forall|k: int| 0 <= k < i ==> a@[k] == b@[k],
    {
        if a[i] != b[i] {
            return false;
        }
    }
    assert(a@ =~= b@);
    true
}

/// The windows of lengths 2 ..= `n - 1`, and those of length `n` starting before `i`.
spec fn grams_before(t: Seq<char>, n: int, i: int) -> Set<Seq<char>> {
    Set::new(
        |g: Seq<char>|
            exists|m: int, j: int|
                2 <= m <= 4 && 0 <= j && j + m <= t.len() && (m < n || (m == n && j < i))
                    && #[trigger] t.subrange(j, j + m) == g,
    )
}

/// Whether some entry of `l` holds the characters `x`.
spec fn listed(l: Seq<Vec<char>>, x: Seq<char>) -> bool {
    exists|i: int| 0 <= i < l.len() && #[trigger] l[i]@ == x
}

/// Whether some string of `l` holds the characters `x`.
pub open spec fn holds_string(l: Seq<String>, x: Seq<char>) -> bool {
    exists|i: int| 0 <= i < l.len() && #[trigger] l[i]@ == x
}

/// Inserts `g` into a strictly increasing list unless it is there already.
fn insert_sorted(list: &mut Vec<Vec<char>>, g: Vec<char>)
    requires
        forall|i: int, j: int| 0 <= i < j < old(list)@.len() ==> char_lt(old(list)@[i]@, old(list)@[j]@),
    ensures
        forall|i: int, j: int| 0 <= i < j < final(list)@.len() ==> char_lt(final(list)@[i]@, final(list)@[j]@),
        forall|x: Seq<char>| #[trigger] listed(final(list)@, x) <==> (listed(old(list)@, x) || x == g@),
{
    let mut p: usize = 0;
    while p < list.len() && chars_lt(&list[p], &g)
        invariant
            p <= list@.len(),
            forall|k: int| 0 <= k < p ==> char_lt(#[trigger] list@[k]@, g@),
        decreases list@.len() - p,
    {
        p = p + 1;
    }
    if p < list.len() && chars_eq(&list[p], &g) {
        return;
    }
    proof {
        if p < list@.len() {
            lemma_char_lt_total(list@[p as int]@, g@);
        }
    }
    let ghost old_list = list@;
    list.insert(p, g);
    proof {
        assert forall|j: int| p < j < list@.len() implies char_lt(list@[p as int]@, #[trigger] list@[j]@) by {
            if j - 1 > p {
                lemma_char_lt_transitive(list@[p as int]@, old_list[p as int]@, old_list[j - 1]@);
            }
        }
        assert forall|i: int, j: int| 0 <= i < j < list@.len() implies char_lt(list@[i]@, list@[j]@) by {
            if i < p && j > p {
                lemma_char_lt_transitive(list@[i]@, list@[p as int]@, list@[j]@);
            }
        }
        assert forall|x: Seq<char>| #[trigger] listed(list@, x) <==> (listed(old_list, x) || x == list@[p as int]@) by {
            if listed(list@, x) {
                let i = choose|i: int| 0 <= i < list@.len() && #[trigger] list@[i]@ == x;
                if i < p {
                    assert(old_list[i] == list@[i]);
                } else if i > p {
                    assert(old_list[i - 1] == list@[i]);
                }
            }
            if listed(old_list, x) {
                let i = choose|i: int| 0 <= i < old_list.len() && #[trigger] old_list[i]@ == x;
                if i < p {
                    assert(list@[i] == old_list[i]);
                } else {
                    assert(list@[i + 1] == old_list[i]);
                }
            }
            if x == list@[p as int]@ {
                assert(list@[p as int]@ == x);
            }
        }
    }
}

/// All 2-, 3- and 4-character n-grams of a text, each once, in increasing
/// code-point lexicographic order.
pub fn gram_set(text: &str) -> (r: Vec<String>)
    ensures
        forall|i: int, j: int| 0 <= i < j < r@.len() ==> char_lt(r@[i]@, r@[j]@),
        forall|x: Seq<char>| #[trigger] holds_string(r@, x) <==> gram_windows(text@).contains(x),
{
    let ch = chars_of(text);
    let mut list: Vec<Vec<char>> = Vec::new();
    let mut n: usize = 2;
    while n <= 4
        invariant
            ch@ == text@,
            2 <= n <= 5,
            forall|i: int, j: int| 0 <= i < j < list@.len() ==> char_lt(list@[i]@, list@[j]@),
            forall|x: Seq<char>| #[trigger] listed(list@, x) <==> grams_before(text@, n as int, 0).contains(x),
        decreases 5 - n,
    {
        if ch.len() >= n {
            let last = ch.len() - n;
            let mut i: usize = 0;
            loop
                invariant_except_break
                    forall|x: Seq<char>| #[trigger] listed(list@, x) <==> grams_before(text@, n as int, i as int).contains(x),
                invariant
                    ch@ == text@,
                    2 <= n <= 4,
                    ch@.len() >= n,
                    last == ch@.len() - n,
                    i <= last,
                    forall|a: int, b: int| 0 <= a < b < list@.len() ==> char_lt(list@[a]@, list@[b]@),
                ensures
                    forall|x: Seq<char>| #[trigger] listed(list@, x) <==> grams_before(text@, n as int, last + 1).contains(x),
                decreases last - i,
            {
                let g = window_chars(&ch, i, n);
                let ghost gv = g@;
                let ghost before = list@;
                insert_sorted(&mut list, g);
                assert forall|x: Seq<char>| #[trigger] grams_before(text@, n as int, i + 1).contains(x) <==> (grams_before(text@, n as int, i as int).contains(x) || x == gv) by {
                    if grams_before(text@, n as int, i + 1).contains(x) {
                        let (m, j) = choose|m: int, j: int| 2 <= m <= 4 && 0 <= j && j + m <= text@.len() && (m < n || (m == n && j < i + 1)) && #[trigger] text@.subrange(j, j + m) == x;
                        if !(m < n || (m == n && j < i)) {
                            assert(j == i && m == n);
                        }
                    }
                    if x == gv {
                        assert(text@.subrange(i as int, i + n) == x);
                    }
                }
                if i == last {
                    break;
                }
                i = i + 1;
            }
            assert forall|x: Seq<char>| #[trigger] grams_before(text@, n as int, last + 1).contains(x) <==> grams_before(text@, n + 1, 0).contains(x) by {
                if grams_before(text@, n + 1, 0).contains(x) {
                    let (m, j) = choose|m: int, j: int| 2 <= m <= 4 && 0 <= j && j + m <= text@.len() && (m < n + 1 || (m == n + 1 && j < 0)) && #[trigger] text@.subrange(j, j + m) == x;
                    assert(m < n || (m == n && j < last + 1));
                }
            }
        } else {
            assert forall|x: Seq<char>| #[trigger] grams_before(text@, n as int, 0).contains(x) <==> grams_before(text@, n + 1, 0).contains(x) by {
                if grams_before(text@, n + 1, 0).contains(x) {
                    let (m, j) = choose|m: int, j: int| 2 <= m <= 4 && 0 <= j && j + m <= text@.len() && (m < n + 1 || (m == n + 1 && j < 0)) && #[trigger] text@.subrange(j, j + m) == x;
                    assert(m < n);
                }
            }
        }
        n = n + 1;
    }
    assert forall|x: Seq<char>| #[trigger] grams_before(text@, 5, 0).contains(x) <==> gram_windows(text@).contains(x) by {
        if gram_windows(text@).contains(x) {
            let (m, j) = choose|m: int, j: int| 2 <= m <= 4 && 0 <= j && j + m <= text@.len() && #[trigger] text@.subrange(j, j + m) == x;
            assert(m < 5);
        }
    }
    let mut out: Vec<String> = Vec::new();
    for k in 0..list.len()
        invariant
            out@.len() == k,
            forall|i: int| 0 <= i < k ==> #[trigger] out@[i]@ == list@[i]@,
    {
        out.push(string_of(&list[k], 0, list[k].len()));
        assert(list@[k as int]@.subrange(0, list@[k as int]@.len() as int) =~= list@[k as int]@);
    }
    proof {
        assert forall|x: Seq<char>| #[trigger] holds_string(out@, x) <==> listed(list@, x) by {
            if holds_string(out@, x) {
                let i = choose|i: int| 0 <= i < out@.len() && #[trigger] out@[i]@ == x;
                assert(list@[i]@ == x);
            }
            if listed(list@, x) {
                let i = choose|i: int| 0 <= i < list@.len() && #[trigger] list@[i]@ == x;
                assert(out@[i]@ == x);
            }
        }
    }
    out
}

/// The characters `chars[start .. start + n]`.
fn window_chars(chars: &Vec<char>, start: usize, n: usize) -> (r: Vec<char>)
    requires
        start + n <= chars@.len(),
    ensures
        r@ == chars@.subrange(start as int, start + n),
{
    let mut r: Vec<char> = Vec::new();
    for k in 0..n
        invariant
            start + n <= chars@.len(),
            chars@.len() == chars.len(),
            r@ == chars@.subrange(start as int, start + k),
    {
        r.push(chars[start + k]);
        assert(chars@.subrange(start as int, start + k + 1) =~= chars@.subrange(start as int, start + k).push(chars@[start + k]));
    }
    r
}

} // verus!
