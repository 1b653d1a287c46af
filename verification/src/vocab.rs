//! The gram vocabulary of a corpus: its grams in code-point order, the number of
//! documents each occurs in, and the bitset of a document over the vocabulary.
use vstd::prelude::*;
use crate::bitset::{DocBits, bit_of, word_bit, lemma_zero_word_bits};
use crate::corpus::string_views;
use crate::ngram::{
    char_lt, chars_eq, chars_lt, holds_string, lemma_char_lt_irreflexive, lemma_char_lt_total,
    lemma_char_lt_transitive,
};
use crate::rustc_text::char_views;
use crate::text::{chars_of, string_of};

verus! {

/// Strictly increasing in the code-point order.
pub open spec fn strictly_sorted(s: Seq<Seq<char>>) -> bool {
    forall|i: int, j: int| 0 <= i < j < s.len() ==> char_lt(s[i], s[j])
}

/// A list without repeated grams.
pub open spec fn no_repeats(l: Seq<String>) -> bool {
    forall|i: int, j: int| 0 <= i < j < l.len() ==> l[i]@ != l[j]@
}

/// One of the first `j` grams of `l` is `x`.
pub open spec fn in_prefix(l: Seq<String>, x: Seq<char>, j: int) -> bool {
    exists|t: int| 0 <= t < j && t < l.len() && #[trigger] l[t]@ == x
}

/// One of the first `n` lists holds `x`.
pub open spec fn in_some_list(lists: Seq<Vec<String>>, x: Seq<char>, n: int) -> bool {
    exists|k: int| 0 <= k < n && #[trigger] holds_string(lists[k]@, x)
}

/// The number of the first `n` lists that hold `x`.
pub open spec fn lists_holding(lists: Seq<Vec<String>>, x: Seq<char>, n: int) -> nat
    decreases n,
{
    if n <= 0 {
        0
    } else {
        lists_holding(lists, x, n - 1) + (if holds_string(lists[n - 1]@, x) {
            1nat
        } else {
            0nat
        })
    }
}

/// At most `n` of the first `n` lists hold `x`.
proof fn lemma_lists_holding_bound(lists: Seq<Vec<String>>, x: Seq<char>, n: int)
    requires
        0 <= n,
    ensures
        lists_holding(lists, x, n) <= n,
    decreases n,
{
    if n > 0 {
        lemma_lists_holding_bound(lists, x, n - 1);
    }
}

/// No list before the `n`-th holds a gram that none of them holds.
proof fn lemma_lists_holding_zero(lists: Seq<Vec<String>>, x: Seq<char>, n: int)
    requires
        0 <= n,
        !in_some_list(lists, x, n),
    ensures
        lists_holding(lists, x, n) == 0,
    decreases n,
{
    if n > 0 {
        assert(!holds_string(lists[n - 1]@, x));
        lemma_lists_holding_zero(lists, x, n - 1);
    }
}

/// The first position `p` of a sorted list whose entry does not come before `g`.
fn lower_bound(t: &Vec<Vec<char>>, g: &Vec<char>) -> (p: usize)
    requires
        strictly_sorted(char_views(t@)),
    ensures
        p <= t@.len(),
        forall|i: int| 0 <= i < p ==> char_lt(#[trigger] t@[i]@, g@),
        forall|i: int| p <= i < t@.len() ==> !char_lt(#[trigger] t@[i]@, g@),
{
    let mut lo: usize = 0;
    let mut hi: usize = t.len();
    while lo < hi
        invariant
            lo <= hi <= t@.len(),
            strictly_sorted(char_views(t@)),
            forall|i: int| 0 <= i < lo ==> char_lt(#[trigger] t@[i]@, g@),
            forall|i: int| hi <= i < t@.len() ==> !char_lt(#[trigger] t@[i]@, g@),
        decreases hi - lo,
    {
        let mid = lo + (hi - lo) / 2;
        if chars_lt(&t[mid], g) {
            proof {
                assert forall|i: int| 0 <= i < mid + 1 implies char_lt(#[trigger] t@[i]@, g@) by {
                    if i < mid {
                        assert(char_views(t@)[i] == t@[i]@ && char_views(t@)[mid as int] == t@[mid as int]@);
                        lemma_char_lt_transitive(t@[i]@, t@[mid as int]@, g@);
                    }
                }
            }
            lo = mid + 1;
        } else {
            proof {
                assert forall|i: int| mid <= i < t@.len() implies !char_lt(#[trigger] t@[i]@, g@) by {
                    if mid < i && char_lt(t@[i]@, g@) {
                        assert(char_views(t@)[i] == t@[i]@ && char_views(t@)[mid as int] == t@[mid as int]@);
                        lemma_char_lt_transitive(t@[mid as int]@, t@[i]@, g@);
                    }
                }
            }
            hi = mid;
        }
    }
    lo
}

/// The corpus vocabulary: grams in increasing code-point order, each with the
/// number of documents holding it.
pub struct GramIndex {
    terms: Vec<String>,
    term_chars: Vec<Vec<char>>,
    df: Vec<usize>,
}

impl GramIndex {
    /// The grams, in order.
    pub closed spec fn terms_view(&self) -> Seq<Seq<char>> {
        string_views(self.terms@)
    }

    /// The document frequency of each gram.
    pub closed spec fn df_view(&self) -> Seq<usize> {
        self.df@
    }

    /// The grams are strictly increasing and each has one frequency.
    pub closed spec fn wf(&self) -> bool {
        &&& self.term_chars@.len() == self.terms@.len()
        &&& forall|i: int| 0 <= i < self.terms@.len() ==> #[trigger] self.term_chars@[i]@ == self.terms@[i]@
        &&& self.df@.len() == self.terms@.len()
        &&& strictly_sorted(string_views(self.terms@))
    }

    /// The vocabulary of the gram lists of a corpus: every gram of some list, in
    /// increasing order, with the number of lists that hold it.
    pub fn build(gram_lists: &[Vec<String>]) -> (r: Self)
        requires
            forall|k: int| 0 <= k < gram_lists@.len() ==> no_repeats(#[trigger] gram_lists@[k]@),
        ensures
            r.wf(),
            strictly_sorted(r.terms_view()),
            r.df_view().len() == r.terms_view().len(),
            forall|x: Seq<char>|
                #[trigger] r.terms_view().contains(x) <==> in_some_list(
                    gram_lists@,
                    x,
                    gram_lists@.len() as int,
                ),
            forall|i: int|
                0 <= i < r.terms_view().len() ==> #[trigger] r.df_view()[i] == lists_holding(
                    gram_lists@,
                    r.terms_view()[i],
                    gram_lists@.len() as int,
                ),
    {
        let ghost lists = gram_lists@;
        let mut tc: Vec<Vec<char>> = Vec::new();
        let mut df: Vec<usize> = Vec::new();
        let nl = gram_lists.len();
        for l in 0..nl
            invariant
                lists == gram_lists@,
                nl == lists.len(),
                forall|k: int| 0 <= k < lists.len() ==> no_repeats(#[trigger] lists[k]@),
                strictly_sorted(char_views(tc@)),
                df@.len() == tc@.len(),
                forall|x: Seq<char>|
                    #[trigger] char_views(tc@).contains(x) <==> in_some_list(lists, x, l as int),
                forall|i: int|
                    0 <= i < tc@.len() ==> #[trigger] df@[i] == lists_holding(lists, tc@[i]@, l as int),
                forall|i: int| 0 <= i < tc@.len() ==> #[trigger] df@[i] <= l,
        {
            let list = &gram_lists[l];
            for j in 0..list.len()
                invariant
                    lists == gram_lists@,
                    nl == lists.len(),
                    l < lists.len(),
                    list@ == lists[l as int]@,
                    no_repeats(list@),
                    strictly_sorted(char_views(tc@)),
                    df@.len() == tc@.len(),
                    forall|x: Seq<char>|
                        #[trigger] char_views(tc@).contains(x) <==> (in_some_list(lists, x, l as int)
                            || in_prefix(list@, x, j as int)),
                    forall|i: int|
                        0 <= i < tc@.len() ==> #[trigger] df@[i] == lists_holding(lists, tc@[i]@, l as int)
                            + (if in_prefix(list@, tc@[i]@, j as int) {
                            1nat
                        } else {
                            0nat
                        }),
                    forall|i: int| 0 <= i < tc@.len() ==> #[trigger] df@[i] <= l + 1,
            {
                let g = chars_of(list[j].as_str());
                let ghost gv = g@;
                let ghost t0 = char_views(tc@);
                let ghost d0 = df@;
                assert(!in_prefix(list@, gv, j as int)) by {
                    if in_prefix(list@, gv, j as int) {
                        let t = choose|t: int| 0 <= t < j && t < list@.len() && #[trigger] list@[t]@ == gv;
                        assert(list@[t]@ != list@[j as int]@);
                    }
                }
                let p = lower_bound(&tc, &g);
                if p < tc.len() && chars_eq(&tc[p], &g) {
                    proof {
                        lemma_lists_holding_bound(lists, gv, l as int);
                        assert(tc@[p as int]@ == gv);
                        assert(df@[p as int] == lists_holding(lists, gv, l as int));
                    }
                    let v = df[p] + 1;
                    df.set(p, v);
                    proof {
                        assert forall|x: Seq<char>| #[trigger] char_views(tc@).contains(x) <==> (
                        in_some_list(lists, x, l as int) || in_prefix(list@, x, j + 1)) by {
                            if in_prefix(list@, x, j + 1) && !in_prefix(list@, x, j as int) {
                                assert(list@[j as int]@ == x);
                                assert(char_views(tc@)[p as int] == x);
                            }
                            if in_prefix(list@, x, j as int) {
                                let t = choose|t: int| 0 <= t < j && t < list@.len() && #[trigger] list@[t]@ == x;
                                assert(in_prefix(list@, x, j + 1));
                            }
                        }
                        assert forall|i: int| 0 <= i < tc@.len() implies #[trigger] df@[i] == lists_holding(
                            lists,
                            tc@[i]@,
                            l as int,
                        ) + (if in_prefix(list@, tc@[i]@, j + 1) {
                            1nat
                        } else {
                            0nat
                        }) && df@[i] <= l + 1 by {
                            let y = tc@[i]@;
                            if i == p {
                                assert(list@[j as int]@ == y);
                                assert(in_prefix(list@, y, j + 1));
                            } else {
                                assert(df@[i] == d0[i]);
                                if i < p {
                                    assert(char_lt(y, gv));
                                    lemma_char_lt_irreflexive(gv);
                                } else {
                                    assert(char_views(tc@)[p as int] == gv && char_views(tc@)[i] == y);
                                    lemma_char_lt_irreflexive(gv);
                                }
                                if in_prefix(list@, y, j + 1) && !in_prefix(list@, y, j as int) {
                                    assert(list@[j as int]@ == y);
                                }
                                if in_prefix(list@, y, j as int) {
                                    let t = choose|t: int| 0 <= t < j && t < list@.len() && #[trigger] list@[t]@ == y;
                                    assert(in_prefix(list@, y, j + 1));
                                }
                            }
                        }
                    }
                } else {
                    proof {
                        assert(!t0.contains(gv)) by {
                            if t0.contains(gv) {
                                let i = choose|i: int| 0 <= i < t0.len() && t0[i] == gv;
                                if i < p {
                                    assert(char_lt(tc@[i]@, gv));
                                    lemma_char_lt_irreflexive(gv);
                                } else if i > p {
                                    lemma_char_lt_total(tc@[p as int]@, gv);
                                    assert(char_views(tc@)[p as int] == tc@[p as int]@);
                                    lemma_char_lt_transitive(gv, tc@[p as int]@, gv);
                                    lemma_char_lt_irreflexive(gv);
                                }
                            }
                        }
                        assert(!in_some_list(lists, gv, l as int));
                        lemma_lists_holding_zero(lists, gv, l as int);
                        if p < tc@.len() {
                            lemma_char_lt_total(tc@[p as int]@, gv);
                        }
                    }
                    tc.insert(p, g);
                    df.insert(p, 1);
                    proof {
                        let t1 = char_views(tc@);
                        assert(t1 =~= t0.insert(p as int, gv));
                        assert forall|a: int, b: int| 0 <= a < b < t1.len() implies char_lt(t1[a], t1[b]) by {
                            if a < p && b == p {
                            } else if a == p && b > p {
                                if b - 1 > p {
                                    lemma_char_lt_transitive(gv, t0[p as int], t0[b - 1]);
                                }
                            } else if a < p && b > p {
                                if b - 1 > p {
                                    lemma_char_lt_transitive(gv, t0[p as int], t0[b - 1]);
                                }
                                lemma_char_lt_transitive(t1[a], gv, t1[b]);
                            }
                        }
                        assert forall|x: Seq<char>| #[trigger] t1.contains(x) <==> (in_some_list(lists, x, l as int)
                            || in_prefix(list@, x, j + 1)) by {
                            if t1.contains(x) {
                                let i = choose|i: int| 0 <= i < t1.len() && t1[i] == x;
                                if i < p {
                                    assert(t0[i] == x);
                                    assert(t0.contains(x));
                                } else if i > p {
                                    assert(t0[i - 1] == x);
                                    assert(t0.contains(x));
                                } else {
                                    assert(list@[j as int]@ == x);
                                }
                            }
                            if in_some_list(lists, x, l as int) || in_prefix(list@, x, j as int) {
                                assert(t0.contains(x));
                                let i = choose|i: int| 0 <= i < t0.len() && t0[i] == x;
                                if i < p {
                                    assert(t1[i] == x);
                                } else {
                                    assert(t1[i + 1] == x);
                                }
                            }
                            if in_prefix(list@, x, j + 1) && !in_prefix(list@, x, j as int) {
                                assert(list@[j as int]@ == x);
                                assert(t1[p as int] == x);
                            }
                            if in_prefix(list@, x, j as int) {
                                let t = choose|t: int| 0 <= t < j && t < list@.len() && #[trigger] list@[t]@ == x;
                                assert(in_prefix(list@, x, j + 1));
                            }
                        }
                        assert forall|i: int| 0 <= i < tc@.len() implies #[trigger] df@[i] == lists_holding(
                            lists,
                            tc@[i]@,
                            l as int,
                        ) + (if in_prefix(list@, tc@[i]@, j + 1) {
                            1nat
                        } else {
                            0nat
                        }) && df@[i] <= l + 1 by {
                            let y = tc@[i]@;
                            assert(t1[i] == y);
                            if i == p {
                                assert(list@[j as int]@ == y);
                                assert(in_prefix(list@, y, j + 1));
                            } else {
                                let io = if i < p { i } else { i - 1 };
                                assert(t0[io] == y);
                                assert(df@[i] == d0[io]);
                                assert(y != gv) by {
                                    if y == gv {
                                        assert(t0.contains(gv));
                                    }
                                }
                                if in_prefix(list@, y, j + 1) && !in_prefix(list@, y, j as int) {
                                    assert(list@[j as int]@ == y);
                                }
                                if in_prefix(list@, y, j as int) {
                                    let t = choose|t: int| 0 <= t < j && t < list@.len() && #[trigger] list@[t]@ == y;
                                    assert(in_prefix(list@, y, j + 1));
                                }
                            }
                        }
                    }
                }
            }
            proof {
                assert forall|x: Seq<char>| in_prefix(list@, x, list@.len() as int) == holds_string(list@, x) by {
                    if holds_string(list@, x) {
                        let t = choose|t: int| 0 <= t < list@.len() && #[trigger] list@[t]@ == x;
                        assert(in_prefix(list@, x, list@.len() as int));
                    }
                    if in_prefix(list@, x, list@.len() as int) {
                        let t = choose|t: int| 0 <= t < list@.len() && t < list@.len() && #[trigger] list@[t]@ == x;
                        assert(holds_string(list@, x));
                    }
                }
                assert forall|x: Seq<char>| #[trigger] char_views(tc@).contains(x) <==> in_some_list(lists, x, l + 1) by {
                    if in_some_list(lists, x, l + 1) && !in_some_list(lists, x, l as int) {
                        assert(holds_string(lists[l as int]@, x));
                        assert(in_prefix(list@, x, list@.len() as int));
                    }
                    if in_prefix(list@, x, list@.len() as int) {
                        assert(holds_string(lists[l as int]@, x));
                        assert(in_some_list(lists, x, l + 1));
                    }
                    if in_some_list(lists, x, l as int) {
                        let k = choose|k: int| 0 <= k < l && #[trigger] holds_string(lists[k]@, x);
                        assert(in_some_list(lists, x, l + 1));
                    }
                }
                assert forall|i: int| 0 <= i < tc@.len() implies #[trigger] df@[i] == lists_holding(
                    lists,
                    tc@[i]@,
                    l + 1,
                ) by {
                    let y = tc@[i]@;
                    assert(in_prefix(list@, y, list@.len() as int) == holds_string(lists[l as int]@, y));
                }
            }
        }
        let mut terms: Vec<String> = Vec::new();
        for i in 0..tc.len()
            invariant
                terms@.len() == i,
                forall|k: int| 0 <= k < i ==> #[trigger] terms@[k]@ == tc@[k]@,
        {
            let s = string_of(&tc[i], 0, tc[i].len());
            assert(tc@[i as int]@.subrange(0, tc@[i as int]@.len() as int) =~= tc@[i as int]@);
            terms.push(s);
        }
        assert(string_views(terms@) =~= char_views(tc@));
        GramIndex { terms, term_chars: tc, df }
    }

    /// Number of grams.
    pub fn len(&self) -> (r: usize)
        requires
            self.wf(),
        ensures
            r == self.terms_view().len(),
    {
        self.terms.len()
    }

    /// The grams, in order.
    pub fn terms(&self) -> (r: &Vec<String>)
        ensures
            string_views(r@) == self.terms_view(),
    {
        &self.terms
    }

    /// The document frequency of each gram.
    pub fn df(&self) -> (r: &Vec<usize>)
        ensures
            r@ == self.df_view(),
    {
        &self.df
    }

    /// Bitset width in words: enough words for one bit per gram.
    pub fn nw(&self) -> (r: usize)
        requires
            self.wf(),
        ensures
            r == (self.terms_view().len() + 63) / 64,
    {
        let n = self.terms.len();
        if n % 64 == 0 {
            n / 64
        } else {
            n / 64 + 1
        }
    }

    /// The index of gram `g`, if it is in the vocabulary.
    pub fn index_of(&self, g: &str) -> (r: Option<usize>)
        requires
            self.wf(),
        ensures
            match r {
                Some(i) => i < self.terms_view().len() && self.terms_view()[i as int] == g@,
                None => !self.terms_view().contains(g@),
            },
    {
        let gc = chars_of(g);
        assert(char_views(self.term_chars@) =~= string_views(self.terms@));
        let p = lower_bound(&self.term_chars, &gc);
        if p < self.term_chars.len() && chars_eq(&self.term_chars[p], &gc) {
            Some(p)
        } else {
            proof {
                let t = string_views(self.terms@);
                if t.contains(g@) {
                    let i = choose|i: int| 0 <= i < t.len() && t[i] == g@;
                    assert(self.term_chars@[i]@ == g@);
                    if i < p {
                        lemma_char_lt_irreflexive(g@);
                    } else if i > p {
                        lemma_char_lt_total(self.term_chars@[p as int]@, g@);
                        assert(t[p as int] == self.term_chars@[p as int]@);
                        lemma_char_lt_transitive(g@, self.term_chars@[p as int]@, g@);
                        lemma_char_lt_irreflexive(g@);
                    }
                }
            }
            None
        }
    }

    /// The bitset of a document over the vocabulary: bit `i` is set exactly when
    /// gram `i` is among `grams`.
    pub fn to_docbits(&self, grams: &[String]) -> (r: DocBits)
        requires
            self.wf(),
        ensures
            r.wf(),
            r.nw == (self.terms_view().len() + 63) / 64,
            forall|i: int|
                0 <= i < self.terms_view().len() ==> (#[trigger] bit_of(r.words@, i) <==> holds_string(
                    grams@,
                    self.terms_view()[i],
                )),
            forall|i: int| i >= self.terms_view().len() ==> !#[trigger] bit_of(r.words@, i),
    {
        let nw = self.nw();
        let mut db = DocBits::new(nw);
        proof {
            lemma_zero_word_bits();
            assert forall|i: int| !#[trigger] bit_of(db.words@, i) by {
                if 0 <= i < 64 * db.words@.len() {
                    assert(db.words@[i / 64] == 0);
                    assert(!word_bit(0u64, i % 64));
                }
            }
        }
        for k in 0..grams.len()
            invariant
                self.wf(),
                nw == (self.terms_view().len() + 63) / 64,
                db.wf(),
                db.nw == nw,
                forall|i: int|
                    0 <= i < self.terms_view().len() ==> (#[trigger] bit_of(db.words@, i) <==> in_prefix(
                        grams@,
                        self.terms_view()[i],
                        k as int,
                    )),
                forall|i: int| i >= self.terms_view().len() ==> !#[trigger] bit_of(db.words@, i),
        {
            let found = self.index_of(grams[k].as_str());
            let ghost w0 = db.words@;
            match found {
                Some(i) => {
                    assert(i / 64 < nw);
                    db.set(i);
                },
                None => {},
            }
            proof {
                assert forall|i: int| #[trigger] bit_of(db.words@, i) == ((found is Some && i
                    == found.unwrap() as int) || bit_of(w0, i)) by {
                    assert(db.contains(i) == bit_of(db.words@, i));
                }
                assert forall|i: int| 0 <= i < self.terms_view().len() implies (#[trigger] bit_of(
                    db.words@,
                    i,
                ) <==> in_prefix(grams@, self.terms_view()[i], k + 1)) by {
                    let y = self.terms_view()[i];
                    if in_prefix(grams@, y, k + 1) && !in_prefix(grams@, y, k as int) {
                        assert(grams@[k as int]@ == y);
                        assert(self.terms_view().contains(y));
                    }
                    if in_prefix(grams@, y, k as int) {
                        let t = choose|t: int| 0 <= t < k && t < grams@.len() && #[trigger] grams@[t]@ == y;
                        assert(in_prefix(grams@, y, k + 1));
                    }
                    match found {
                        Some(j) => {
                            if i == j {
                                assert(grams@[k as int]@ == y);
                            } else {
                                lemma_distinct_terms(self.terms_view(), i, j as int);
                                if in_prefix(grams@, y, k + 1) && !in_prefix(grams@, y, k as int) {
                                    assert(grams@[k as int]@ == y);
                                }
                            }
                        },
                        None => {},
                    }
                }
            }
        }
        assert forall|i: int| 0 <= i < self.terms_view().len() implies in_prefix(
            grams@,
            self.terms_view()[i],
            grams@.len() as int,
        ) == holds_string(grams@, self.terms_view()[i]) by {
            let y = self.terms_view()[i];
            if holds_string(grams@, y) {
                let t = choose|t: int| 0 <= t < grams@.len() && #[trigger] grams@[t]@ == y;
                assert(in_prefix(grams@, y, grams@.len() as int));
            }
        }
        db
    }
}

/// Entries at different positions of a strictly increasing list differ.
proof fn lemma_distinct_terms(t: Seq<Seq<char>>, i: int, j: int)
    requires
        strictly_sorted(t),
        0 <= i < t.len(),
        0 <= j < t.len(),
        i != j,
    ensures
        t[i] != t[j],
{
    lemma_char_lt_irreflexive(t[i]);
}

} // verus!
