//! Evaluation helpers: text truncation and the greedy set cover of a query's
//! grams by documents.
use vstd::prelude::*;
use crate::bitset::{DocBits, and_count, and_count_prefix, and_popcount};
use crate::popcount::{popcount_prefix, popcount_sum, lemma_popcount_split, lemma_popcount_prefix_bound};
use crate::text::{chars_of, push_char};

verus! {

/// The first `n` characters of `s` (all of them when `s` is shorter).
pub fn shorten(s: &str, n: usize) -> (r: String)
    ensures
        r@ == s@.take(if n <= s@.len() { n as int } else { s@.len() as int }),
{
    let ch = chars_of(s);
    let m = if n <= ch.len() {
        n
    } else {
        ch.len()
    };
    let mut out = String::new();
    for k in 0..m
        invariant
            ch@ == s@,
            m <= ch@.len(),
            m == (if n <= s@.len() { n as int } else { s@.len() as int }),
            out@ == s@.take(k as int),
    {
        push_char(&mut out, ch[k]);
        assert(s@.take(k + 1) =~= s@.take(k as int).push(s@[k as int]));
    }
    out
}

/// The word sequences of a list of bitsets.
pub open spec fn doc_words(docs: Seq<DocBits>) -> Seq<Seq<u64>> {
    docs.map_values(|d: DocBits| d.words@)
}

/// `rem` with the bits of `d` cleared, word by word; words of `rem` past the end
/// of `d` stay as they are.
pub open spec fn clear_words(rem: Seq<u64>, d: Seq<u64>) -> Seq<u64> {
    Seq::new(rem.len(), |i: int| if i < d.len() { rem[i] & !d[i] } else { rem[i] })
}

/// Among documents `0 .. n` that are not `used`, the last one with the greatest
/// number of bits in common with `rem`, with that number; `None` when all are used.
pub open spec fn best_doc(rem: Seq<u64>, docs: Seq<Seq<u64>>, used: Seq<bool>, n: int) -> Option<
    (int, nat),
>
    decreases n,
{
    if n <= 0 {
        None
    } else {
        let prev = best_doc(rem, docs, used, n - 1);
        if used[n - 1] {
            prev
        } else {
            let g = and_count(rem, docs[n - 1]);
            match prev {
                None => Some((n - 1, g)),
                Some(p) => if g >= p.1 {
                    Some((n - 1, g))
                } else {
                    prev
                },
            }
        }
    }
}

/// The greedy cover from a state: at most `steps` more picks, each the best unused
/// document while it adds at least one bit, stopping once `q_total` bits are covered.
/// Each pick is reported as (document, bits it adds, bits covered so far).
pub open spec fn cover_run(
    rem: Seq<u64>,
    docs: Seq<Seq<u64>>,
    used: Seq<bool>,
    steps: nat,
    covered: nat,
    q_total: nat,
) -> Seq<(int, nat, nat)>
    decreases steps,
{
    if steps == 0 {
        seq![]
    } else {
        match best_doc(rem, docs, used, docs.len() as int) {
            None => seq![],
            Some(p) => if p.1 == 0 {
                seq![]
            } else if covered + p.1 >= q_total {
                seq![(p.0, p.1, covered + p.1)]
            } else {
                seq![(p.0, p.1, covered + p.1)] + cover_run(
                    clear_words(rem, docs[p.0]),
                    docs,
                    used.update(p.0, true),
                    (steps - 1) as nat,
                    covered + p.1,
                    q_total,
                )
            },
        }
    }
}

/// The greedy cover of the query bits `query` by `docs`, with at most `max_docs` picks.
pub open spec fn greedy_cover_spec(query: Seq<u64>, docs: Seq<Seq<u64>>, max_docs: nat) -> Seq<
    (int, nat, nat),
> {
    if popcount_sum(query) == 0 {
        seq![]
    } else {
        cover_run(
            query,
            docs,
            Seq::new(docs.len(), |i: int| false),
            max_docs,
            0,
            popcount_sum(query),
        )
    }
}

/// The picks of an executable cover, as mathematical integers.
pub open spec fn widen_picks(s: Seq<(usize, u32, u32)>) -> Seq<(int, nat, nat)> {
    s.map_values(|t: (usize, u32, u32)| (t.0 as int, t.1 as nat, t.2 as nat))
}

/// Clearing the bits of `d` from `rem` removes exactly the bits they share.
proof fn lemma_clear_count(rem: Seq<u64>, d: Seq<u64>, n: int)
    requires
        0 <= n <= rem.len(),
    ensures
        popcount_prefix(clear_words(rem, d), n) + and_count_prefix(rem, d, if n <= d.len() {
            n
        } else {
            d.len() as int
        }) == popcount_prefix(rem, n),
    decreases n,
{
    if n > 0 {
        lemma_clear_count(rem, d, n - 1);
        if n <= d.len() {
            lemma_popcount_split(rem[n - 1], d[n - 1]);
        }
    }
}

/// The best unused document among the first `docs.len()` as [`best_doc`] defines it.
fn best_unused(rem: &Vec<u64>, doc_bits: &[DocBits], used: &Vec<bool>) -> (r: Option<(usize, u32)>)
    requires
        64 * rem@.len() <= u32::MAX,
        used@.len() == doc_bits@.len(),
    ensures
        r.is_none() == best_doc(rem@, doc_words(doc_bits@), used@, doc_bits@.len() as int).is_none(),
        r.is_some() ==> best_doc(rem@, doc_words(doc_bits@), used@, doc_bits@.len() as int) == Some(
            (r.unwrap().0 as int, r.unwrap().1 as nat),
        ),
{
    let ghost dw = doc_words(doc_bits@);
    let mut best: Option<(usize, u32)> = None;
    for i in 0..doc_bits.len()
        invariant
            64 * rem@.len() <= u32::MAX,
            used@.len() == doc_bits@.len(),
            dw == doc_words(doc_bits@),
            best.is_none() == best_doc(rem@, dw, used@, i as int).is_none(),
            best.is_some() ==> best_doc(rem@, dw, used@, i as int) == Some(
                (best.unwrap().0 as int, best.unwrap().1 as nat),
            ),
    {
        if !used[i] {
            let g = and_popcount(rem.as_slice(), doc_bits[i].words.as_slice());
            assert(dw[i as int] == doc_bits@[i as int].words@);
            match best {
                None => {
                    best = Some((i, g));
                },
                Some(p) => {
                    if g >= p.1 {
                        best = Some((i, g));
                    }
                },
            }
        }
    }
    best
}

/// Greedy set cover of the query grams by documents, in whole counts.
///
/// While fewer than `max_docs` documents are chosen, picks the unused document
/// sharing the most still-uncovered query bits (the last such one on ties), stops
/// when that number is zero, clears its bits from the uncovered set, and records
/// (document index, bits it newly covers, query bits covered so far); it stops
/// after the pick that covers every query bit. An empty query gives no picks.
/// Words past the end of a narrower document count as empty.
pub fn greedy_cover_counts(query_bits: &DocBits, doc_bits: &[DocBits], max_docs: usize) -> (r: Vec<
    (usize, u32, u32),
>)
    requires
        query_bits.wf(),
        64 * query_bits.words@.len() <= u32::MAX,
    ensures
        widen_picks(r@) == greedy_cover_spec(
            query_bits.words@,
            doc_words(doc_bits@),
            max_docs as nat,
        ),
{
    let ghost dw = doc_words(doc_bits@);
    let nw = query_bits.nw;
    let q_total = query_bits.count_ones();
    let mut result: Vec<(usize, u32, u32)> = Vec::new();
    if q_total == 0 {
        assert(widen_picks(result@) =~= seq![]);
        return result;
    }
    let mut remaining = query_bits.words.clone();
    let mut covered: u32 = 0;
    let mut used: Vec<bool> = Vec::new();
    for i in 0..doc_bits.len()
        invariant
            used@ == Seq::new(i as nat, |j: int| false),
    {
        used.push(false);
        assert(used@ =~= Seq::new((i + 1) as nat, |j: int| false));
    }
    let ghost total = greedy_cover_spec(query_bits.words@, dw, max_docs as nat);
    proof {
        lemma_popcount_prefix_bound(query_bits.words@, nw as int);
        assert(widen_picks(result@) + cover_run(remaining@, dw, used@, max_docs as nat, 0, q_total as nat)
            =~= total);
    }
    let mut step: usize = 0;
    while step < max_docs
        invariant_except_break
            widen_picks(result@) + cover_run(
                remaining@,
                dw,
                used@,
                (max_docs - step) as nat,
                covered as nat,
                q_total as nat,
            ) == total,
            covered < q_total,
        invariant
            dw == doc_words(doc_bits@),
            total == greedy_cover_spec(query_bits.words@, dw, max_docs as nat),
            step <= max_docs,
            nw == query_bits.nw,
            remaining@.len() == nw,
            64 * nw <= u32::MAX,
            used@.len() == doc_bits@.len(),
            q_total == popcount_sum(query_bits.words@),
            popcount_sum(remaining@) + covered == q_total,
        ensures
            widen_picks(result@) == total,
        decreases max_docs - step,
    {
        let ghost rem0 = remaining@;
        let ghost used0 = used@;
        let ghost picks0 = result@;
        let pick = best_unused(&remaining, doc_bits, &used);
        let (best_idx, best_gain) = match pick {
            None => {
                assert(cover_run(rem0, dw, used0, (max_docs - step) as nat, covered as nat, q_total as nat) =~= seq![]);
                assert(widen_picks(result@) =~= total);
                break;
            },
            Some(p) => p,
        };
        if best_gain == 0 {
            assert(cover_run(rem0, dw, used0, (max_docs - step) as nat, covered as nat, q_total as nat) =~= seq![]);
            assert(widen_picks(result@) =~= total);
            break;
        }
        proof {
            lemma_best_doc_index(rem0, dw, used0, doc_bits@.len() as int);
        }
        let d = &doc_bits[best_idx];
        assert(dw[best_idx as int] == d.words@);
        proof {
            lemma_clear_count(rem0, d.words@, nw as int);
        }
        let lim = if nw <= d.words.len() {
            nw
        } else {
            d.words.len()
        };
        for w in 0..lim
            invariant
                nw == rem0.len(),
                lim <= nw,
                lim <= d.words@.len(),
                lim == nw || lim == d.words@.len(),
                remaining@.len() == nw,
                forall|i: int| 0 <= i < w ==> remaining@[i] == rem0[i] & !d.words@[i],
                forall|i: int| w <= i < nw ==> remaining@[i] == rem0[i],
        {
            let v = remaining[w] & !d.words[w];
            remaining.set(w, v);
        }
        assert(remaining@ =~= clear_words(rem0, dw[best_idx as int]));
        covered = covered + best_gain;
        used.set(best_idx, true);
        result.push((best_idx, best_gain, covered));
        proof {
            let head = seq![(best_idx as int, best_gain as nat, covered as nat)];
            assert(widen_picks(result@) =~= widen_picks(picks0) + head);
        }
        if covered >= q_total {
            assert(widen_picks(result@) =~= total);
            break;
        }
        proof {
            let head = seq![(best_idx as int, best_gain as nat, covered as nat)];
            let rest = cover_run(remaining@, dw, used@, (max_docs - step - 1) as nat, covered as nat, q_total as nat);
            assert(widen_picks(picks0) + (head + rest) =~= widen_picks(result@) + rest);
        }
        step = step + 1;
    }
    result
}

/// The document [`best_doc`] picks is one of the first `n`, is not used, and its
/// number is its common bit count with `rem`.
proof fn lemma_best_doc_index(rem: Seq<u64>, docs: Seq<Seq<u64>>, used: Seq<bool>, n: int)
    ensures
        best_doc(rem, docs, used, n) matches Some(p) ==> (0 <= p.0 < n && !used[p.0] && p.1
            == and_count(rem, docs[p.0])),
    decreases n,
{
    if n > 0 {
        lemma_best_doc_index(rem, docs, used, n - 1);
    }
}

/// The greedy choice: the picked document shares at least as many bits with `rem`
/// as every other unused one, strictly more than every unused one after it, and
/// there is no pick only when every document is used.
pub proof fn lemma_best_doc_greatest(rem: Seq<u64>, docs: Seq<Seq<u64>>, used: Seq<bool>, n: int)
    ensures
        best_doc(rem, docs, used, n) is None <==> (forall|j: int| 0 <= j < n ==> #[trigger] used[j]),
        best_doc(rem, docs, used, n) matches Some(p) ==> (forall|j: int|
            0 <= j < n && !used[j] ==> #[trigger] and_count(rem, docs[j]) <= p.1),
        best_doc(rem, docs, used, n) matches Some(p) ==> (forall|j: int|
            p.0 < j < n && !used[j] ==> #[trigger] and_count(rem, docs[j]) < p.1),
    decreases n,
{
    if n > 0 {
        lemma_best_doc_greatest(rem, docs, used, n - 1);
        lemma_best_doc_index(rem, docs, used, n - 1);
    }
}

/// The shape of a cover run from a consistent state.
proof fn lemma_cover_run_shape(
    rem: Seq<u64>,
    docs: Seq<Seq<u64>>,
    used: Seq<bool>,
    steps: nat,
    covered: nat,
    q_total: nat,
)
    requires
        used.len() == docs.len(),
        popcount_sum(rem) + covered == q_total,
    ensures
        ({
            let r = cover_run(rem, docs, used, steps, covered, q_total);
            &&& r.len() <= steps
            &&& forall|k: int|
                0 <= k < r.len() ==> 0 <= #[trigger] r[k].0 < docs.len() && !used[r[k].0] && r[k].1
                    > 0 && covered < r[k].2 <= q_total
            &&& r.len() > 0 ==> r[0].2 == covered + r[0].1
            &&& forall|k: int| 0 < k < r.len() ==> #[trigger] r[k].2 == r[k - 1].2 + r[k].1
            &&& forall|j: int, k: int| 0 <= j < k < r.len() ==> #[trigger] r[j].0 != #[trigger] r[k].0
        }),
    decreases steps,
{
    let r = cover_run(rem, docs, used, steps, covered, q_total);
    if steps > 0 {
        lemma_best_doc_index(rem, docs, used, docs.len() as int);
        match best_doc(rem, docs, used, docs.len() as int) {
            None => {},
            Some(p) => {
                if p.1 > 0 && covered + p.1 < q_total {
                    let i = p.0;
                    let rem2 = clear_words(rem, docs[i]);
                    let used2 = used.update(i, true);
                    lemma_clear_count(rem, docs[i], rem.len() as int);
                    lemma_cover_run_shape(rem2, docs, used2, (steps - 1) as nat, covered + p.1, q_total);
                    let rest = cover_run(rem2, docs, used2, (steps - 1) as nat, covered + p.1, q_total);
                    assert(r == seq![(p.0, p.1, covered + p.1)] + rest);
                    assert forall|k: int| 0 < k < r.len() implies #[trigger] r[k].0 != r[0].0 by {
                        assert(r[k] == rest[k - 1]);
                    }
                    assert forall|j: int, k: int| 0 <= j < k < r.len() implies #[trigger] r[j].0
                        != #[trigger] r[k].0 by {
                        if j > 0 {
                            assert(r[j] == rest[j - 1] && r[k] == rest[k - 1]);
                        }
                    }
                    assert forall|k: int| 0 < k < r.len() implies #[trigger] r[k].2 == r[k - 1].2
                        + r[k].1 by {
                        assert(r[k] == rest[k - 1]);
                        if k > 1 {
                            assert(r[k - 1] == rest[k - 2]);
                        }
                    }
                    assert forall|k: int| 0 <= k < r.len() implies 0 <= #[trigger] r[k].0 < docs.len()
                        && !used[r[k].0] && r[k].1 > 0 && covered < r[k].2 <= q_total by {
                        if k > 0 {
                            assert(r[k] == rest[k - 1]);
                        }
                    }
                } else if p.1 > 0 {
                    lemma_clear_count(rem, docs[p.0], rem.len() as int);
                }
            },
        }
    }
}

/// Law: every pick of the greedy cover adds at least one new query bit, no document
/// is picked twice, at most `max_docs` are picked, each running count is the one
/// before it plus the pick's new bits, and no count exceeds the query's bit count.
pub proof fn lemma_greedy_cover_shape(query: Seq<u64>, docs: Seq<Seq<u64>>, max_docs: nat)
    ensures
        ({
            let r = greedy_cover_spec(query, docs, max_docs);
            &&& r.len() <= max_docs
            &&& forall|k: int|
                0 <= k < r.len() ==> 0 <= #[trigger] r[k].0 < docs.len() && r[k].1 > 0 && r[k].2
                    <= popcount_sum(query)
            &&& r.len() > 0 ==> r[0].2 == r[0].1
            &&& forall|k: int| 0 < k < r.len() ==> #[trigger] r[k].2 == r[k - 1].2 + r[k].1
            &&& forall|j: int, k: int| 0 <= j < k < r.len() ==> #[trigger] r[j].0 != #[trigger] r[k].0
        }),
{
    if popcount_sum(query) > 0 {
        lemma_cover_run_shape(
            query,
            docs,
            Seq::new(docs.len(), |i: int| false),
            max_docs,
            0,
            popcount_sum(query),
        );
    }
}

} // verus!
