//! The ranker: score every found word, order the words by score
//! descending — ties broken by lexicographic word order, a firm contract
//! rather than container iteration order — and keep the top `k`.

use vstd::prelude::*;
use crate::bytes::copy_bytes;
use crate::scoring::{word_power, word_power_spec};

verus! {

broadcast use vstd::seq_lib::group_to_multiset_ensures, vstd::multiset::group_multiset_axioms;

/// Strict lexicographic order on byte strings.
pub open spec fn lex_less(a: Seq<u8>, b: Seq<u8>) -> bool
    decreases a.len(),
{
    if b.len() == 0 {
        false
    } else if a.len() == 0 {
        true
    } else if a[0] < b[0] {
        true
    } else if a[0] > b[0] {
        false
    } else {
        lex_less(a.drop_first(), b.drop_first())
    }
}

/// Lexicographic order is total on distinct strings.
pub proof fn lemma_lex_total(a: Seq<u8>, b: Seq<u8>)
    requires
        a != b,
    ensures
        lex_less(a, b) || lex_less(b, a),
    decreases a.len(),
{
    if a.len() == 0 && b.len() == 0 {
        assert(a =~= b);
    }
    if a.len() > 0 && b.len() > 0 && a[0] == b[0] {
        if a.drop_first() == b.drop_first() {
            assert(a.len() == b.len()) by {
                assert(a.drop_first().len() == b.drop_first().len());
            }
            assert forall|m: int| 0 <= m < a.len() implies a[m] == b[m] by {
                if m > 0 {
                    assert(a[m] == a.drop_first()[m - 1]);
                    assert(b[m] == b.drop_first()[m - 1]);
                }
            }
            assert(a =~= b);
        }
        lemma_lex_total(a.drop_first(), b.drop_first());
    }
}

/// Lexicographic order is transitive.
pub proof fn lemma_lex_trans(a: Seq<u8>, b: Seq<u8>, c: Seq<u8>)
    requires
        lex_less(a, b),
        lex_less(b, c),
    ensures
        lex_less(a, c),
    decreases a.len(),
{
    if a.len() > 0 && b.len() > 0 && c.len() > 0 && a[0] == b[0] && b[0] == c[0] {
        lemma_lex_trans(a.drop_first(), b.drop_first(), c.drop_first());
    }
}

/// The ranking order: by score descending, ties by lexicographic word
/// order ascending.
pub open spec fn ranks_before(a: Seq<u8>, b: Seq<u8>) -> bool {
    word_power_spec(a) > word_power_spec(b)
        || (word_power_spec(a) == word_power_spec(b) && lex_less(a, b))
}

/// The ranking order is total on distinct words.
pub proof fn lemma_ranks_before_total(a: Seq<u8>, b: Seq<u8>)
    requires
        a != b,
    ensures
        ranks_before(a, b) || ranks_before(b, a),
{
    if word_power_spec(a) == word_power_spec(b) {
        lemma_lex_total(a, b);
    }
}

/// The ranking order is transitive.
pub proof fn lemma_ranks_before_trans(a: Seq<u8>, b: Seq<u8>, c: Seq<u8>)
    requires
        ranks_before(a, b),
        ranks_before(b, c),
    ensures
        ranks_before(a, c),
{
    if word_power_spec(a) == word_power_spec(b) && word_power_spec(b) == word_power_spec(c) {
        lemma_lex_trans(a, b, c);
    }
}

/// Order is preserved under an equal prefix.
proof fn lemma_lex_skip(a: Seq<u8>, b: Seq<u8>, i: int)
    requires
        0 <= i <= a.len(),
        i <= b.len(),
        forall|m: int| 0 <= m < i ==> a[m] == b[m],
    ensures
        lex_less(a, b) == lex_less(a.skip(i), b.skip(i)),
    decreases i,
{
    if i == 0 {
        assert(a.skip(0) =~= a);
        assert(b.skip(0) =~= b);
    } else {
        assert(a[0] == b[0]);
        lemma_lex_skip(a.drop_first(), b.drop_first(), i - 1);
        assert(a.drop_first().skip(i - 1) =~= a.skip(i));
        assert(b.drop_first().skip(i - 1) =~= b.skip(i));
    }
}

/// Compare two byte vectors lexicographically.
pub fn lex_less_bytes(a: &Vec<u8>, b: &Vec<u8>) -> (r: bool)
    ensures
        r == lex_less(a@, b@),
{
    let na = a.len();
    let nb = b.len();
    let n = if na < nb { na } else { nb };
    let mut i: usize = 0;
    while i < n
        invariant
            i <= n,
            n <= a@.len(),
            n <= b@.len(),
            n == if a@.len() < b@.len() { a@.len() } else { b@.len() },
            forall|m: int| 0 <= m < i ==> a@[m] == b@[m],
        decreases n - i,
    {
        proof {
            lemma_lex_skip(a@, b@, i as int);
        }
        if a[i] < b[i] {
            return true;
        }
        if a[i] > b[i] {
            return false;
        }
        i = i + 1;
    }
    proof {
        lemma_lex_skip(a@, b@, n as int);
    }
    na < nb
}

/// Compare two scored words by the ranking order. Each pair must carry
/// the score of its word.
fn before_pair(a: &(Vec<u8>, u32), b: &(Vec<u8>, u32)) -> (r: bool)
    requires
        a.1 == word_power_spec(a.0@),
        b.1 == word_power_spec(b.0@),
    ensures
        r == ranks_before(a.0@, b.0@),
{
    if a.1 > b.1 {
        true
    } else if a.1 < b.1 {
        false
    } else {
        lex_less_bytes(&a.0, &b.0)
    }
}

/// The words of a list of scored pairs.
pub open spec fn pair_words(ps: Seq<(Vec<u8>, u32)>) -> Seq<Seq<u8>> {
    ps.map_values(|p: (Vec<u8>, u32)| p.0@)
}

/// The words of a word list.
pub open spec fn word_views(ws: Seq<Vec<u8>>) -> Seq<Seq<u8>> {
    ws.map_values(|v: Vec<u8>| v@)
}

/// Removing a pair removes its word.
proof fn lemma_pair_words_remove(s: Seq<(Vec<u8>, u32)>, j: int)
    requires
        0 <= j < s.len(),
    ensures
        pair_words(s.remove(j)) == pair_words(s).remove(j),
{
    assert(pair_words(s.remove(j)) =~= pair_words(s).remove(j));
}

/// Appending a pair appends its word.
proof fn lemma_pair_words_push(s: Seq<(Vec<u8>, u32)>, p: (Vec<u8>, u32))
    ensures
        pair_words(s.push(p)) == pair_words(s).push(p.0@),
{
    assert(pair_words(s.push(p)) =~= pair_words(s).push(p.0@));
}

/// Score the words of a duplicate-free list, order them by score
/// descending with lexicographic tie-break, and keep the best `k`.
///
/// The contract pins the output completely: it holds the right number of
/// pairs, each a distinct input word with its score, in strictly
/// descending rank order, and any input word left out lost to every word
/// kept, the list being full.
pub fn rank(words: &Vec<Vec<u8>>, k: usize) -> (ranked: Vec<(Vec<u8>, u32)>)
    requires
        word_views(words@).no_duplicates(),
        forall|i: int| 0 <= i < words@.len() ==> 11 * #[trigger] words@[i]@.len() <= u32::MAX,
    ensures
        ranked@.len() == if k <= words@.len() { k as int } else { words@.len() as int },
        forall|m: int| 0 <= m < ranked@.len()
            ==> word_views(words@).contains(#[trigger] ranked@[m].0@),
        forall|m: int| 0 <= m < ranked@.len()
            ==> (#[trigger] ranked@[m].1) == word_power_spec(ranked@[m].0@),
        forall|m: int, j: int| #![trigger ranked@[m], ranked@[j]] 0 <= m < j < ranked@.len()
            ==> ranks_before(ranked@[m].0@, ranked@[j].0@),
        forall|w: Seq<u8>| #[trigger] word_views(words@).contains(w)
            && !pair_words(ranked@).contains(w)
            ==> ranked@.len() == k
                && forall|m: int| 0 <= m < ranked@.len()
                    ==> ranks_before((#[trigger] ranked@[m]).0@, w),
{
    let ghost ws = word_views(words@);
    let n0 = words.len();
    let mut pool: Vec<(Vec<u8>, u32)> = Vec::new();
    let mut idx: usize = 0;
    while idx < n0
        invariant
            idx <= n0,
            n0 == words@.len(),
            pool@.len() == idx,
            forall|i: int| 0 <= i < words@.len() ==> 11 * #[trigger] words@[i]@.len() <= u32::MAX,
            forall|m: int| 0 <= m < idx ==> (#[trigger] pool@[m]).0@ == word_views(words@)[m],
            forall|m: int| 0 <= m < idx
                ==> (#[trigger] pool@[m]).1 == word_power_spec(pool@[m].0@),
        decreases n0 - idx,
    {
        let w = copy_bytes(&words[idx]);
        let s = word_power(&w);
        pool.push((w, s));
        idx = idx + 1;
    }
    proof {
        assert(pair_words(pool@) =~= ws);
    }
    let mut out: Vec<(Vec<u8>, u32)> = Vec::new();
    while out.len() < k && pool.len() > 0
        invariant
            out@.len() <= k,
            out@.len() + pool@.len() == ws.len(),
            ws == word_views(words@),
            ws.no_duplicates(),
            pair_words(out@).to_multiset().add(pair_words(pool@).to_multiset())
                == ws.to_multiset(),
            forall|m: int| 0 <= m < out@.len()
                ==> (#[trigger] out@[m]).1 == word_power_spec(out@[m].0@),
            forall|m: int| 0 <= m < pool@.len()
                ==> (#[trigger] pool@[m]).1 == word_power_spec(pool@[m].0@),
            forall|m: int, j: int| #![trigger out@[m], out@[j]] 0 <= m < j < out@.len()
                ==> ranks_before(out@[m].0@, out@[j].0@),
            forall|a: int, b: int| #![trigger out@[a], pool@[b]]
                0 <= a < out@.len() && 0 <= b < pool@.len()
                    ==> ranks_before(out@[a].0@, pool@[b].0@),
        decreases pool@.len(),
    {
        let ghost oview = pair_words(out@);
        let ghost pview = pair_words(pool@);
        proof {
            ws.lemma_multiset_has_no_duplicates();
            assert forall|x: Seq<u8>| pview.to_multiset().contains(x)
                implies pview.to_multiset().count(x) == 1 by {
                assert(oview.to_multiset().count(x) + pview.to_multiset().count(x)
                    == ws.to_multiset().count(x));
                assert(ws.to_multiset().contains(x));
            }
            pview.lemma_multiset_has_no_duplicates_conv();
        }
        let mut best: usize = 0;
        let mut m: usize = 1;
        while m < pool.len()
            invariant
                pool@.len() > 0,
                best < m,
                1 <= m <= pool@.len(),
                pview == pair_words(pool@),
                pview.no_duplicates(),
                forall|j: int| 0 <= j < pool@.len()
                    ==> (#[trigger] pool@[j]).1 == word_power_spec(pool@[j].0@),
                forall|j: int| 0 <= j < m && j != best
                    ==> ranks_before(pool@[best as int].0@, (#[trigger] pool@[j]).0@),
            decreases pool@.len() - m,
        {
            let ghost old_best = best as int;
            if before_pair(&pool[m], &pool[best]) {
                proof {
                    assert forall|j: int| 0 <= j < m + 1 && j != m as int
                        implies ranks_before(pool@[m as int].0@, (#[trigger] pool@[j]).0@) by {
                        if j != old_best {
                            lemma_ranks_before_trans(
                                pool@[m as int].0@,
                                pool@[old_best].0@,
                                pool@[j].0@,
                            );
                        }
                    }
                }
                best = m;
            } else {
                proof {
                    assert(pview[m as int] == pool@[m as int].0@);
                    assert(pview[old_best] == pool@[old_best].0@);
                    assert(pool@[m as int].0@ != pool@[old_best].0@);
                    lemma_ranks_before_total(pool@[m as int].0@, pool@[old_best].0@);
                }
            }
            m = m + 1;
        }
        let ghost bi = best as int;
        let ghost w = pool@[bi].0@;
        let ghost pool_before = pool@;
        proof {
            assert(pview[bi] == w);
            assert(pview.to_multiset().count(w) >= 1) by {
                assert(pview.contains(w));
            }
        }
        let p = pool.remove(best);
        let ghost out_before = out@;
        out.push(p);
        proof {
            lemma_pair_words_remove(pool_before, bi);
            lemma_pair_words_push(out_before, p);
            assert(pair_words(pool@) == pview.remove(bi));
            assert(pair_words(out@) == oview.push(w));
            assert(pair_words(out@).to_multiset().add(pair_words(pool@).to_multiset())
                =~= ws.to_multiset()) by {
                assert(oview.push(w).to_multiset() =~= oview.to_multiset().insert(w));
                assert(pview.remove(bi).to_multiset() =~= pview.to_multiset().remove(w));
                assert forall|x: Seq<u8>|
                    oview.to_multiset().insert(w).count(x)
                        + pview.to_multiset().remove(w).count(x)
                    == ws.to_multiset().count(x) by {
                    assert(oview.to_multiset().count(x) + pview.to_multiset().count(x)
                        == ws.to_multiset().count(x));
                }
            }
            assert forall|a: int, b: int| #![trigger out@[a], pool@[b]]
                0 <= a < out@.len() && 0 <= b < pool@.len()
                implies ranks_before(out@[a].0@, pool@[b].0@) by {
                let j = if b < bi { b } else { b + 1 };
                assert(pool@[b] == pool_before[j]);
                if a < out_before.len() {
                    assert(out@[a] == out_before[a]);
                    assert(ranks_before(out_before[a].0@, pool_before[j].0@));
                } else {
                    assert(out@[a] == p);
                    assert(ranks_before(pool_before[bi].0@, pool_before[j].0@));
                }
            }
            assert forall|m2: int, j: int| #![trigger out@[m2], out@[j]]
                0 <= m2 < j < out@.len()
                implies ranks_before(out@[m2].0@, out@[j].0@) by {
                if j < out_before.len() {
                    assert(out@[m2] == out_before[m2]);
                    assert(out@[j] == out_before[j]);
                } else {
                    assert(out@[j] == p);
                    assert(out@[m2] == out_before[m2]);
                    assert(ranks_before(out_before[m2].0@, pool_before[bi].0@));
                }
            }
        }
    }
    proof {
        let oview = pair_words(out@);
        assert forall|m: int| 0 <= m < out@.len()
            implies word_views(words@).contains(#[trigger] out@[m].0@) by {
            assert(oview[m] == out@[m].0@);
            assert(oview.contains(out@[m].0@));
            assert(oview.to_multiset().count(out@[m].0@) > 0);
            assert(ws.to_multiset().count(out@[m].0@) > 0);
            assert(ws.contains(out@[m].0@));
        }
        assert forall|wq: Seq<u8>| #[trigger] word_views(words@).contains(wq)
            && !pair_words(out@).contains(wq)
            implies out@.len() == k
                && forall|m: int| 0 <= m < out@.len()
                    ==> ranks_before((#[trigger] out@[m]).0@, wq) by {
            let pview = pair_words(pool@);
            assert(ws.to_multiset().count(wq) > 0);
            assert(oview.to_multiset().count(wq) == 0);
            assert(pview.to_multiset().count(wq) > 0);
            assert(pview.contains(wq));
            let b = choose|b: int| 0 <= b < pview.len() && pview[b] == wq;
            assert(pool@.len() > 0);
            assert forall|m: int| 0 <= m < out@.len()
                implies ranks_before((#[trigger] out@[m]).0@, wq) by {
                assert(pool@[b].0@ == wq);
                assert(ranks_before(out@[m].0@, pool@[b].0@));
            }
        }
    }
    out
}

} // verus!
