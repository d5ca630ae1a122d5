use vstd::prelude::*;
use vstd::arithmetic::power2::{pow2, lemma_pow2_adds, lemma_pow2_strictly_increases, lemma2_to64,
    lemma2_to64_rest};
use vstd::relations::{sorted_by, total_ordering};
use vstd::seq_lib::lemma_sorted_unique;
use itertools::Itertools;
use crate::words::copy_word;

verus! {

/// Number of occurrences of `p` as a subsequence of `w`: the number of index
/// tuples `i_0 < ... < i_{m-1}` with `w[i_j] == p[j]` for every `j`.
pub open spec fn subseq_count(p: Seq<u8>, w: Seq<u8>) -> nat
    decreases w.len(),
{
    if w.len() == 0 {
        if p.len() == 0 {
            1
        } else {
            0
        }
    } else {
        subseq_count(p, w.drop_last()) + if p.len() > 0 && p.last() == w.last() {
            subseq_count(p.drop_last(), w.drop_last())
        } else {
            0
        }
    }
}

pub proof fn lemma_subseq_count_empty(w: Seq<u8>)
    ensures
        subseq_count(Seq::<u8>::empty(), w) == 1,
    decreases w.len(),
{
    if w.len() > 0 {
        lemma_subseq_count_empty(w.drop_last());
    }
}

pub proof fn lemma_subseq_count_bound(p: Seq<u8>, w: Seq<u8>)
    ensures
        subseq_count(p, w) <= pow2(w.len() as nat),
    decreases w.len(),
{
    if w.len() == 0 {
        lemma2_to64();
    } else {
        lemma_subseq_count_bound(p, w.drop_last());
        if p.len() > 0 {
            lemma_subseq_count_bound(p.drop_last(), w.drop_last());
        }
        lemma_pow2_adds((w.len() - 1) as nat, 1);
        lemma2_to64();
    }
}

/// `p` is an arrangement of `k` distinct letters drawn from `values`.
pub open spec fn is_k_perm_of(p: Seq<u8>, values: Seq<u8>, k: nat) -> bool {
    &&& p.len() == k
    &&& p.no_duplicates()
    &&& forall|i: int| 0 <= i < p.len() ==> values.contains(#[trigger] p[i])
}

/// Relies on itertools' `Itertools::permutations`, which yields all
/// k-permutations of the iterated elements: over distinct input values that is
/// every arrangement of every k-subset, and nothing else.
#[verifier::external_body]
fn k_permutations(values: &Vec<u8>, k: usize) -> (r: Vec<Vec<u8>>)
    requires
        values@.no_duplicates(),
        k <= values@.len(),
    ensures
        forall|j: int| 0 <= j < r@.len() ==> is_k_perm_of(#[trigger] r@[j]@, values@, k as nat),
        forall|p: Seq<u8>| #[trigger]
            is_k_perm_of(p, values@, k as nat) ==> exists|j: int|
                0 <= j < r@.len() && r@[j]@ == p,
{
    values.iter().cloned().permutations(k).collect()
}

/// The order on letters used for canonical (sorted) arrangements.
pub open spec fn u8_le() -> spec_fn(u8, u8) -> bool {
    |a: u8, b: u8| a <= b
}

proof fn lemma_u8_le_total()
    ensures
        total_ordering(u8_le()),
{
}

/// An ascending copy of `p`: same letters, sorted.
fn sorted_copy(p: &Vec<u8>) -> (r: Vec<u8>)
    ensures
        r@.to_multiset() == p@.to_multiset(),
        sorted_by(r@, u8_le()),
        r@.len() == p@.len(),
{
    let mut rest: Vec<u8> = copy_word(p);
    let mut r: Vec<u8> = Vec::new();
    proof {
        broadcast use vstd::seq_lib::group_to_multiset_ensures;

        assert(r@.to_multiset().add(rest@.to_multiset()) =~= p@.to_multiset());
    }
    while rest.len() > 0
        invariant
            r@.to_multiset().add(rest@.to_multiset()) == p@.to_multiset(),
            sorted_by(r@, u8_le()),
            forall|i: int, j: int|
                0 <= i < r@.len() && 0 <= j < rest@.len() ==> #[trigger] r@[i] <= #[trigger] rest@[j],
            r@.len() + rest@.len() == p@.len(),
        decreases rest@.len(),
    {
        let mut mi: usize = 0;
        let mut t: usize = 1;
        while t < rest.len()
            invariant
                0 <= mi < t <= rest@.len(),
                forall|j: int| 0 <= j < t ==> rest@[mi as int] <= #[trigger] rest@[j],
            decreases rest@.len() - t,
        {
            if rest[t] < rest[mi] {
                mi = t;
            }
            t += 1;
        }
        let v: u8 = rest.remove(mi);
        proof {
            broadcast use vstd::seq_lib::group_to_multiset_ensures;

            assert(r@.push(v).to_multiset().add(rest@.to_multiset()) =~= p@.to_multiset());
            assert(forall|i: int, j: int|
                0 <= i < j < r@.push(v).len() ==> u8_le()(r@.push(v)[i], r@.push(v)[j]));
        }
        r.push(v);
        proof {
            assert forall|i: int, j: int|
                0 <= i < r@.len() && 0 <= j < rest@.len() implies #[trigger] r@[i]
                <= #[trigger] rest@[j] by {
                broadcast use vstd::seq_lib::group_to_multiset_ensures;

                assert(rest@.to_multiset().contains(rest@[j]));
            }
        }
    }
    r
}

/// Fairness of a word up to degree `k`: two arrangements of the same `k`
/// distinct letters of `values` always occur equally often as subsequences.
pub open spec fn fair_spec(w: Seq<u8>, values: Seq<u8>, k: nat) -> bool {
    forall|p1: Seq<u8>, p2: Seq<u8>|
        #![trigger is_k_perm_of(p1, values, k), is_k_perm_of(p2, values, k)]
        is_k_perm_of(p1, values, k) && is_k_perm_of(p2, values, k) && p1.to_multiset()
            == p2.to_multiset() ==> subseq_count(p1, w) == subseq_count(p2, w)
}

/// Count the occurrences of `permutation` as a subsequence of `word`.
/// The permutation must name every letter at most once.
pub fn count_permutation_occurences(permutation: &Vec<u8>, word: &Vec<u8>) -> (r: u64)
    requires
        permutation@.len() >= 1,
        permutation@.no_duplicates(),
        word@.len() <= 63,
    ensures
        r == subseq_count(permutation@, word@),
{
    let pl: usize = permutation.len();
    let mut m: usize = 0;
    let mut j: usize = 0;
    while j < pl
        invariant
            0 <= j <= pl,
            pl == permutation@.len(),
            m <= 256,
            forall|t: int| 0 <= t < j ==> (#[trigger] permutation@[t] as usize) < m,
        decreases pl - j,
    {
        if permutation[j] as usize + 1 > m {
            m = permutation[j] as usize + 1;
        }
        j += 1;
    }
    let mut inverse: Vec<usize> = Vec::new();
    let mut v: usize = 0;
    while v < m
        invariant
            inverse@.len() == v,
            0 <= v <= m,
            forall|t: int| 0 <= t < v ==> inverse@[t] == usize::MAX,
        decreases m - v,
    {
        inverse.push(usize::MAX);
        v += 1;
    }
    let mut j: usize = 0;
    while j < pl
        invariant
            0 <= j <= pl,
            pl == permutation@.len(),
            pl >= 1,
            permutation@.no_duplicates(),
            inverse@.len() == m,
            forall|t: int| 0 <= t < pl ==> (#[trigger] permutation@[t] as usize) < m,
            forall|t: int| 0 <= t < j ==> inverse@[permutation@[t] as int] == t,
            forall|x: int|
                0 <= x < m && inverse@[x] != usize::MAX ==> 0 <= #[trigger] inverse@[x] < pl
                    && permutation@[inverse@[x] as int] == x,
            forall|x: int|
                0 <= x < m && inverse@[x] == usize::MAX ==> forall|t: int|
                    0 <= t < j ==> permutation@[t] != x,
        decreases pl - j,
    {
        let c: usize = permutation[j] as usize;
        inverse[c] = j;
        j += 1;
    }
    let mut counts: Vec<u64> = Vec::new();
    let mut j: usize = 0;
    while j < pl
        invariant
            counts@.len() == j,
            0 <= j <= pl,
            forall|t: int| 0 <= t < j ==> counts@[t] == 0,
        decreases pl - j,
    {
        counts.push(0);
        j += 1;
    }
    proof {
        assert forall|t: int| 0 <= t < pl implies counts@[t] == subseq_count(
            permutation@.take(t + 1),
            word@.take(0),
        ) by {
            assert(word@.take(0) =~= Seq::<u8>::empty());
            assert(permutation@.take(t + 1).len() == t + 1);
        }
    }
    let wl: usize = word.len();
    let mut t: usize = 0;
    while t < wl
        invariant
            0 <= t <= wl,
            wl == word@.len(),
            wl <= 63,
            pl == permutation@.len(),
            pl >= 1,
            permutation@.no_duplicates(),
            counts@.len() == pl,
            inverse@.len() == m,
            forall|x: int| 0 <= x < pl ==> (#[trigger] permutation@[x] as usize) < m,
            forall|x: int| 0 <= x < pl ==> inverse@[permutation@[x] as int] == x,
            forall|x: int|
                0 <= x < m && inverse@[x] != usize::MAX ==> 0 <= #[trigger] inverse@[x] < pl
                    && permutation@[inverse@[x] as int] == x,
            forall|x: int|
                0 <= x < pl ==> counts@[x] == subseq_count(
                    permutation@.take(x + 1),
                    word@.take(t as int),
                ),
        decreases wl - t,
    {
        let c: u8 = word[t];
        let cu: usize = c as usize;
        proof {
            assert(word@.take(t + 1).drop_last() =~= word@.take(t as int));
            assert(word@.take(t + 1).last() == c);
            assert forall|x: int| 0 <= x < pl implies permutation@.take(x + 1).last()
                == permutation@[x] && permutation@.take(x + 1).drop_last() =~= permutation@.take(
                x,
            ) by {}
        }
        if cu < m && inverse[cu] != usize::MAX {
            let i: usize = inverse[cu];
            proof {
                lemma_subseq_count_bound(permutation@.take(i + 1), word@.take(t as int));
                if t < 62 {
                    lemma_pow2_strictly_increases(t as nat, 62);
                }
                lemma_pow2_adds(62, 1);
                lemma2_to64();
                lemma2_to64_rest();
            }
            if i == 0 {
                proof {
                    lemma_subseq_count_empty(word@.take(t as int));
                    assert(permutation@.take(0) =~= Seq::<u8>::empty());
                }
                let old0: u64 = counts[0];
                counts[0] = old0 + 1;
            } else {
                proof {
                    lemma_subseq_count_bound(permutation@.take(i as int), word@.take(t as int));
                }
                let a: u64 = counts[i];
                let b: u64 = counts[i - 1];
                counts[i] = a + b;
            }
            proof {
                assert forall|x: int| 0 <= x < pl && x != i implies permutation@[x] != c by {}
            }
        } else {
            proof {
                assert forall|x: int| 0 <= x < pl implies permutation@[x] != c by {
                    if permutation@[x] == c {
                        assert(inverse@[cu as int] == x);
                    }
                }
            }
        }
        t += 1;
    }
    proof {
        assert(word@.take(wl as int) =~= word@);
        assert(permutation@.take(pl as int) =~= permutation@);
    }
    counts[pl - 1]
}

/// Check that all arrangements of every `fair_up_to`-subset of `values` occur
/// in `word` equally often (per subset; counts may differ across subsets).
pub fn is_word_permutation_fair_up_to(word: &Vec<u8>, values: &Vec<u8>, fair_up_to: usize) -> (r:
    bool)
    requires
        values@.len() >= 1,
        values@.no_duplicates(),
        1 <= fair_up_to <= values@.len(),
        word@.len() <= 63,
    ensures
        r == fair_spec(word@, values@, fair_up_to as nat),
{
    let perms: Vec<Vec<u8>> = k_permutations(values, fair_up_to);
    let mut idx: usize = 0;
    while idx < perms.len()
        invariant
            0 <= idx <= perms@.len(),
            values@.no_duplicates(),
            1 <= fair_up_to <= values@.len(),
            word@.len() <= 63,
            forall|j: int|
                0 <= j < perms@.len() ==> is_k_perm_of(
                    #[trigger] perms@[j]@,
                    values@,
                    fair_up_to as nat,
                ),
            forall|p: Seq<u8>| #[trigger]
                is_k_perm_of(p, values@, fair_up_to as nat) ==> exists|j: int|
                    0 <= j < perms@.len() && perms@[j]@ == p,
            forall|j: int, s: Seq<u8>|
                0 <= j < idx && sorted_by(s, u8_le()) && s.to_multiset() == (
                #[trigger] perms@[j]@).to_multiset() ==> subseq_count(perms@[j]@, word@)
                    == #[trigger] subseq_count(s, word@),
        decreases perms@.len() - idx,
    {
        let p: &Vec<u8> = &perms[idx];
        let s: Vec<u8> = sorted_copy(p);
        proof {
            broadcast use vstd::seq_lib::group_to_multiset_ensures;

            assert(is_k_perm_of(p@, values@, fair_up_to as nat));
            p@.lemma_multiset_has_no_duplicates();
            s@.lemma_multiset_has_no_duplicates_conv();
            assert forall|i: int| 0 <= i < s@.len() implies values@.contains(#[trigger] s@[i]) by {
                assert(s@.to_multiset().contains(s@[i]));
                assert(p@.to_multiset().contains(s@[i]));
                assert(p@.contains(s@[i]));
                let w = choose|w: int| 0 <= w < p@.len() && p@[w] == s@[i];
                assert(values@.contains(p@[w]));
            }
            assert(is_k_perm_of(s@, values@, fair_up_to as nat));
        }
        let c1: u64 = count_permutation_occurences(p, word);
        let c2: u64 = count_permutation_occurences(&s, word);
        if c1 != c2 {
            proof {
                assert(!fair_spec(word@, values@, fair_up_to as nat)) by {
                    assert(is_k_perm_of(p@, values@, fair_up_to as nat) && is_k_perm_of(
                        s@,
                        values@,
                        fair_up_to as nat,
                    ) && p@.to_multiset() == s@.to_multiset() && subseq_count(p@, word@)
                        != subseq_count(s@, word@));
                }
            }
            return false;
        }
        proof {
            lemma_u8_le_total();
            assert forall|s2: Seq<u8>|
                sorted_by(s2, u8_le()) && s2.to_multiset() == perms@[idx as int]@.to_multiset()
                implies subseq_count(perms@[idx as int]@, word@) == #[trigger] subseq_count(
                s2,
                word@,
            ) by {
                lemma_sorted_unique(s2, s@, u8_le());
            }
        }
        idx += 1;
    }
    proof {
        lemma_u8_le_total();
        assert forall|p1: Seq<u8>, p2: Seq<u8>|
            is_k_perm_of(p1, values@, fair_up_to as nat) && is_k_perm_of(
                p2,
                values@,
                fair_up_to as nat,
            ) && p1.to_multiset() == p2.to_multiset() implies subseq_count(p1, word@)
            == subseq_count(p2, word@) by {
            let j1 = choose|j: int| 0 <= j < perms@.len() && perms@[j]@ == p1;
            let j2 = choose|j: int| 0 <= j < perms@.len() && perms@[j]@ == p2;
            let s0 = p1.sort_by(u8_le());
            p1.lemma_sort_by_ensures(u8_le());
            assert(s0.to_multiset() == p1.to_multiset());
            assert(subseq_count(perms@[j1]@, word@) == subseq_count(s0, word@));
            assert(subseq_count(perms@[j2]@, word@) == subseq_count(s0, word@));
        }
    }
    true
}

/// Check that all arrangements of all of `values` occur in `word` equally often.
pub fn is_word_permutation_fair(word: &Vec<u8>, values: &Vec<u8>) -> (r: bool)
    requires
        values@.len() >= 1,
        values@.no_duplicates(),
        word@.len() <= 63,
    ensures
        r == fair_spec(word@, values@, values@.len()),
{
    is_word_permutation_fair_up_to(word, values, values.len())
}

} // verus!
