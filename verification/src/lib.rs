//! Fair dice tuple sets: relabelings of a collection of dice whose joint
//! roll ranks the dice in every order equally often. The library builds such
//! sets incrementally: the accepted words of two smaller sets are interleaved
//! under online prefix pruning and a canonical order on equal-size dice, and
//! the exactly-fair survivors form the larger set.

mod dice_tuple;
mod fdts;
mod fdts_combine;
mod mapped_fdts;
mod permutations;
mod prefix_set;
mod words;

pub use words::Word;
pub use dice_tuple::DiceTuple;
pub use fdts::{FDTS, sizes_and_mapped_positions};
pub use mapped_fdts::MappedFDTS;
pub use prefix_set::PrefixSet;
pub use permutations::{count_permutation_occurences, is_word_permutation_fair, is_word_permutation_fair_up_to};

use vstd::prelude::*;

verus! {

/// Non-descending order on a sequence of sizes.
pub open spec fn sorted_nondesc(s: Seq<usize>) -> bool {
    forall|i: int, j: int| 0 <= i <= j < s.len() ==> s[i] <= s[j]
}

proof fn lemma_adjacent_sorted_range(s: Seq<usize>, i: int, j: int)
    requires
        forall|t: int| 0 <= t < s.len() - 1 ==> #[trigger] s[t] <= s[t + 1],
        0 <= i <= j < s.len(),
    ensures
        s[i] <= s[j],
    decreases j - i,
{
    if i < j {
        lemma_adjacent_sorted_range(s, i, j - 1);
        assert(s[j - 1] <= s[j]);
    }
}

/// True exactly when the entries never descend.
pub fn is_sorted(data: &[usize]) -> (r: bool)
    ensures
        r == sorted_nondesc(data@),
{
    let n: usize = data.len();
    if n == 0 {
        return true;
    }
    let mut i: usize = 0;
    while i < n - 1
        invariant
            n == data@.len(),
            1 <= n,
            0 <= i <= n,
            forall|t: int| 0 <= t < i ==> #[trigger] data@[t] <= data@[t + 1],
        decreases n - i,
    {
        if data[i] > data[i + 1] {
            return false;
        }
        i += 1;
    }
    proof {
        assert forall|a: int, b: int| 0 <= a <= b < data@.len() implies data@[a] <= data@[b] by {
            lemma_adjacent_sorted_range(data@, a, b);
        }
    }
    true
}

/// The letters of `w` whose value names a slot listed in `subset`, in order.
pub fn subset_word(w: &Word, subset: &[usize]) -> (r: Word)
    ensures
        r@ == crate::words::proj(w@, subset@),
{
    let mut r: Word = Vec::new();
    let mut i: usize = 0;
    while i < w.len()
        invariant
            0 <= i <= w@.len(),
            r@ == crate::words::proj(w@.take(i as int), subset@),
        decreases w@.len() - i,
    {
        let x: u8 = w[i];
        proof {
            crate::words::lemma_proj_concat(w@.take(i as int), seq![w@[i as int]], subset@);
            crate::words::lemma_proj_singleton(w@[i as int], subset@);
            assert(w@.take(i + 1) =~= w@.take(i as int) + seq![w@[i as int]]);
        }
        if contains_slot(subset, x as usize) {
            r.push(x);
        }
        i += 1;
    }
    proof {
        assert(w@.take(w@.len() as int) =~= w@);
    }
    r
}

/// An element-for-element copy of a slot list.
pub fn copy_slots(s: &Vec<usize>) -> (r: Vec<usize>)
    ensures
        r@ == s@,
{
    let mut r: Vec<usize> = Vec::new();
    let mut i: usize = 0;
    while i < s.len()
        invariant
            0 <= i <= s@.len(),
            r@ == s@.take(i as int),
        decreases s@.len() - i,
    {
        r.push(s[i]);
        proof {
            assert(s@.take(i + 1) =~= s@.take(i as int).push(s@[i as int]));
        }
        i += 1;
    }
    proof {
        assert(s@.take(s@.len() as int) =~= s@);
    }
    r
}

/// Linear membership test for a slot number in a slot list.
pub fn contains_slot(s: &[usize], v: usize) -> (r: bool)
    ensures
        r == s@.contains(v),
{
    let mut i: usize = 0;
    while i < s.len()
        invariant
            0 <= i <= s@.len(),
            forall|t: int| 0 <= t < i ==> s@[t] != v,
        decreases s@.len() - i,
    {
        if s[i] == v {
            return true;
        }
        i += 1;
    }
    false
}

} // verus!
