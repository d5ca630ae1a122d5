use vstd::prelude::*;
use crate::words::{Word, count_letter, sum_to, lemma_sum_to_mono, ids_seq};
use crate::dice_tuple::{DiceTuple, wf_word};
use crate::prefix_set::PrefixSet;
use crate::permutations::{fair_spec, is_k_perm_of};
use crate::sorted_nondesc;

verus! {

/// Some entry of `positions` names the die `x`.
pub open spec fn covers_die(positions: Seq<isize>, x: int) -> bool {
    exists|j: int| 0 <= j < positions.len() && #[trigger] positions[j] == x
}

/// All prefixes of a single word, the empty one and the word itself included.
pub open spec fn prefix_closure_one(w: Seq<u8>) -> Set<Seq<u8>> {
    Set::new(|p: Seq<u8>| exists|l: int| 0 <= l <= w.len() && p == #[trigger] w.take(l))
}

/// All prefixes of all the given words.
pub open spec fn prefix_closure(ws: Seq<Seq<u8>>) -> Set<Seq<u8>> {
    Set::new(
        |p: Seq<u8>| exists|i: int| 0 <= i < ws.len() && #[trigger] prefix_closure_one(ws[i]).contains(p),
    )
}

/// A prefix closure is closed under taking prefixes.
pub proof fn lemma_prefix_closure_closed(ws: Seq<Seq<u8>>, p: Seq<u8>, l: int)
    requires
        prefix_closure(ws).contains(p),
        0 <= l <= p.len(),
    ensures
        prefix_closure(ws).contains(p.take(l)),
{
    let i = choose|i: int| 0 <= i < ws.len() && #[trigger] prefix_closure_one(ws[i]).contains(p);
    let l0 = choose|l0: int| 0 <= l0 <= ws[i].len() && p == #[trigger] ws[i].take(l0);
    assert(p.take(l) =~= ws[i].take(l));
    assert(prefix_closure_one(ws[i]).contains(p.take(l)));
}

pub proof fn lemma_prefix_closure_push(ws: Seq<Seq<u8>>, w: Seq<u8>)
    ensures
        prefix_closure(ws.push(w)) == prefix_closure(ws).union(prefix_closure_one(w)),
{
    assert forall|p: Seq<u8>| prefix_closure(ws.push(w)).contains(p) <==> prefix_closure(
        ws,
    ).union(prefix_closure_one(w)).contains(p) by {
        if prefix_closure(ws.push(w)).contains(p) {
            let i = choose|i: int|
                0 <= i < ws.push(w).len() && #[trigger] prefix_closure_one(
                    ws.push(w)[i],
                ).contains(p);
            if i < ws.len() {
                assert(prefix_closure_one(ws[i]).contains(p));
            } else {
                assert(ws.push(w)[i] == w);
            }
        }
        if prefix_closure(ws).contains(p) {
            let i = choose|i: int|
                0 <= i < ws.len() && #[trigger] prefix_closure_one(ws[i]).contains(p);
            assert(ws.push(w)[i] == ws[i]);
            assert(prefix_closure_one(ws.push(w)[i]).contains(p));
        }
        if prefix_closure_one(w).contains(p) {
            assert(ws.push(w)[ws.len() as int] == w);
            assert(prefix_closure_one(ws.push(w)[ws.len() as int]).contains(p));
        }
    }
    assert(prefix_closure(ws.push(w)) =~= prefix_closure(ws).union(prefix_closure_one(w)));
}

/// A fair dice tuple set: the sizes of the dice, the accepted tuples, and the
/// prefix oracle over their words.
pub struct FDTS {
    pub sizes: Vec<usize>,
    pub total: usize,
    pub offsets: Vec<usize>,
    pub dice: Vec<DiceTuple>,
    pub prefixes: PrefixSet,
    pub fair_up_to: usize,
}

impl FDTS {
    /// The accepted words, in insertion order.
    pub open spec fn words(self) -> Seq<Seq<u8>> {
        self.dice@.map_values(|t: DiceTuple| t.word@)
    }

    pub open spec fn wf(self) -> bool {
        &&& 1 <= self.sizes@.len() <= 26
    &&& sorted_nondesc(self.sizes@)
        &&& forall|d: int| 0 <= d < self.sizes@.len() ==> #[trigger] self.sizes@[d] >= 1
        &&& self.total == sum_to(self.sizes@, self.sizes@.len() as int)
        &&& self.total <= 63
        &&& self.offsets@.len() == self.sizes@.len()
        &&& forall|d: int|
            0 <= d < self.sizes@.len() ==> #[trigger] self.offsets@[d] == sum_to(self.sizes@, d)
        &&& 1 <= self.fair_up_to <= self.sizes@.len()
        &&& forall|i: int| 0 <= i < self.dice@.len() ==> (#[trigger] self.dice@[i]).wf(self.sizes@)
        &&& forall|i: int|
            0 <= i < self.dice@.len() ==> fair_spec(
                (#[trigger] self.dice@[i]).word@,
                ids_seq(self.sizes@.len() as int),
                self.fair_up_to as nat,
            )
        &&& self.words().no_duplicates()
        &&& self.prefixes.wf()
        &&& self.prefixes@ == prefix_closure(self.words())
    }

    /// An FDTS of the given shape with no tuples yet, fully fair by default.
    pub fn new_empty(sizes: &[usize]) -> (r: FDTS)
        requires
            sorted_nondesc(sizes@),
            1 <= sizes@.len() <= 26,
            forall|d: int| 0 <= d < sizes@.len() ==> #[trigger] sizes@[d] >= 1,
            sum_to(sizes@, sizes@.len() as int) <= 63,
        ensures
            r.wf(),
            r.sizes@ == sizes@,
            r.fair_up_to == sizes@.len(),
            r.dice@.len() == 0,
            r.prefixes@ == Set::<Seq<u8>>::empty(),
            r.total == sum_to(sizes@, sizes@.len() as int),
    {
        let n: usize = sizes.len();
        let mut offsets: Vec<usize> = Vec::new();
        let mut acc: usize = 0;
        let mut d: usize = 0;
        while d < n
            invariant
                0 <= d <= n,
                n == sizes@.len(),
                offsets@.len() == d,
                acc == sum_to(sizes@, d as int),
                sum_to(sizes@, n as int) <= 63,
                forall|t: int| 0 <= t < d ==> #[trigger] offsets@[t] == sum_to(sizes@, t),
                forall|t: int| 0 <= t < sizes@.len() ==> #[trigger] sizes@[t] >= 1,
            decreases n - d,
        {
            proof {
                lemma_sum_to_mono(sizes@, d + 1, n as int);
            }
            offsets.push(acc);
            acc = acc + sizes[d];
            d += 1;
        }
        let r = FDTS {
            sizes: vstd::slice::slice_to_vec(sizes),
            total: acc,
            offsets,
            dice: Vec::new(),
            prefixes: PrefixSet::new(),
            fair_up_to: n,
        };
        proof {
            assert(r.words() =~= Seq::<Seq<u8>>::empty());
            assert(prefix_closure(r.words()) =~= Set::<Seq<u8>>::empty());
        }
        r
    }

    /// Append an accepted tuple and register every prefix of its word.
    pub fn insert_dice(&mut self, d: DiceTuple)
        requires
            old(self).wf(),
            d.wf(old(self).sizes@),
            fair_spec(
                d.word@,
                ids_seq(old(self).sizes@.len() as int),
                old(self).fair_up_to as nat,
            ),
            !old(self).words().contains(d.word@),
        ensures
            final(self).wf(),
            final(self).sizes@ == old(self).sizes@,
            final(self).total == old(self).total,
            final(self).offsets@ == old(self).offsets@,
            final(self).fair_up_to == old(self).fair_up_to,
            final(self).dice@ == old(self).dice@.push(d),
            final(self).prefixes@ == old(self).prefixes@.union(prefix_closure_one(d.word@)),
    {
        self.prefixes.insert_prefixes(&d.word);
        proof {
            assert(Set::new(
                |p: Seq<u8>| exists|l: int| 0 <= l <= d.word@.len() && p == #[trigger] d.word@.take(
                    l,
                ),
            ) =~= prefix_closure_one(d.word@));
        }
        self.dice.push(d);
        proof {
            assert(self.words() =~= old(self).words().push(d.word@));
            lemma_prefix_closure_push(old(self).words(), d.word@);
            assert forall|i: int| 0 <= i < self.dice@.len() implies (#[trigger] self.dice@[i]).wf(
                self.sizes@,
            ) by {
                if i < old(self).dice@.len() {
                    assert(self.dice@[i] == old(self).dice@[i]);
                }
            }
            assert(self.words().no_duplicates()) by {
                assert forall|a: int, b: int|
                    0 <= a < b < self.words().len() implies self.words()[a] != self.words()[b] by {
                    if b < old(self).words().len() {
                        assert(self.words()[a] == old(self).words()[a]);
                        assert(self.words()[b] == old(self).words()[b]);
                    } else {
                        assert(self.words()[a] == old(self).words()[a]);
                        assert(self.words()[b] == d.word@);
                        assert(old(self).words().contains(old(self).words()[a]));
                    }
                }
            }
            assert forall|i: int| 0 <= i < self.dice@.len() implies fair_spec(
                (#[trigger] self.dice@[i]).word@,
                ids_seq(self.sizes@.len() as int),
                self.fair_up_to as nat,
            ) by {
                if i < old(self).dice@.len() {
                    assert(self.dice@[i] == old(self).dice@[i]);
                }
            }
        }
    }

    /// The trivial one-die set: the single word that gives the die every face.
    pub fn new_single(size: usize) -> (r: FDTS)
        requires
            1 <= size <= 63,
        ensures
            r.wf(),
            r.sizes@ == seq![size],
            r.fair_up_to == 1,
            r.dice@.len() == 1,
            r.dice@[0].word@ == Seq::new(size as nat, |i: int| 0u8),
    {
        let mut sv: Vec<usize> = Vec::new();
        sv.push(size);
        proof {
            assert(sv@ =~= seq![size]);
            assert(sum_to(sv@, 0) == 0);
            assert(sum_to(sv@, 1) == size);
        }
        let mut f = FDTS::new_empty(sv.as_slice());
        let mut word: Word = Vec::new();
        let mut q: usize = 0;
        while q < size
            invariant
                0 <= q <= size,
                word@ =~= Seq::new(q as nat, |i: int| 0u8),
            decreases size - q,
        {
            word.push(0u8);
            proof {
                assert(word@ =~= Seq::new((q + 1) as nat, |i: int| 0u8));
            }
            q += 1;
        }
        proof {
            lemma_count_all_zero(word@);
            assert(count_letter(word@, 0u8) == size);
            assert forall|dd: int| 0 <= dd < f.sizes@.len() implies #[trigger] count_letter(
                word@,
                dd as u8,
            ) == f.sizes@[dd] by {
                assert(dd == 0);
            }
            assert(wf_word(word@, f.sizes@));
        }
        let d = DiceTuple::from_word(&f, &word);
        proof {
            lemma_single_die_fair(d.word@);
        }
        f.insert_dice(d);
        f
    }

    /// The number of dice.
    pub fn n(&self) -> (r: usize)
        ensures
            r == self.sizes@.len(),
    {
        self.sizes.len()
    }

    /// View this FDTS inside the external slot space that `positions`
    /// describes: entry `j` names the internal die standing at slot `j`, and
    /// a negative entry leaves the slot uncovered.
    pub fn mapped_as<'a>(&'a self, positions: &[isize]) -> (r: crate::mapped_fdts::MappedFDTS<'a>)
        requires
            self.wf(),
            positions@.len() <= 26,
            forall|x: int| 0 <= x < self.sizes@.len() ==> #[trigger] covers_die(positions@, x),
            forall|j1: int, j2: int|
                0 <= j1 < j2 < positions@.len() && 0 <= positions@[j1] < self.sizes@.len() && 0
                    <= positions@[j2] < self.sizes@.len() ==> #[trigger] positions@[j1]
                    < #[trigger] positions@[j2],
        ensures
            r.wf(),
            r.fdts == self,
            r.back@.len() == positions@.len(),
            forall|i: int|
                0 <= i < r.map@.len() ==> positions@[#[trigger] r.map@[i] as int] == i,
    {
        let n: usize = self.sizes.len();
        let mut map: Vec<usize> = Vec::new();
        let mut x: usize = 0;
        while x < n
            invariant
                0 <= x <= n,
                n == self.sizes@.len(),
                map@.len() == x,
                positions@.len() <= 26,
                forall|x2: int| 0 <= x2 < n ==> #[trigger] covers_die(positions@, x2),
                forall|i: int|
                    0 <= i < x ==> #[trigger] map@[i] < positions@.len() && positions@[map@[i] as int]
                        == i,
            decreases n - x,
        {
            let mut j: usize = 0;
            proof {
                assert(covers_die(positions@, x as int));
            }
            let ghost jw = choose|j2: int| 0 <= j2 < positions@.len() && #[trigger] positions@[j2] == x;
            while j < positions.len() && positions[j] != x as isize
                invariant
                    0 <= j <= positions@.len(),
                    0 <= jw < positions@.len() && positions@[jw] == x,
                    forall|t: int| 0 <= t < j ==> #[trigger] positions@[t] != x,
                decreases positions@.len() - j,
            {
                j += 1;
            }
            proof {
                if j == positions@.len() {
                    assert(positions@[jw] != x);
                }
            }
            map.push(j);
            x += 1;
        }
        proof {
            assert forall|i1: int, i2: int| 0 <= i1 < i2 < map@.len() implies #[trigger] map@[i1]
                < #[trigger] map@[i2] by {
                assert(positions@[map@[i1] as int] == i1);
                assert(positions@[map@[i2] as int] == i2);
                if map@[i2] < map@[i1] {
                    assert(positions@[map@[i2] as int] < positions@[map@[i1] as int]);
                } else if map@[i2] == map@[i1] {
                    assert(i1 == i2);
                }
            }
        }
        crate::mapped_fdts::MappedFDTS::new(self, &map, positions.len())
    }
}

/// In a word of zeros, only the letter zero occurs.
proof fn lemma_count_all_zero(w: Seq<u8>)
    requires
        forall|p: int| 0 <= p < w.len() ==> w[p] == 0u8,
    ensures
        count_letter(w, 0u8) == w.len(),
    decreases w.len(),
{
    if w.len() > 0 {
        lemma_count_all_zero(w.skip(1));
    }
}

/// A one-die set is fair at degree one: there is only one arrangement.
proof fn lemma_single_die_fair(w: Seq<u8>)
    ensures
        fair_spec(w, ids_seq(1), 1),
{
    assert forall|p1: Seq<u8>, p2: Seq<u8>|
        is_k_perm_of(p1, ids_seq(1), 1) && is_k_perm_of(p2, ids_seq(1), 1) && p1.to_multiset()
            == p2.to_multiset() implies crate::permutations::subseq_count(p1, w)
        == crate::permutations::subseq_count(p2, w) by {
        assert(ids_seq(1) =~= seq![0u8]);
        assert(p1.len() == 1 && p2.len() == 1);
        assert(ids_seq(1).contains(p1[0]));
        assert(ids_seq(1).contains(p2[0]));
        assert(p1[0] == 0u8 && p2[0] == 0u8);
        assert(p1 =~= p2);
    }
}


/// The sizes joined by commas, in decimal.
pub open spec fn sizes_text(sizes: Seq<usize>) -> Seq<char>
    decreases sizes.len(),
{
    if sizes.len() == 0 {
        Seq::empty()
    } else if sizes.len() == 1 {
        crate::dice_tuple::dec_str(sizes[0] as int)
    } else {
        sizes_text(sizes.take(sizes.len() - 1)) + seq![','] + crate::dice_tuple::dec_str(
            sizes.last() as int,
        )
    }
}

impl FDTS {
    /// The die sizes, written in decimal and joined by commas.
    pub fn sizes_string(&self) -> (r: String)
        ensures
            r@ == sizes_text(self.sizes@),
    {
        let mut s = String::new();
        let n: usize = self.sizes.len();
        let mut d: usize = 0;
        while d < n
            invariant
                0 <= d <= n,
                n == self.sizes@.len(),
                s@ == sizes_text(self.sizes@.take(d as int)),
            decreases n - d,
        {
            if d > 0 {
                crate::dice_tuple::push_char(&mut s, ',');
            }
            crate::dice_tuple::push_decimal(&mut s, self.sizes[d]);
            proof {
                let pre = self.sizes@.take(d as int);
                let cur = self.sizes@.take(d + 1);
                assert(cur.take(cur.len() - 1) =~= pre);
                assert(cur.last() == self.sizes@[d as int]);
                if d == 0 {
                    assert(sizes_text(pre) =~= Seq::<char>::empty());
                    assert(s@ =~= sizes_text(cur));
                } else {
                    assert(s@ =~= sizes_text(pre) + seq![','] + crate::dice_tuple::dec_str(
                        self.sizes@[d as int] as int,
                    ));
                    assert(s@ =~= sizes_text(cur));
                }
            }
            d += 1;
        }
        proof {
            assert(self.sizes@.take(n as int) =~= self.sizes@);
        }
        s
    }
}

/// The sizes and the slot layout of the sub-problem that removes one die: the
/// remaining dice keep their order, and the removed die's slot is uncovered.
pub fn sizes_and_mapped_positions(sizes: &[usize], position: usize) -> (r: (Vec<usize>, Vec<isize>))
    requires
        position < sizes@.len(),
        sizes@.len() <= 26,
    ensures
        r.0@ == sizes@.remove(position as int),
        r.1@.len() == sizes@.len(),
        forall|j: int| 0 <= j < position ==> #[trigger] r.1@[j] == j,
        r.1@[position as int] == -1,
        forall|j: int| position < j < sizes@.len() ==> #[trigger] r.1@[j] == j - 1,
{
    let n: usize = sizes.len();
    let mut a_sizes: Vec<usize> = Vec::new();
    let mut a_positions: Vec<isize> = Vec::new();
    let mut j: usize = 0;
    while j < n
        invariant
            0 <= j <= n,
            n == sizes@.len(),
            n <= 26,
            position < n,
            a_positions@.len() == j,
            a_sizes@.len() == if j <= position {
                j as int
            } else {
                j - 1
            },
            forall|t: int| 0 <= t < j && t < position ==> #[trigger] a_positions@[t] == t,
            j > position ==> a_positions@[position as int] == -1,
            forall|t: int| position < t < j ==> #[trigger] a_positions@[t] == t - 1,
            forall|t: int|
                0 <= t < a_sizes@.len() ==> #[trigger] a_sizes@[t] == sizes@.remove(
                    position as int,
                )[t],
        decreases n - j,
    {
        if j == position {
            a_positions.push(-1isize);
        } else if j < position {
            a_sizes.push(sizes[j]);
            a_positions.push(j as isize);
        } else {
            a_sizes.push(sizes[j]);
            a_positions.push((j - 1) as isize);
        }
        j += 1;
    }
    proof {
        assert(a_sizes@ =~= sizes@.remove(position as int));
    }
    (a_sizes, a_positions)
}


/// The prefix oracle is exact: it holds every prefix of every accepted word,
/// and nothing that is not such a prefix.
pub proof fn lemma_prefixes_exact(f: FDTS)
    requires
        f.wf(),
    ensures
        forall|w: Seq<u8>, l: int|
            f.words().contains(w) && 0 <= l <= w.len() ==> f.prefixes@.contains(
                #[trigger] w.take(l),
            ),
        forall|p: Seq<u8>|
            #[trigger] f.prefixes@.contains(p) ==> exists|w: Seq<u8>, l: int|
                f.words().contains(w) && 0 <= l <= w.len() && p == #[trigger] w.take(l),
{
    assert forall|w: Seq<u8>, l: int|
        f.words().contains(w) && 0 <= l <= w.len() implies f.prefixes@.contains(
        #[trigger] w.take(l),
    ) by {
        let i = choose|i: int| 0 <= i < f.words().len() && #[trigger] f.words()[i] == w;
        assert(prefix_closure_one(f.words()[i]).contains(w.take(l)));
    }
    assert forall|p: Seq<u8>| #[trigger] f.prefixes@.contains(p) implies exists|w: Seq<u8>, l: int|
        f.words().contains(w) && 0 <= l <= w.len() && p == #[trigger] w.take(l) by {
        let i = choose|i: int|
            0 <= i < f.words().len() && #[trigger] prefix_closure_one(f.words()[i]).contains(p);
        let l = choose|l: int| 0 <= l <= f.words()[i].len() && p == #[trigger] f.words()[i].take(l);
        assert(f.words().contains(f.words()[i]));
        assert(f.words().contains(f.words()[i]) && 0 <= l <= f.words()[i].len() && p == f.words()[
            i
        ].take(l));
    }
}

/// Every accepted word of a well-formed set is fair up to the set's degree:
/// arrangements of the same dice occur equally often as subsequences.
pub proof fn lemma_words_fair(f: FDTS, w: Seq<u8>)
    requires
        f.wf(),
        f.words().contains(w),
    ensures
        fair_spec(w, ids_seq(f.sizes@.len() as int), f.fair_up_to as nat),
{
    let i = choose|i: int| 0 <= i < f.words().len() && #[trigger] f.words()[i] == w;
    assert(f.dice@[i].word@ == w);
}

} // verus!
