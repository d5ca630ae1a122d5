use vstd::prelude::*;

verus! {

/// A word over the die alphabet: one letter (die index) per global rank position.
pub type Word = Vec<u8>;

/// How many times the letter `d` occurs in `w`.
pub open spec fn count_letter(w: Seq<u8>, d: u8) -> nat
    decreases w.len(),
{
    if w.len() == 0 {
        0
    } else {
        (if w[0] == d {
            1nat
        } else {
            0nat
        }) + count_letter(w.skip(1), d)
    }
}

pub proof fn lemma_count_letter_concat(a: Seq<u8>, b: Seq<u8>, d: u8)
    ensures
        count_letter(a + b, d) == count_letter(a, d) + count_letter(b, d),
    decreases a.len(),
{
    if a.len() == 0 {
        assert(a + b =~= b);
    } else {
        assert((a + b).skip(1) =~= a.skip(1) + b);
        assert((a + b)[0] == a[0]);
        lemma_count_letter_concat(a.skip(1), b, d);
    }
}

/// Projection of `w` onto the slots listed in `slots`: letters named there are
/// kept in order, the rest dropped.
pub open spec fn proj(w: Seq<u8>, slots: Seq<usize>) -> Seq<u8>
    decreases w.len(),
{
    if w.len() == 0 {
        Seq::empty()
    } else if slots.contains(w[0] as usize) {
        seq![w[0]] + proj(w.skip(1), slots)
    } else {
        proj(w.skip(1), slots)
    }
}

pub proof fn lemma_proj_concat(a: Seq<u8>, b: Seq<u8>, slots: Seq<usize>)
    ensures
        proj(a + b, slots) == proj(a, slots) + proj(b, slots),
    decreases a.len(),
{
    if a.len() == 0 {
        assert(a + b =~= b);
        assert(proj(a, slots) + proj(b, slots) =~= proj(b, slots));
    } else {
        assert((a + b).skip(1) =~= a.skip(1) + b);
        assert((a + b)[0] == a[0]);
        lemma_proj_concat(a.skip(1), b, slots);
        if slots.contains(a[0] as usize) {
            assert(seq![a[0]] + (proj(a.skip(1), slots) + proj(b, slots)) =~= (seq![a[0]]
                + proj(a.skip(1), slots)) + proj(b, slots));
        }
    }
}

pub proof fn lemma_proj_singleton(x: u8, slots: Seq<usize>)
    ensures
        proj(seq![x], slots) == if slots.contains(x as usize) {
            seq![x]
        } else {
            Seq::<u8>::empty()
        },
{
    let s = seq![x];
    assert(proj(Seq::<u8>::empty(), slots) == Seq::<u8>::empty());
    assert(s.skip(1) =~= Seq::<u8>::empty());
    if slots.contains(x as usize) {
        assert(proj(s, slots) == seq![x] + proj(s.skip(1), slots));
        assert(seq![x] + Seq::<u8>::empty() =~= seq![x]);
    }
}

pub proof fn lemma_count_letter_singleton(x: u8, d: u8)
    ensures
        count_letter(seq![x], d) == if x == d {
            1nat
        } else {
            0nat
        },
{
    let s = seq![x];
    assert(count_letter(Seq::<u8>::empty(), d) == 0);
    assert(s.skip(1) =~= Seq::<u8>::empty());
}

/// The positions (counted from `base`) at which the letter `d` occurs in `w`,
/// in ascending order.
pub open spec fn positions_from(w: Seq<u8>, d: u8, base: int) -> Seq<int>
    decreases w.len(),
{
    if w.len() == 0 {
        Seq::empty()
    } else {
        (if w[0] == d {
            seq![base]
        } else {
            Seq::<int>::empty()
        }) + positions_from(w.skip(1), d, base + 1)
    }
}

pub open spec fn positions_of(w: Seq<u8>, d: u8) -> Seq<int> {
    positions_from(w, d, 0)
}

pub proof fn lemma_positions_from_concat(a: Seq<u8>, b: Seq<u8>, d: u8, base: int)
    ensures
        positions_from(a + b, d, base) == positions_from(a, d, base) + positions_from(
            b,
            d,
            base + a.len(),
        ),
    decreases a.len(),
{
    if a.len() == 0 {
        assert(a + b =~= b);
        assert(positions_from(a, d, base) + positions_from(b, d, base) =~= positions_from(
            b,
            d,
            base,
        ));
    } else {
        assert((a + b).skip(1) =~= a.skip(1) + b);
        assert((a + b)[0] == a[0]);
        lemma_positions_from_concat(a.skip(1), b, d, base + 1);
        if a[0] == d {
            assert(seq![base] + (positions_from(a.skip(1), d, base + 1) + positions_from(
                b,
                d,
                base + a.len(),
            )) =~= (seq![base] + positions_from(a.skip(1), d, base + 1)) + positions_from(
                b,
                d,
                base + a.len(),
            ));
        }
    }
}

pub proof fn lemma_positions_from_singleton(x: u8, d: u8, base: int)
    ensures
        positions_from(seq![x], d, base) == if x == d {
            seq![base]
        } else {
            Seq::<int>::empty()
        },
{
    let s = seq![x];
    assert(positions_from(Seq::<u8>::empty(), d, base + 1) == Seq::<int>::empty());
    assert(s.skip(1) =~= Seq::<u8>::empty());
    if x == d {
        assert(seq![base] + Seq::<int>::empty() =~= seq![base]);
    } else {
        assert(Seq::<int>::empty() + Seq::<int>::empty() =~= Seq::<int>::empty());
    }
}

pub proof fn lemma_positions_from_len(w: Seq<u8>, d: u8, base: int)
    ensures
        positions_from(w, d, base).len() == count_letter(w, d),
    decreases w.len(),
{
    if w.len() > 0 {
        lemma_positions_from_len(w.skip(1), d, base + 1);
    }
}

/// Membership in the position list is exactly occupancy of the position.
pub proof fn lemma_positions_from_member(w: Seq<u8>, d: u8, base: int)
    ensures
        forall|v: int|
            #![trigger positions_from(w, d, base).contains(v)]
            positions_from(w, d, base).contains(v) <==> (base <= v < base + w.len() && w[v - base]
                == d),
    decreases w.len(),
{
    if w.len() == 0 {
    } else {
        lemma_positions_from_member(w.skip(1), d, base + 1);
        assert forall|v: int| #[trigger] positions_from(w, d, base).contains(v) implies (base <= v
            < base + w.len() && w[v - base] == d) by {
            let pf = positions_from(w, d, base);
            let i = choose|i: int| 0 <= i < pf.len() && pf[i] == v;
            if w[0] == d {
                if i == 0 {
                } else {
                    assert(positions_from(w.skip(1), d, base + 1)[i - 1] == v);
                    assert(positions_from(w.skip(1), d, base + 1).contains(v));
                }
            } else {
                assert(pf =~= positions_from(w.skip(1), d, base + 1));
                assert(positions_from(w.skip(1), d, base + 1).contains(v));
            }
        }
        assert forall|v: int| (base <= v < base + w.len() && w[v - base] == d) implies #[trigger]
            positions_from(w, d, base).contains(v) by {
            let pf = positions_from(w, d, base);
            if v == base {
                assert(w[0] == d);
                assert(pf[0] == base);
            } else {
                assert(w.skip(1)[v - base - 1] == w[v - base]);
                assert(positions_from(w.skip(1), d, base + 1).contains(v));
                let rest = positions_from(w.skip(1), d, base + 1);
                let i = choose|i: int| 0 <= i < rest.len() && #[trigger] rest[i] == v;
                if w[0] == d {
                    assert(pf[i + 1] == v);
                } else {
                    assert(pf =~= positions_from(w.skip(1), d, base + 1));
                }
            }
        }
    }
}

/// The position list ascends strictly.
pub proof fn lemma_positions_from_ascending(w: Seq<u8>, d: u8, base: int)
    ensures
        forall|i: int, j: int|
            0 <= i < j < positions_from(w, d, base).len() ==> #[trigger] positions_from(
                w,
                d,
                base,
            )[i] < #[trigger] positions_from(w, d, base)[j],
    decreases w.len(),
{
    if w.len() > 0 {
        lemma_positions_from_ascending(w.skip(1), d, base + 1);
        lemma_positions_from_member(w.skip(1), d, base + 1);
        let pf = positions_from(w, d, base);
        let rest = positions_from(w.skip(1), d, base + 1);
        assert forall|i: int, j: int| 0 <= i < j < pf.len() implies #[trigger] pf[i]
            < #[trigger] pf[j] by {
            if w[0] == d {
                if i == 0 {
                    assert(pf[j] == rest[j - 1]);
                    assert(rest.contains(rest[j - 1]));
                } else {
                    assert(pf[i] == rest[i - 1] && pf[j] == rest[j - 1]);
                }
            } else {
                assert(pf =~= rest);
            }
        }
    }
}

/// An element-for-element copy of a word.
pub fn copy_word(p: &Vec<u8>) -> (r: Vec<u8>)
    ensures
        r@ == p@,
{
    let mut r: Vec<u8> = Vec::new();
    let mut i: usize = 0;
    while i < p.len()
        invariant
            0 <= i <= p@.len(),
            r@ == p@.take(i as int),
        decreases p@.len() - i,
    {
        r.push(p[i]);
        proof {
            assert(p@.take(i + 1) =~= p@.take(i as int).push(p@[i as int]));
        }
        i += 1;
    }
    proof {
        assert(p@.take(p@.len() as int) =~= p@);
    }
    r
}

/// Word equality, letter for letter.
pub fn eq_words(a: &Vec<u8>, b: &Vec<u8>) -> (r: bool)
    ensures
        r == (a@ == b@),
{
    if a.len() != b.len() {
        proof {
            assert(a@ != b@) by {
                if a@ == b@ {
                    assert(a@.len() == b@.len());
                }
            }
        }
        return false;
    }
    let mut i: usize = 0;
    while i < a.len()
        invariant
            0 <= i <= a@.len(),
            a@.len() == b@.len(),
            forall|t: int| 0 <= t < i ==> a@[t] == b@[t],
        decreases a@.len() - i,
    {
        if a[i] != b[i] {
            return false;
        }
        i += 1;
    }
    proof {
        assert(a@ =~= b@);
    }
    true
}

/// The sum of the first `d` sizes.
pub open spec fn sum_to(sizes: Seq<usize>, d: int) -> int
    decreases d,
{
    if d <= 0 {
        0
    } else {
        sum_to(sizes, d - 1) + sizes[d - 1]
    }
}

pub proof fn lemma_sum_to_mono(sizes: Seq<usize>, a: int, b: int)
    requires
        a <= b,
    ensures
        sum_to(sizes, a) <= sum_to(sizes, b),
    decreases b - a,
{
    if a < b {
        lemma_sum_to_mono(sizes, a, b - 1);
    }
}

/// The letter-by-letter face list of a word: for each die `d` below `n` in
/// order, the ascending positions of `d` in `w`.
pub open spec fn numbers_upto(w: Seq<u8>, d: int) -> Seq<int>
    decreases d,
{
    if d <= 0 {
        Seq::empty()
    } else {
        numbers_upto(w, d - 1) + positions_of(w, (d - 1) as u8)
    }
}

pub open spec fn as_ints(s: Seq<u8>) -> Seq<int> {
    s.map_values(|x: u8| x as int)
}

/// The letters `0..n` as a word, the value set of a full dice set.
pub open spec fn ids_seq(n: int) -> Seq<u8> {
    Seq::new(n as nat, |i: int| i as u8)
}

pub proof fn lemma_numbers_upto_len(w: Seq<u8>, sizes: Seq<usize>, d: int)
    requires
        0 <= d <= sizes.len(),
        forall|t: int| 0 <= t < sizes.len() ==> count_letter(w, t as u8) == sizes[t],
    ensures
        numbers_upto(w, d).len() == sum_to(sizes, d),
    decreases d,
{
    if d > 0 {
        lemma_numbers_upto_len(w, sizes, d - 1);
        lemma_positions_from_len(w, (d - 1) as u8, 0);
    }
}

/// A sequence whose die slices each equal the die's position list is the
/// number form of the word.
pub proof fn lemma_numbers_stitch(s: Seq<int>, w: Seq<u8>, sizes: Seq<usize>, n: int)
    requires
        0 <= n <= sizes.len(),
        s.len() == sum_to(sizes, n),
        forall|d: int|
            0 <= d < n ==> s.subrange(sum_to(sizes, d), sum_to(sizes, d + 1)) == #[trigger] positions_of(
                w,
                d as u8,
            ),
        forall|d: int| 0 <= d < sizes.len() ==> #[trigger] count_letter(w, d as u8) == sizes[d],
        forall|d: int| 0 <= d < sizes.len() ==> #[trigger] sizes[d] >= 0,
    ensures
        s == numbers_upto(w, n),
    decreases n,
{
    if n > 0 {
        let m = sum_to(sizes, n - 1);
        lemma_sum_to_mono(sizes, 0, n - 1);
        assert(sizes[n - 1] >= 0);
        let st = s.take(m);
        assert forall|d: int| 0 <= d < n - 1 implies st.subrange(
            sum_to(sizes, d),
            sum_to(sizes, d + 1),
        ) == #[trigger] positions_of(w, d as u8) by {
            lemma_sum_to_mono(sizes, d + 1, n - 1);
            lemma_sum_to_mono(sizes, 0, d);
            assert(st.subrange(sum_to(sizes, d), sum_to(sizes, d + 1)) =~= s.subrange(
                sum_to(sizes, d),
                sum_to(sizes, d + 1),
            ));
        }
        lemma_numbers_stitch(st, w, sizes, n - 1);
        assert(s =~= st + s.subrange(m, sum_to(sizes, n)));
    } else {
        assert(s =~= Seq::<int>::empty());
    }
}

/// Relabeling of a word over the internal alphabet into the external slot
/// space: internal letter `i` becomes slot `map[i]`.
pub open spec fn ext_word(w: Seq<u8>, map: Seq<usize>) -> Seq<u8> {
    w.map_values(|x: u8| map[x as int] as u8)
}

/// Collapse of an external word through a back-map: letters whose slot is
/// unmapped are dropped, the rest rewritten to the internal alphabet.
pub open spec fn collapse(w: Seq<u8>, back: Seq<Option<usize>>) -> Seq<u8>
    decreases w.len(),
{
    if w.len() == 0 {
        Seq::empty()
    } else {
        let rest = collapse(w.skip(1), back);
        if w[0] < back.len() && back[w[0] as int] is Some {
            seq![back[w[0] as int].unwrap() as u8] + rest
        } else {
            rest
        }
    }
}

pub proof fn lemma_collapse_concat(a: Seq<u8>, b: Seq<u8>, back: Seq<Option<usize>>)
    ensures
        collapse(a + b, back) == collapse(a, back) + collapse(b, back),
    decreases a.len(),
{
    if a.len() == 0 {
        assert(a + b =~= b);
        assert(collapse(a, back) + collapse(b, back) =~= collapse(b, back));
    } else {
        assert((a + b).skip(1) =~= a.skip(1) + b);
        assert((a + b)[0] == a[0]);
        lemma_collapse_concat(a.skip(1), b, back);
        if a[0] < back.len() && back[a[0] as int] is Some {
            assert(seq![back[a[0] as int].unwrap() as u8] + (collapse(a.skip(1), back) + collapse(
                b,
                back,
            )) =~= (seq![back[a[0] as int].unwrap() as u8] + collapse(a.skip(1), back)) + collapse(
                b,
                back,
            ));
        }
    }
}

/// `p` is an initial segment of `q`.
pub open spec fn is_prefix_of(p: Seq<u8>, q: Seq<u8>) -> bool {
    p.len() <= q.len() && p == q.subrange(0, p.len() as int)
}

/// Collapsing a prefix gives a prefix of the collapse.
pub proof fn lemma_collapse_prefix(w: Seq<u8>, i: int, back: Seq<Option<usize>>)
    requires
        0 <= i <= w.len(),
    ensures
        is_prefix_of(collapse(w.take(i), back), collapse(w, back)),
{
    assert(w =~= w.take(i) + w.skip(i));
    lemma_collapse_concat(w.take(i), w.skip(i), back);
    assert(collapse(w.take(i), back) =~= (collapse(w.take(i), back) + collapse(w.skip(i), back))
        .subrange(0, collapse(w.take(i), back).len() as int));
}


/// The letters of `w` below `d`, counted together.
pub open spec fn sum_counts(w: Seq<u8>, d: int) -> nat
    decreases d,
{
    if d <= 0 {
        0
    } else {
        sum_counts(w, d - 1) + count_letter(w, (d - 1) as u8)
    }
}

pub proof fn lemma_sum_counts_concat(a: Seq<u8>, b: Seq<u8>, d: int)
    ensures
        sum_counts(a + b, d) == sum_counts(a, d) + sum_counts(b, d),
    decreases d,
{
    if d > 0 {
        lemma_sum_counts_concat(a, b, d - 1);
        lemma_count_letter_concat(a, b, (d - 1) as u8);
    }
}

pub proof fn lemma_sum_counts_singleton(x: u8, d: int)
    requires
        d <= 256,
    ensures
        sum_counts(seq![x], d) == if (x as int) < d {
            1nat
        } else {
            0nat
        },
    decreases d,
{
    if d > 0 {
        lemma_sum_counts_singleton(x, d - 1);
        lemma_count_letter_singleton(x, (d - 1) as u8);
    }
}

/// A word whose letters lie below `n` is as long as all its letter counts
/// together.
pub proof fn lemma_len_is_sum_counts(w: Seq<u8>, n: int)
    requires
        n <= 256,
        forall|p: int| 0 <= p < w.len() ==> (#[trigger] w[p] as int) < n,
    ensures
        sum_counts(w, n) == w.len(),
    decreases w.len(),
{
    if w.len() == 0 {
        lemma_sum_counts_zero(w, n);
    } else {
        assert(w =~= seq![w[0]] + w.skip(1));
        lemma_sum_counts_concat(seq![w[0]], w.skip(1), n);
        lemma_sum_counts_singleton(w[0], n);
        lemma_len_is_sum_counts(w.skip(1), n);
    }
}

proof fn lemma_sum_counts_zero(w: Seq<u8>, d: int)
    requires
        w.len() == 0,
    ensures
        sum_counts(w, d) == 0,
    decreases d,
{
    if d > 0 {
        lemma_sum_counts_zero(w, d - 1);
    }
}

/// Pointwise equal counts give equal count sums.
pub proof fn lemma_sum_counts_matches_sizes(w: Seq<u8>, sizes: Seq<usize>, d: int)
    requires
        0 <= d <= sizes.len(),
        forall|t: int| 0 <= t < sizes.len() ==> #[trigger] count_letter(w, t as u8) == sizes[t],
    ensures
        sum_counts(w, d) == sum_to(sizes, d),
    decreases d,
{
    if d > 0 {
        lemma_sum_counts_matches_sizes(w, sizes, d - 1);
    }
}

/// Projecting onto slots that include `x` keeps the count of `x`; projecting
/// away from `x` removes it entirely.
pub proof fn lemma_count_proj(w: Seq<u8>, slots: Seq<usize>, x: u8)
    ensures
        slots.contains(x as usize) ==> count_letter(proj(w, slots), x) == count_letter(w, x),
        !slots.contains(x as usize) ==> count_letter(proj(w, slots), x) == 0,
    decreases w.len(),
{
    if w.len() > 0 {
        lemma_count_proj(w.skip(1), slots, x);
        if slots.contains(w[0] as usize) {
            assert(proj(w, slots) == seq![w[0]] + proj(w.skip(1), slots));
            lemma_count_letter_concat(seq![w[0]], proj(w.skip(1), slots), x);
            lemma_count_letter_singleton(w[0], x);
        }
    }
}

/// The slots that two maps share, in the first map's order.
pub open spec fn filter_common(m: Seq<usize>, other: Seq<usize>) -> Seq<usize>
    decreases m.len(),
{
    if m.len() == 0 {
        Seq::empty()
    } else if other.contains(m[0]) {
        seq![m[0]] + filter_common(m.skip(1), other)
    } else {
        filter_common(m.skip(1), other)
    }
}

pub proof fn lemma_filter_common_concat(a: Seq<usize>, b: Seq<usize>, other: Seq<usize>)
    ensures
        filter_common(a + b, other) == filter_common(a, other) + filter_common(b, other),
    decreases a.len(),
{
    if a.len() == 0 {
        assert(a + b =~= b);
        assert(filter_common(a, other) + filter_common(b, other) =~= filter_common(b, other));
    } else {
        assert((a + b).skip(1) =~= a.skip(1) + b);
        assert((a + b)[0] == a[0]);
        lemma_filter_common_concat(a.skip(1), b, other);
        if other.contains(a[0]) {
            assert(seq![a[0]] + (filter_common(a.skip(1), other) + filter_common(b, other)) =~= (
            seq![a[0]] + filter_common(a.skip(1), other)) + filter_common(b, other));
        }
    }
}

pub proof fn lemma_filter_common_singleton(x: usize, other: Seq<usize>)
    ensures
        filter_common(seq![x], other) == if other.contains(x) {
            seq![x]
        } else {
            Seq::<usize>::empty()
        },
{
    let s = seq![x];
    assert(filter_common(Seq::<usize>::empty(), other) == Seq::<usize>::empty());
    assert(s.skip(1) =~= Seq::<usize>::empty());
    if other.contains(x) {
        assert(seq![x] + Seq::<usize>::empty() =~= seq![x]);
    }
}

/// A slot lies in the shared list exactly when both maps hold it.
pub proof fn lemma_filter_common_member(m: Seq<usize>, other: Seq<usize>)
    ensures
        forall|x: usize|
            #![trigger filter_common(m, other).contains(x)]
            filter_common(m, other).contains(x) <==> (m.contains(x) && other.contains(x)),
    decreases m.len(),
{
    if m.len() > 0 {
        lemma_filter_common_member(m.skip(1), other);
        let fc = filter_common(m, other);
        let rest = filter_common(m.skip(1), other);
        assert forall|x: usize| #[trigger] fc.contains(x) implies (m.contains(x) && other.contains(
            x,
        )) by {
            let i = choose|i: int| 0 <= i < fc.len() && fc[i] == x;
            if other.contains(m[0]) && i == 0 {
                assert(m[0] == x);
            } else {
                if other.contains(m[0]) {
                    assert(fc[i] == rest[i - 1]);
                    assert(rest.contains(x));
                } else {
                    assert(fc =~= rest);
                    assert(rest.contains(x));
                }
                assert(m.skip(1).contains(x));
                let q = choose|q: int| 0 <= q < m.skip(1).len() && m.skip(1)[q] == x;
                assert(m[q + 1] == x);
            }
        }
        assert forall|x: usize| (m.contains(x) && other.contains(x)) implies #[trigger] fc.contains(
            x,
        ) by {
            let i = choose|i: int| 0 <= i < m.len() && m[i] == x;
            if i == 0 {
                assert(fc[0] == x);
            } else {
                assert(m.skip(1)[i - 1] == x);
                assert(m.skip(1).contains(x));
                assert(rest.contains(x));
                let q = choose|q: int| 0 <= q < rest.len() && #[trigger] rest[q] == x;
                if other.contains(m[0]) {
                    assert(fc[q + 1] == x);
                } else {
                    assert(fc =~= rest);
                }
            }
        }
    }
}


/// A word all of whose letters name listed slots projects to itself.
pub proof fn lemma_proj_id(w: Seq<u8>, slots: Seq<usize>)
    requires
        forall|p: int| 0 <= p < w.len() ==> slots.contains(#[trigger] w[p] as usize),
    ensures
        proj(w, slots) == w,
    decreases w.len(),
{
    if w.len() > 0 {
        lemma_proj_id(w.skip(1), slots);
        assert(seq![w[0]] + w.skip(1) =~= w);
    }
}

/// A word none of whose letters name listed slots projects to nothing.
pub proof fn lemma_proj_none(w: Seq<u8>, slots: Seq<usize>)
    requires
        forall|p: int| 0 <= p < w.len() ==> !slots.contains(#[trigger] w[p] as usize),
    ensures
        proj(w, slots) == Seq::<u8>::empty(),
    decreases w.len(),
{
    if w.len() > 0 {
        lemma_proj_none(w.skip(1), slots);
    }
}

/// An empty projection means no letter names a listed slot.
pub proof fn lemma_proj_empty_means(w: Seq<u8>, slots: Seq<usize>)
    requires
        proj(w, slots).len() == 0,
    ensures
        forall|p: int| 0 <= p < w.len() ==> !slots.contains(#[trigger] w[p] as usize),
    decreases w.len(),
{
    if w.len() > 0 {
        assert(!slots.contains(w[0] as usize));
        lemma_proj_empty_means(w.skip(1), slots);
        assert forall|p: int| 0 <= p < w.len() implies !slots.contains(
            #[trigger] w[p] as usize,
        ) by {
            if p > 0 {
                assert(w.skip(1)[p - 1] == w[p]);
            }
        }
    }
}

/// Counting an external letter in a relabeled word counts its internal letter.
pub proof fn lemma_ext_word_count(w: Seq<u8>, map: Seq<usize>, i: int)
    requires
        forall|p: int| 0 <= p < w.len() ==> (#[trigger] w[p] as int) < map.len(),
        forall|a: int, b: int| 0 <= a < b < map.len() ==> #[trigger] map[a] < #[trigger] map[b],
        forall|a: int| 0 <= a < map.len() ==> #[trigger] map[a] < 256,
        map.len() <= 256,
        0 <= i < map.len(),
    ensures
        count_letter(ext_word(w, map), (map[i] as u8)) == count_letter(w, i as u8),
    decreases w.len(),
{
    if w.len() == 0 {
        assert(ext_word(w, map) =~= Seq::<u8>::empty());
    } else {
        lemma_ext_word_count(w.skip(1), map, i);
        assert(ext_word(w, map).skip(1) =~= ext_word(w.skip(1), map));
        assert(ext_word(w, map)[0] == map[w[0] as int] as u8);
        if (w[0] as int) == i {
            assert(ext_word(w, map)[0] == map[i] as u8);
        } else {
            assert(map[w[0] as int] != map[i]) by {
                if (w[0] as int) < i {
                    assert(map[w[0] as int] < map[i]);
                } else {
                    assert(map[i] < map[w[0] as int]);
                }
            }
        }
    }
}

/// A letter no entry of the map produces is not in a relabeled word.
pub proof fn lemma_ext_word_count_absent(w: Seq<u8>, map: Seq<usize>, x: u8)
    requires
        forall|p: int| 0 <= p < w.len() ==> (#[trigger] w[p] as int) < map.len(),
        forall|a: int| 0 <= a < map.len() ==> #[trigger] map[a] < 256,
        forall|a: int| 0 <= a < map.len() ==> #[trigger] map[a] != x as usize,
    ensures
        count_letter(ext_word(w, map), x) == 0,
    decreases w.len(),
{
    if w.len() == 0 {
        assert(ext_word(w, map) =~= Seq::<u8>::empty());
    } else {
        lemma_ext_word_count_absent(w.skip(1), map, x);
        assert(ext_word(w, map).skip(1) =~= ext_word(w.skip(1), map));
        assert(ext_word(w, map)[0] == map[w[0] as int] as u8);
        assert(map[w[0] as int] != x as usize);
    }
}


/// Two strictly ascending integer lists with the same members are equal.
pub proof fn lemma_ascending_same_set_equal(x: Seq<int>, y: Seq<int>)
    requires
        forall|a: int, b: int| 0 <= a < b < x.len() ==> #[trigger] x[a] < #[trigger] x[b],
        forall|a: int, b: int| 0 <= a < b < y.len() ==> #[trigger] y[a] < #[trigger] y[b],
        forall|v: int| x.contains(v) <==> y.contains(v),
    ensures
        x == y,
    decreases x.len(),
{
    if x.len() == 0 {
        if y.len() > 0 {
            assert(y.contains(y[0]));
            assert(x.contains(y[0]));
        }
        assert(x =~= y);
    } else if y.len() == 0 {
        assert(x.contains(x[0]));
        assert(y.contains(x[0]));
    } else {
        assert(x.contains(x[0]) && y.contains(y[0]));
        assert(y.contains(x[0]) && x.contains(y[0]));
        let ix = choose|ix: int| 0 <= ix < x.len() && #[trigger] x[ix] == y[0];
        let iy = choose|iy: int| 0 <= iy < y.len() && #[trigger] y[iy] == x[0];
        assert(x[0] <= x[ix]);
        assert(y[0] <= y[iy]);
        assert(x[0] == y[0]);
        let xt = x.skip(1);
        let yt = y.skip(1);
        assert forall|v: int| xt.contains(v) <==> yt.contains(v) by {
            if xt.contains(v) {
                let a = choose|a: int| 0 <= a < xt.len() && #[trigger] xt[a] == v;
                assert(x[a + 1] == v);
                assert(x.contains(v));
                assert(x[0] < v);
                assert(y.contains(v));
                let b = choose|b: int| 0 <= b < y.len() && #[trigger] y[b] == v;
                assert(b != 0);
                assert(yt[b - 1] == v);
                assert(yt.contains(v));
            }
            if yt.contains(v) {
                let a = choose|a: int| 0 <= a < yt.len() && #[trigger] yt[a] == v;
                assert(y[a + 1] == v);
                assert(y.contains(v));
                assert(y[0] < v);
                assert(x.contains(v));
                let b = choose|b: int| 0 <= b < x.len() && #[trigger] x[b] == v;
                assert(b != 0);
                assert(xt[b - 1] == v);
                assert(xt.contains(v));
            }
        }
        assert forall|a: int, b: int| 0 <= a < b < xt.len() implies #[trigger] xt[a]
            < #[trigger] xt[b] by {
            assert(x[a + 1] < x[b + 1]);
        }
        assert forall|a: int, b: int| 0 <= a < b < yt.len() implies #[trigger] yt[a]
            < #[trigger] yt[b] by {
            assert(y[a + 1] < y[b + 1]);
        }
        lemma_ascending_same_set_equal(xt, yt);
        assert(x.len() == y.len());
        assert forall|i: int| 0 <= i < x.len() implies x[i] == y[i] by {
            if i > 0 {
                assert(xt[i - 1] == yt[i - 1]);
            }
        }
        assert(x =~= y);
    }
}

/// Every rank below the total falls in exactly one die's slice.
pub proof fn lemma_die_of_exists(sizes: Seq<usize>, j: int, n: int)
    requires
        0 <= n <= sizes.len(),
        0 <= j < sum_to(sizes, n),
    ensures
        exists|d: int|
            0 <= d < n && sum_to(sizes, d) <= j < sum_to(sizes, d + 1) && #[trigger] sizes[d]
                == sizes[d],
    decreases n,
{
    if n > 0 {
        if j >= sum_to(sizes, n - 1) {
            assert(sum_to(sizes, n - 1) <= j < sum_to(sizes, n) && sizes[n - 1] == sizes[n - 1]);
        } else {
            lemma_die_of_exists(sizes, j, n - 1);
        }
    }
}


/// Within each die's slice of the face list, the ranks ascend strictly.
pub open spec fn slices_ascending(nums: Seq<u8>, sizes: Seq<usize>) -> bool {
    forall|d: int, a: int, b: int|
        #![trigger sum_to(sizes, d), nums[a], nums[b]]
        0 <= d < sizes.len() && sum_to(sizes, d) <= a < b < sum_to(sizes, d + 1) && b < nums.len()
            ==> nums[a] < nums[b]
}

/// The die whose slice holds the rank index `j`.
pub open spec fn die_of(sizes: Seq<usize>, j: int, n: int) -> int
    decreases n,
{
    if n <= 0 {
        0
    } else if j < sum_to(sizes, n - 1) {
        die_of(sizes, j, n - 1)
    } else {
        n - 1
    }
}

pub proof fn lemma_die_of_bounds(sizes: Seq<usize>, j: int, n: int)
    requires
        0 <= n <= sizes.len(),
        0 <= j < sum_to(sizes, n),
    ensures
        0 <= die_of(sizes, j, n) < n,
        sum_to(sizes, die_of(sizes, j, n)) <= j < sum_to(sizes, die_of(sizes, j, n) + 1),
    decreases n,
{
    if n > 0 {
        if j < sum_to(sizes, n - 1) {
            lemma_die_of_bounds(sizes, j, n - 1);
        }
    }
}

pub proof fn lemma_die_of_unique(sizes: Seq<usize>, j: int, n: int, d: int)
    requires
        0 <= n <= sizes.len(),
        0 <= d < n,
        sum_to(sizes, d) <= j < sum_to(sizes, d + 1),
    ensures
        die_of(sizes, j, n) == d,
    decreases n,
{
    lemma_sum_to_mono(sizes, 0, d);
    lemma_sum_to_mono(sizes, d + 1, n);
    lemma_die_of_bounds(sizes, j, n);
    let d2 = die_of(sizes, j, n);
    if d2 < d {
        lemma_sum_to_mono(sizes, d2 + 1, d);
    } else if d < d2 {
        lemma_sum_to_mono(sizes, d + 1, d2);
    }
}


/// Projection sees only membership: slot lists with the same members project
/// alike.
pub proof fn lemma_proj_equiv(w: Seq<u8>, s1: Seq<usize>, s2: Seq<usize>)
    requires
        forall|x: usize| #[trigger] s1.contains(x) <==> s2.contains(x),
    ensures
        proj(w, s1) == proj(w, s2),
    decreases w.len(),
{
    if w.len() > 0 {
        lemma_proj_equiv(w.skip(1), s1, s2);
        assert(s1.contains(w[0] as usize) <==> s2.contains(w[0] as usize));
    }
}


/// The first position at which the letter `d` occurs.
pub open spec fn first_occ(w: Seq<u8>, d: u8) -> int
    decreases w.len(),
{
    if w.len() == 0 {
        0
    } else if w[0] == d {
        0
    } else {
        1 + first_occ(w.skip(1), d)
    }
}

pub proof fn lemma_first_occ(w: Seq<u8>, d: u8)
    requires
        count_letter(w, d) >= 1,
    ensures
        0 <= first_occ(w, d) < w.len(),
        w[first_occ(w, d)] == d,
        forall|p: int| 0 <= p < first_occ(w, d) ==> w[p] != d,
    decreases w.len(),
{
    if w[0] != d {
        lemma_first_occ(w.skip(1), d);
        assert forall|p: int| 0 <= p < first_occ(w, d) implies w[p] != d by {
            if p > 0 {
                assert(w.skip(1)[p - 1] == w[p]);
            }
        }
    }
}

/// The first position at which two equally long words differ.
pub open spec fn first_diff(a: Seq<u8>, b: Seq<u8>) -> int
    decreases a.len(),
{
    if a.len() == 0 || b.len() == 0 {
        0
    } else if a[0] != b[0] {
        0
    } else {
        1 + first_diff(a.skip(1), b.skip(1))
    }
}

pub proof fn lemma_first_diff(a: Seq<u8>, b: Seq<u8>)
    requires
        a.len() == b.len(),
        a != b,
    ensures
        0 <= first_diff(a, b) < a.len(),
        a[first_diff(a, b)] != b[first_diff(a, b)],
        forall|p: int| 0 <= p < first_diff(a, b) ==> a[p] == b[p],
    decreases a.len(),
{
    if a.len() == 0 {
        assert(a =~= b);
    } else if a[0] == b[0] {
        assert(a.skip(1) != b.skip(1)) by {
            if a.skip(1) == b.skip(1) {
                assert forall|p: int| 0 <= p < a.len() implies a[p] == b[p] by {
                    if p > 0 {
                        assert(a.skip(1)[p - 1] == a[p]);
                        assert(b.skip(1)[p - 1] == b[p]);
                    }
                }
                assert(a =~= b);
            }
        }
        lemma_first_diff(a.skip(1), b.skip(1));
        assert forall|p: int| 0 <= p < first_diff(a, b) implies a[p] == b[p] by {
            if p > 0 {
                assert(a.skip(1)[p - 1] == a[p]);
                assert(b.skip(1)[p - 1] == b[p]);
            }
        }
    }
}

/// Strict lexicographic order under standard byte order.
pub open spec fn lex_lt(a: Seq<u8>, b: Seq<u8>) -> bool {
    exists|t: int|
        #![trigger a[t], b[t]]
        0 <= t < a.len() && t < b.len() && a.take(t) == b.take(t) && a[t] < b[t]
}

/// The word after renaming every die by `perm`.
pub open spec fn relabel(w: Seq<u8>, perm: Seq<u8>) -> Seq<u8> {
    w.map_values(|x: u8| perm[x as int])
}

/// Within every run of equal-size dice, the lower-numbered die shows first.
pub open spec fn orbit_ordered(w: Seq<u8>, sizes: Seq<usize>) -> bool {
    forall|d1: int, d2: int|
        #![trigger sizes[d1], sizes[d2]]
        0 <= d1 < d2 < sizes.len() && sizes[d1] == sizes[d2] ==> first_occ(w, d1 as u8) < first_occ(
            w,
            d2 as u8,
        )
}

/// A word whose equal-size dice first appear in ascending order is the least
/// of its orbit: renaming dice within equal sizes never lowers the word.
pub proof fn lemma_canonical_least(w: Seq<u8>, sizes: Seq<usize>, perm: Seq<u8>)
    requires
        perm.len() == sizes.len(),
        perm.no_duplicates(),
        forall|p: int| 0 <= p < w.len() ==> (#[trigger] w[p] as int) < sizes.len(),
        forall|d: int| 0 <= d < sizes.len() ==> #[trigger] count_letter(w, d as u8) >= 1,
        forall|d: int|
            0 <= d < perm.len() ==> (#[trigger] perm[d] as int) < sizes.len() && sizes[perm[d] as int]
                == sizes[d],
        orbit_ordered(w, sizes),
        relabel(w, perm) != w,
    ensures
        lex_lt(w, relabel(w, perm)),
{
    let r = relabel(w, perm);
    assert(r.len() == w.len());
    lemma_first_diff(w, r);
    let t = first_diff(w, r);
    let d = w[t];
    let e = perm[d as int];
    assert(r[t] == e);
    assert(e != d);
    lemma_first_occ(w, d);
    let fo = first_occ(w, d);
    assert(fo == t) by {
        if fo < t {
            assert(w[fo] == d);
            assert(w[fo] == r[fo]);
            assert(r[fo] == perm[w[fo] as int]);
        }
        if fo > t {
            assert(w[t] != d);
        }
    }
    assert(perm[e as int] != e) by {
        if perm[e as int] == e {
            assert(perm[d as int] == perm[e as int]);
            assert((d as int) != (e as int));
        }
    }
    assert(count_letter(w, e) >= 1);
    lemma_first_occ(w, e);
    let foe = first_occ(w, e);
    assert(w[foe] == e);
    assert(foe != t);
    assert(foe > t) by {
        if foe < t {
            assert(w[foe] == r[foe]);
            assert(r[foe] == perm[w[foe] as int]);
        }
    }
    assert(sizes[e as int] == sizes[d as int]);
    assert((d as int) < (e as int)) by {
        if (e as int) < (d as int) {
            assert(first_occ(w, e) < first_occ(w, d));
        }
    }
    assert(w.take(t) =~= r.take(t));
    assert(0 <= t < w.len() && t < r.len() && w.take(t) == r.take(t) && w[t] < r[t]);
}

} // verus!
