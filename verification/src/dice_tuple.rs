use vstd::prelude::*;
use crate::words::{Word, copy_word, count_letter, lemma_count_letter_concat,
    lemma_count_letter_singleton, sum_to, lemma_sum_to_mono, positions_of, positions_from,
    lemma_positions_from_concat, lemma_positions_from_singleton, lemma_positions_from_len,
    lemma_positions_from_member, numbers_upto, as_ints, lemma_numbers_stitch};
use crate::fdts::FDTS;
use crate::words::{slices_ascending, die_of, lemma_die_of_bounds, lemma_die_of_unique,
    lemma_positions_from_ascending, lemma_ascending_same_set_equal};
use vstd::set_lib::{set_int_range, lemma_int_range, lemma_subset_equality};
use vstd::string::StringSliceAdditionalSpecFns;

verus! {

/// One candidate dice set, in its two equivalent forms: `word` records which
/// die owns each global rank position, `numbers` lists, die by die, the
/// ascending positions owned by that die.
pub struct DiceTuple {
    pub word: Word,
    pub numbers: Word,
}

/// `w` is a word of the dice-set shape `sizes`: right length, every letter
/// names a die, and the letter histogram equals the sizes.
pub open spec fn wf_word(w: Seq<u8>, sizes: Seq<usize>) -> bool {
    &&& w.len() == sum_to(sizes, sizes.len() as int)
    &&& forall|p: int| 0 <= p < w.len() ==> (#[trigger] w[p] as int) < sizes.len()
    &&& forall|d: int| 0 <= d < sizes.len() ==> #[trigger] count_letter(w, d as u8) == sizes[d]
}

impl DiceTuple {
    /// The two forms agree: `numbers` is exactly the face list of `word`.
    pub open spec fn wf(self, sizes: Seq<usize>) -> bool {
        &&& wf_word(self.word@, sizes)
        &&& as_ints(self.numbers@) == numbers_upto(self.word@, sizes.len() as int)
    }

    /// Build the tuple whose positional form is `word`.
    pub fn from_word(f: &FDTS, word: &Vec<u8>) -> (r: DiceTuple)
        requires
            f.wf(),
            wf_word(word@, f.sizes@),
        ensures
            r.wf(f.sizes@),
            r.word@ == word@,
    {
        let total: usize = f.total;
        let n: usize = f.sizes.len();
        proof {
            assert(word@.len() == total);
        }
        let mut numbers: Word = Vec::new();
        let mut q: usize = 0;
        while q < total
            invariant
                numbers@.len() == q,
                0 <= q <= total,
            decreases total - q,
        {
            numbers.push(0u8);
            q += 1;
        }
        let mut offs: Vec<usize> = Vec::new();
        let mut q: usize = 0;
        while q < n
            invariant
                offs@.len() == q,
                0 <= q <= n,
                n == f.sizes@.len(),
                f.wf(),
                forall|d: int| 0 <= d < q ==> #[trigger] offs@[d] == f.offsets@[d],
            decreases n - q,
        {
            offs.push(f.offsets[q]);
            q += 1;
        }
        proof {
            assert(word@.take(0) =~= Seq::<u8>::empty());
            assert forall|d: int| 0 <= d < n implies #[trigger] offs@[d] == sum_to(f.sizes@, d)
                + count_letter(word@.take(0), d as u8) by {}
            assert forall|d: int| 0 <= d < n implies as_ints(numbers@).subrange(
                sum_to(f.sizes@, d),
                offs@[d] as int,
            ) == #[trigger] positions_of(word@.take(0), d as u8) by {
                lemma_sum_to_mono(f.sizes@, 0, d);
                lemma_sum_to_mono(f.sizes@, d, n as int);
                assert(offs@[d] == f.offsets@[d]);
                assert(as_ints(numbers@).len() == total);
                assert(as_ints(numbers@).subrange(sum_to(f.sizes@, d), offs@[d] as int) =~= Seq::<
                    int,
                >::empty());
                assert(positions_of(word@.take(0), d as u8) =~= Seq::<int>::empty());
            }
        }
        let mut i: usize = 0;
        while i < total
            invariant
                f.wf(),
                wf_word(word@, f.sizes@),
                n == f.sizes@.len(),
                total == word@.len(),
                total == f.total,
                0 <= i <= total,
                numbers@.len() == total,
                offs@.len() == n,
                forall|d: int|
                    0 <= d < n ==> #[trigger] offs@[d] == sum_to(f.sizes@, d) + count_letter(
                        word@.take(i as int),
                        d as u8,
                    ),
                forall|d: int|
                    0 <= d < n ==> as_ints(numbers@).subrange(sum_to(f.sizes@, d), offs@[d] as int)
                        == #[trigger] positions_of(word@.take(i as int), d as u8),
            decreases total - i,
        {
            let dn: usize = word[i] as usize;
            proof {
                assert((word@[i as int] as int) < n);
                assert(word@ =~= word@.take(i as int) + word@.skip(i as int));
                lemma_count_letter_concat(word@.take(i as int), word@.skip(i as int), dn as u8);
                assert(word@.skip(i as int)[0] == word@[i as int]);
                assert(word@.skip(i as int).skip(1) =~= word@.skip(i + 1));
                assert(count_letter(word@.skip(i as int), dn as u8) >= 1);
                assert(count_letter(word@, dn as u8) == f.sizes@[dn as int]);
                assert(count_letter(word@.take(i as int), dn as u8) < f.sizes@[dn as int]);
                lemma_sum_to_mono(f.sizes@, dn as int + 1, n as int);
                assert(offs@[dn as int] < sum_to(f.sizes@, dn as int + 1));
                lemma_sum_to_mono(f.sizes@, 0, dn as int);
            }
            let pos: usize = offs[dn];
            let ghost numbers0 = numbers@;
            let ghost offs0 = offs@;
            numbers[pos] = i as u8;
            offs[dn] = pos + 1;
            proof {
                assert(as_ints(numbers@) =~= as_ints(numbers0).update(pos as int, i as int));
                assert(word@.take(i + 1) =~= word@.take(i as int) + seq![word@[i as int]]);
                assert forall|d: int| 0 <= d < n implies #[trigger] offs@[d] == sum_to(f.sizes@, d)
                    + count_letter(word@.take(i + 1), d as u8) by {
                    lemma_count_letter_concat(word@.take(i as int), seq![word@[i as int]], d as u8);
                    lemma_count_letter_singleton(word@[i as int], d as u8);
                }
                assert forall|d: int| 0 <= d < n implies as_ints(numbers@).subrange(
                    sum_to(f.sizes@, d),
                    offs@[d] as int,
                ) == #[trigger] positions_of(word@.take(i + 1), d as u8) by {
                    lemma_sum_to_mono(f.sizes@, d + 1, n as int);
                    lemma_sum_to_mono(f.sizes@, dn as int + 1, n as int);
                    assert(as_ints(numbers@).len() == total);
                    lemma_positions_from_concat(
                        word@.take(i as int),
                        seq![word@[i as int]],
                        d as u8,
                        0,
                    );
                    lemma_positions_from_singleton(word@[i as int], d as u8, i as int);
                    lemma_sum_to_mono(f.sizes@, 0, d);
                    assert(count_letter(word@, d as u8) == f.sizes@[d]);
                    lemma_count_letter_concat(word@.take(i as int), word@.skip(i as int), d as u8);
                    assert(offs0[d] <= sum_to(f.sizes@, d + 1));
                    if d == dn {
                        assert(as_ints(numbers@).subrange(sum_to(f.sizes@, d), pos + 1)
                            =~= as_ints(numbers0).subrange(sum_to(f.sizes@, d), pos as int).push(
                            i as int,
                        ));
                        assert(positions_of(word@.take(i + 1), d as u8) =~= positions_of(
                            word@.take(i as int),
                            d as u8,
                        ).push(i as int));
                    } else {
                        if d < dn {
                            lemma_sum_to_mono(f.sizes@, d + 1, dn as int);
                        } else {
                            lemma_sum_to_mono(f.sizes@, dn as int + 1, d);
                        }
                        assert(as_ints(numbers@).subrange(sum_to(f.sizes@, d), offs@[d] as int)
                            =~= as_ints(numbers0).subrange(sum_to(f.sizes@, d), offs0[d] as int));
                        assert(positions_of(word@.take(i + 1), d as u8) =~= positions_of(
                            word@.take(i as int),
                            d as u8,
                        ));
                    }
                }
            }
            i += 1;
        }
        proof {
            assert(word@.take(total as int) =~= word@);
            assert(as_ints(numbers@).len() == total);
            assert forall|d: int| 0 <= d < n implies as_ints(numbers@).subrange(
                sum_to(f.sizes@, d),
                sum_to(f.sizes@, d + 1),
            ) == #[trigger] positions_of(word@, d as u8) by {
                assert(offs@[d] == sum_to(f.sizes@, d) + f.sizes@[d]);
            }
            lemma_numbers_stitch(as_ints(numbers@), word@, f.sizes@, n as int);
        }
        let w2: Word = copy_word(word);
        DiceTuple { word: w2, numbers }
    }
}

impl PartialEq for DiceTuple {
    fn eq(&self, other: &DiceTuple) -> (r: bool) {
        crate::words::eq_words(&self.word, &other.word) && crate::words::eq_words(
            &self.numbers,
            &other.numbers,
        )
    }
}

impl vstd::std_specs::cmp::PartialEqSpecImpl for DiceTuple {
    open spec fn obeys_eq_spec() -> bool {
        true
    }

    open spec fn eq_spec(&self, other: &DiceTuple) -> bool {
        self.word@ == other.word@ && self.numbers@ == other.numbers@
    }
}


impl DiceTuple {
    /// Build the tuple whose face list is `numbers`: for each die in order,
    /// the ascending rank positions of its faces.
    pub fn from_numbers(f: &FDTS, numbers: &Vec<u8>) -> (r: DiceTuple)
        requires
            f.wf(),
            numbers@.len() == f.total,
            forall|t: int| 0 <= t < numbers@.len() ==> (#[trigger] numbers@[t] as int) < f.total,
            as_ints(numbers@).no_duplicates(),
            slices_ascending(numbers@, f.sizes@),
        ensures
            r.wf(f.sizes@),
            r.numbers@ == numbers@,
    {
        let total: usize = f.total;
        let n: usize = f.sizes.len();
        let mut word: Word = Vec::new();
        let mut q: usize = 0;
        while q < total
            invariant
                word@.len() == q,
                0 <= q <= total,
                forall|p: int| 0 <= p < q ==> #[trigger] word@[p] == 0u8,
            decreases total - q,
        {
            word.push(0u8);
            q += 1;
        }
        let mut dn: usize = 0;
        while dn < n
            invariant
                f.wf(),
                0 <= dn <= n,
                n == f.sizes@.len(),
                total == f.total,
                numbers@.len() == total,
                word@.len() == total,
                forall|t: int|
                    0 <= t < numbers@.len() ==> (#[trigger] numbers@[t] as int) < f.total,
                as_ints(numbers@).no_duplicates(),
                forall|p: int| 0 <= p < total ==> (#[trigger] word@[p] as int) < n,
                forall|j: int|
                    0 <= j < sum_to(f.sizes@, dn as int) ==> word@[#[trigger] numbers@[j] as int]
                        == die_of(f.sizes@, j, n as int) as u8,
            decreases n - dn,
        {
            let sz: usize = f.sizes[dn];
            let off: usize = f.offsets[dn];
            let mut i2: usize = 0;
            proof {
                lemma_sum_to_mono(f.sizes@, dn as int + 1, n as int);
            }
            while i2 < sz
                invariant
                    f.wf(),
                    0 <= dn < n,
                    n == f.sizes@.len(),
                    total == f.total,
                    numbers@.len() == total,
                    word@.len() == total,
                    sz == f.sizes@[dn as int],
                    off == sum_to(f.sizes@, dn as int),
                    off + sz == sum_to(f.sizes@, dn as int + 1),
                    sum_to(f.sizes@, dn as int + 1) <= total,
                    0 <= i2 <= sz,
                    forall|t: int|
                        0 <= t < numbers@.len() ==> (#[trigger] numbers@[t] as int) < f.total,
                    as_ints(numbers@).no_duplicates(),
                    forall|p: int| 0 <= p < total ==> (#[trigger] word@[p] as int) < n,
                    forall|j: int|
                        0 <= j < off + i2 ==> word@[#[trigger] numbers@[j] as int] == die_of(
                            f.sizes@,
                            j,
                            n as int,
                        ) as u8,
                decreases sz - i2,
            {
                let j: usize = off + i2;
                let p: usize = numbers[j] as usize;
                let ghost word0 = word@;
                word[p] = dn as u8;
                proof {
                    lemma_die_of_unique(f.sizes@, j as int, n as int, dn as int);
                    assert forall|j2: int|
                        0 <= j2 < off + i2 + 1 implies word@[#[trigger] numbers@[j2] as int]
                        == die_of(f.sizes@, j2, n as int) as u8 by {
                        if j2 < j {
                            assert(as_ints(numbers@)[j2] != as_ints(numbers@)[j as int]);
                            assert(numbers@[j2] != numbers@[j as int]);
                            assert(word@[numbers@[j2] as int] == word0[numbers@[j2] as int]);
                        } else {
                            assert(word@[p as int] == dn as u8);
                        }
                    }
                }
                i2 += 1;
            }
            dn += 1;
        }
        proof {
            let nums = as_ints(numbers@);
            let sizes = f.sizes@;
            nums.unique_seq_to_set();
            assert(nums.to_set().subset_of(set_int_range(0, total as int))) by {
                assert forall|v: int| nums.to_set().contains(v) implies set_int_range(
                    0,
                    total as int,
                ).contains(v) by {
                    let t = choose|t: int| 0 <= t < nums.len() && nums[t] == v;
                    assert((numbers@[t] as int) < f.total);
                }
            }
            lemma_int_range(0, total as int);
            lemma_subset_equality(nums.to_set(), set_int_range(0, total as int));
            assert forall|d: int| 0 <= d < n implies nums.subrange(
                sum_to(sizes, d),
                sum_to(sizes, d + 1),
            ) == #[trigger] positions_of(word@, d as u8) by {
                lemma_sum_to_mono(sizes, 0, d);
                lemma_sum_to_mono(sizes, d + 1, n as int);
                let off = sum_to(sizes, d);
                let off1 = sum_to(sizes, d + 1);
                let ys = nums.subrange(off, off1);
                let xs = positions_of(word@, d as u8);
                lemma_positions_from_ascending(word@, d as u8, 0);
                lemma_positions_from_member(word@, d as u8, 0);
                assert forall|v: int| xs.contains(v) <==> ys.contains(v) by {
                    if xs.contains(v) {
                        assert(0 <= v < total && word@[v] == d as u8);
                        assert(set_int_range(0, total as int).contains(v));
                        assert(nums.to_set().contains(v));
                        assert(nums.contains(v));
                        let j = choose|j: int| 0 <= j < nums.len() && #[trigger] nums[j] == v;
                        lemma_die_of_bounds(sizes, j, n as int);
                        assert(word@[numbers@[j] as int] == die_of(sizes, j, n as int) as u8);
                        assert(numbers@[j] as int == v);
                        assert(die_of(sizes, j, n as int) as u8 == d as u8);
                        assert(die_of(sizes, j, n as int) == d);
                        assert(off <= j < off1);
                        assert(ys[j - off] == v);
                        assert(ys.contains(v));
                    }
                    if ys.contains(v) {
                        let t = choose|t: int| 0 <= t < ys.len() && #[trigger] ys[t] == v;
                        let j = off + t;
                        assert(nums[j] == v);
                        assert(word@[numbers@[j] as int] == die_of(sizes, j, n as int) as u8);
                        lemma_die_of_unique(sizes, j, n as int, d);
                        assert(word@[v] == d as u8);
                        assert(0 <= v < total);
                        assert(xs.contains(v));
                    }
                }
                assert forall|a: int, b: int| 0 <= a < b < ys.len() implies #[trigger] ys[a]
                    < #[trigger] ys[b] by {
                    assert(numbers@[off + a] < numbers@[off + b]) by {
                        assert(slices_ascending(numbers@, sizes));
                        assert(sum_to(sizes, d) <= off + a < off + b < sum_to(sizes, d + 1));
                    }
                    assert(ys[a] == numbers@[off + a] as int);
                    assert(ys[b] == numbers@[off + b] as int);
                }
                lemma_ascending_same_set_equal(xs, ys);
            }
            assert forall|d: int| 0 <= d < n implies #[trigger] count_letter(word@, d as u8)
                == sizes[d] by {
                crate::words::lemma_positions_from_len(word@, d as u8, 0);
                assert(positions_of(word@, d as u8).len() == nums.subrange(
                    sum_to(sizes, d),
                    sum_to(sizes, d + 1),
                ).len());
                lemma_sum_to_mono(sizes, 0, d);
                lemma_sum_to_mono(sizes, d + 1, n as int);
            }
            lemma_numbers_stitch(nums, word@, sizes, n as int);
        }
        let numbers2: Word = copy_word(numbers);
        DiceTuple { word, numbers: numbers2 }
    }
}


/// One decimal digit as a character.
pub open spec fn digit_char(d: int) -> char {
    ((48 + d) as u8) as char
}

/// The decimal form of a number, most significant digit first.
pub open spec fn dec_str(x: int) -> Seq<char>
    decreases x,
{
    if x < 0 {
        Seq::empty()
    } else if x < 10 {
        seq![digit_char(x)]
    } else {
        dec_str(x / 10).push(digit_char(x % 10))
    }
}

/// Relies on String::push: appends exactly the one character.
#[verifier::external_body]
pub fn push_char(s: &mut String, c: char)
    ensures
        final(s)@ == old(s)@.push(c),
{
    s.push(c);
}

/// Append the decimal form of `x`.
pub fn push_decimal(s: &mut String, x: usize)
    ensures
        final(s)@ == old(s)@ + dec_str(x as int),
    decreases x,
{
    if x < 10 {
        push_char(s, (48 + x as u8) as char);
        proof {
            assert(old(s)@.push(digit_char(x as int)) =~= old(s)@ + dec_str(x as int));
        }
    } else {
        push_decimal(s, x / 10);
        push_char(s, (48 + (x % 10) as u8) as char);
        proof {
            assert((old(s)@ + dec_str(x as int / 10)).push(digit_char(x as int % 10)) =~= old(s)@
                + dec_str(x as int));
        }
    }
}

/// The letters a text stands for: byte values shifted down from the letter
/// alphabet.
pub open spec fn letters_of_text(bs: Seq<u8>) -> Seq<u8> {
    bs.map_values(|b: u8| (b - 65) as u8)
}

impl DiceTuple {
    /// The word as letters, each die written as a capital letter.
    pub fn as_string(&self) -> (r: String)
        requires
            forall|p: int| 0 <= p < self.word@.len() ==> #[trigger] self.word@[p] < 26,
        ensures
            r@.len() == self.word@.len(),
            forall|p: int|
                0 <= p < self.word@.len() ==> r@[p] == (((self.word@[p] + 65) as u8) as char),
    {
        let mut s = String::new();
        let mut i: usize = 0;
        while i < self.word.len()
            invariant
                0 <= i <= self.word@.len(),
                forall|p: int| 0 <= p < self.word@.len() ==> #[trigger] self.word@[p] < 26,
                s@.len() == i,
                forall|p: int| 0 <= p < i ==> s@[p] == (((self.word@[p] + 65) as u8) as char),
            decreases self.word@.len() - i,
        {
            let c: u8 = self.word[i] + 65;
            push_char(&mut s, c as char);
            i += 1;
        }
        s
    }

    /// Build the tuple written in letters, `A` the first die.
    pub fn from_string(f: &FDTS, word: &str) -> (r: DiceTuple)
        requires
            f.wf(),
            forall|p: int|
                0 <= p < word.spec_bytes().len() ==> 65 <= #[trigger] word.spec_bytes()[p] < 65
                    + f.sizes@.len(),
            wf_word(letters_of_text(word.spec_bytes()), f.sizes@),
        ensures
            r.wf(f.sizes@),
            r.word@ == letters_of_text(word.spec_bytes()),
    {
        let bs: &[u8] = word.as_bytes();
        let mut letters: Word = Vec::new();
        let mut i: usize = 0;
        while i < bs.len()
            invariant
                0 <= i <= bs@.len(),
                bs@ == word.spec_bytes(),
                forall|p: int|
                    0 <= p < word.spec_bytes().len() ==> 65 <= #[trigger] word.spec_bytes()[p] < 91,
                letters@.len() == i,
                forall|p: int| 0 <= p < i ==> #[trigger] letters@[p] == (bs@[p] - 65) as u8,
            decreases bs@.len() - i,
        {
            let b: u8 = *vstd::slice::slice_index_get(bs, i);
            letters.push(b - 65);
            i += 1;
        }
        proof {
            assert(letters@ =~= letters_of_text(word.spec_bytes()));
        }
        DiceTuple::from_word(f, &letters)
    }
}


/// Two well-formed tuples with the same word are the same tuple: the face
/// list is a function of the word.
pub proof fn lemma_word_determines_numbers(t1: DiceTuple, t2: DiceTuple, sizes: Seq<usize>)
    requires
        t1.wf(sizes),
        t2.wf(sizes),
        t1.word@ == t2.word@,
    ensures
        t1.numbers@ == t2.numbers@,
{
    assert(as_ints(t1.numbers@) == as_ints(t2.numbers@));
    assert forall|p: int| 0 <= p < t1.numbers@.len() implies t1.numbers@[p] == t2.numbers@[p] by {
        assert(as_ints(t1.numbers@)[p] == as_ints(t2.numbers@)[p]);
    }
    assert(t1.numbers@ =~= t2.numbers@);
}

/// The word up to a die: numbers built from more dice extend those from fewer.
proof fn lemma_numbers_upto_prefix(w: Seq<u8>, sizes: Seq<usize>, m: int, n: int)
    requires
        0 <= m <= n <= sizes.len(),
        forall|t: int| 0 <= t < sizes.len() ==> #[trigger] count_letter(w, t as u8) == sizes[t],
        forall|t: int| 0 <= t < sizes.len() ==> #[trigger] sizes[t] >= 0,
    ensures
        numbers_upto(w, n).take(sum_to(sizes, m)) == numbers_upto(w, m),
    decreases n,
{
    crate::words::lemma_numbers_upto_len(w, sizes, m);
    crate::words::lemma_numbers_upto_len(w, sizes, n);
    if m == n {
        assert(numbers_upto(w, n).take(sum_to(sizes, m)) =~= numbers_upto(w, n));
    } else {
        lemma_numbers_upto_prefix(w, sizes, m, n - 1);
        crate::words::lemma_numbers_upto_len(w, sizes, n - 1);
        lemma_sum_to_mono(sizes, m, n - 1);
        assert(numbers_upto(w, n) == numbers_upto(w, n - 1) + positions_of(w, (n - 1) as u8));
        assert(numbers_upto(w, n).take(sum_to(sizes, m)) =~= numbers_upto(w, n - 1).take(
            sum_to(sizes, m),
        ));
    }
}

/// The slice of the face list that belongs to one die is that die's position
/// list.
pub proof fn lemma_numbers_upto_slice(w: Seq<u8>, sizes: Seq<usize>, d: int)
    requires
        0 <= d < sizes.len(),
        forall|t: int| 0 <= t < sizes.len() ==> #[trigger] count_letter(w, t as u8) == sizes[t],
        forall|t: int| 0 <= t < sizes.len() ==> #[trigger] sizes[t] >= 0,
    ensures
        numbers_upto(w, sizes.len() as int).subrange(sum_to(sizes, d), sum_to(sizes, d + 1))
            == positions_of(w, d as u8),
{
    let n = sizes.len() as int;
    lemma_numbers_upto_prefix(w, sizes, d + 1, n);
    crate::words::lemma_numbers_upto_len(w, sizes, d);
    crate::words::lemma_numbers_upto_len(w, sizes, d + 1);
    crate::words::lemma_numbers_upto_len(w, sizes, n);
    crate::words::lemma_positions_from_len(w, d as u8, 0);
    lemma_sum_to_mono(sizes, 0, d);
    lemma_sum_to_mono(sizes, d + 1, n);
    assert(numbers_upto(w, d + 1) == numbers_upto(w, d) + positions_of(w, d as u8));
    assert(numbers_upto(w, n).subrange(sum_to(sizes, d), sum_to(sizes, d + 1)) =~= positions_of(
        w,
        d as u8,
    )) by {
        assert forall|t: int|
            0 <= t < sum_to(sizes, d + 1) - sum_to(sizes, d) implies #[trigger] numbers_upto(
            w,
            n,
        ).subrange(sum_to(sizes, d), sum_to(sizes, d + 1))[t] == positions_of(w, d as u8)[t] by {
            assert(numbers_upto(w, n).take(sum_to(sizes, d + 1)) == numbers_upto(w, d + 1));
            assert(numbers_upto(w, n).take(sum_to(sizes, d + 1))[sum_to(sizes, d) + t]
                == numbers_upto(w, n)[sum_to(sizes, d) + t]);
            assert(numbers_upto(w, d + 1) == numbers_upto(w, d) + positions_of(w, d as u8));
            assert(numbers_upto(w, d + 1)[sum_to(sizes, d) + t] == positions_of(w, d as u8)[t]);
            assert(numbers_upto(w, n).subrange(sum_to(sizes, d), sum_to(sizes, d + 1))[t]
                == numbers_upto(w, n)[sum_to(sizes, d) + t]);
        }
    }
}

/// Two well-formed tuples with the same face list are the same tuple: the
/// word is a function of the face list.
pub proof fn lemma_numbers_determine_word(t1: DiceTuple, t2: DiceTuple, sizes: Seq<usize>)
    requires
        t1.wf(sizes),
        t2.wf(sizes),
        t1.numbers@ == t2.numbers@,
    ensures
        t1.word@ == t2.word@,
{
    let w1 = t1.word@;
    let w2 = t2.word@;
    let n = sizes.len() as int;
    assert forall|p: int| 0 <= p < w1.len() implies w1[p] == w2[p] by {
        let d = w1[p];
        assert((d as int) < n);
        crate::words::lemma_positions_from_member(w1, d, 0);
        crate::words::lemma_positions_from_member(w2, d, 0);
        assert(positions_of(w1, d).contains(p));
        lemma_numbers_upto_slice(w1, sizes, d as int);
        lemma_numbers_upto_slice(w2, sizes, d as int);
        assert(positions_of(w1, d) == positions_of(w2, d));
        assert(positions_of(w2, d).contains(p));
        assert(w2[p] == d);
    }
    assert(w1 =~= w2);
}

} // verus!
