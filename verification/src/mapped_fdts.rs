use vstd::prelude::*;
use crate::words::{Word, ext_word, collapse, proj};
use crate::fdts::FDTS;
use crate::subset_word;

verus! {

/// A view of an FDTS embedded into a wider external slot space: internal die
/// `i` stands at external slot `map[i]`; `back` inverts the map and is `None`
/// at the slots the view does not cover.
pub struct MappedFDTS<'a> {
    pub fdts: &'a FDTS,
    pub map: Vec<usize>,
    pub back: Vec<Option<usize>>,
}

impl<'a> MappedFDTS<'a> {
    pub open spec fn wf(self) -> bool {
        &&& self.fdts.wf()
        &&& self.map@.len() == self.fdts.sizes@.len()
        &&& self.back@.len() <= 26
        &&& forall|i: int| 0 <= i < self.map@.len() ==> #[trigger] self.map@[i] < self.back@.len()
        &&& forall|i: int, j: int|
            0 <= i < j < self.map@.len() ==> #[trigger] self.map@[i] < #[trigger] self.map@[j]
        &&& forall|j: int|
            0 <= j < self.back@.len() && (#[trigger] self.back@[j]) is Some ==> (
            self.back@[j].unwrap() < self.map@.len() && self.map@[self.back@[j].unwrap() as int]
                == j)
        &&& forall|j: int, i: int|
            #![trigger self.back@[j], self.map@[i]]
            0 <= j < self.back@.len() && self.back@[j] is None && 0 <= i < self.map@.len()
                ==> self.map@[i] != j
    }

    /// The external width of the view.
    pub open spec fn width(self) -> int {
        self.back@.len() as int
    }

    /// The accepted words of the underlying FDTS, relabeled into external slots.
    pub open spec fn ext_words(self) -> Seq<Seq<u8>> {
        self.fdts.words().map_values(|w: Seq<u8>| ext_word(w, self.map@))
    }

    /// The size of the die at external slot `j`, where one stands.
    pub open spec fn ext_size(self, j: int) -> int {
        match self.back@[j] {
            Some(i) => self.fdts.sizes@[i as int] as int,
            None => -1,
        }
    }

    /// Wrap `fdts` into the external space of the given width.
    pub fn new(fdts: &'a FDTS, map: &Vec<usize>, width: usize) -> (r: MappedFDTS<'a>)
        requires
            fdts.wf(),
            map@.len() == fdts.sizes@.len(),
            width <= 26,
            forall|i: int| 0 <= i < map@.len() ==> #[trigger] map@[i] < width,
            forall|i: int, j: int|
                0 <= i < j < map@.len() ==> #[trigger] map@[i] < #[trigger] map@[j],
        ensures
            r.wf(),
            r.fdts == fdts,
            r.map@ == map@,
            r.back@.len() == width,
    {
        let mut back: Vec<Option<usize>> = Vec::new();
        let mut j: usize = 0;
        while j < width
            invariant
                0 <= j <= width,
                back@.len() == j,
                forall|t: int| 0 <= t < j ==> back@[t] is None,
            decreases width - j,
        {
            back.push(None);
            j += 1;
        }
        let mut i: usize = 0;
        while i < map.len()
            invariant
                0 <= i <= map@.len(),
                back@.len() == width,
                forall|t: int| 0 <= t < map@.len() ==> #[trigger] map@[t] < width,
                forall|t1: int, t2: int|
                    0 <= t1 < t2 < map@.len() ==> #[trigger] map@[t1] < #[trigger] map@[t2],
                forall|t: int| 0 <= t < i ==> back@[map@[t] as int] == Some(t as usize),
                forall|j2: int|
                    0 <= j2 < width && (#[trigger] back@[j2]) is Some ==> (back@[j2].unwrap() < i
                        && map@[back@[j2].unwrap() as int] == j2),
                forall|j2: int, t: int|
                    #![trigger back@[j2], map@[t]]
                    0 <= j2 < width && back@[j2] is None && 0 <= t < i ==> map@[t] != j2,
            decreases map@.len() - i,
        {
            let slot: usize = map[i];
            back[slot] = Some(i);
            i += 1;
        }
        MappedFDTS { fdts, map: crate::copy_slots(map), back }
    }

    /// The projected words: each internal letter rewritten to its external slot.
    pub fn iterate_words(&self) -> (r: Vec<Word>)
        requires
            self.wf(),
        ensures
            r@.len() == self.ext_words().len(),
            forall|t: int| 0 <= t < r@.len() ==> #[trigger] r@[t]@ == self.ext_words()[t],
    {
        let mut r: Vec<Word> = Vec::new();
        let mut t: usize = 0;
        while t < self.fdts.dice.len()
            invariant
                self.wf(),
                0 <= t <= self.fdts.dice@.len(),
                r@.len() == t,
                forall|t2: int| 0 <= t2 < t ==> #[trigger] r@[t2]@ == self.ext_words()[t2],
            decreases self.fdts.dice@.len() - t,
        {
            let w: &Word = &self.fdts.dice[t].word;
            let mut out: Word = Vec::new();
            let mut p: usize = 0;
            while p < w.len()
                invariant
                    self.wf(),
                    0 <= p <= w@.len(),
                    w@ == self.fdts.dice@[t as int].word@,
                    0 <= t < self.fdts.dice@.len(),
                    out@ == ext_word(w@, self.map@).take(p as int),
                decreases w@.len() - p,
            {
                let x: u8 = w[p];
                proof {
                    assert(self.fdts.dice@[t as int].wf(self.fdts.sizes@));
                    assert((w@[p as int] as int) < self.fdts.sizes@.len());
                    assert(ext_word(w@, self.map@).take(p + 1) =~= ext_word(
                        w@,
                        self.map@,
                    ).take(p as int).push(self.map@[w@[p as int] as int] as u8));
                }
                out.push(self.map[x as usize] as u8);
                p += 1;
            }
            proof {
                assert(ext_word(w@, self.map@).take(w@.len() as int) =~= ext_word(w@, self.map@));
                assert(self.ext_words()[t as int] == ext_word(w@, self.map@));
            }
            r.push(out);
            t += 1;
        }
        r
    }

    /// The projected words restricted to the slots in `subset`.
    pub fn iterate_words_subset(&self, subset: &[usize]) -> (r: Vec<Word>)
        requires
            self.wf(),
        ensures
            r@.len() == self.ext_words().len(),
            forall|t: int|
                0 <= t < r@.len() ==> #[trigger] r@[t]@ == proj(self.ext_words()[t], subset@),
    {
        let ws: Vec<Word> = self.iterate_words();
        let mut r: Vec<Word> = Vec::new();
        let mut t: usize = 0;
        while t < ws.len()
            invariant
                0 <= t <= ws@.len(),
                r@.len() == t,
                ws@.len() == self.ext_words().len(),
                forall|t2: int| 0 <= t2 < ws@.len() ==> #[trigger] ws@[t2]@ == self.ext_words()[t2],
                forall|t2: int|
                    0 <= t2 < t ==> #[trigger] r@[t2]@ == proj(self.ext_words()[t2], subset@),
            decreases ws@.len() - t,
        {
            r.push(subset_word(&ws[t], subset));
            t += 1;
        }
        r
    }

    /// Collapse an external word through the back-map and ask whether the
    /// result is a prefix of an accepted word of the underlying FDTS.
    pub fn subset_word_in_prefixes(&self, w: &Vec<u8>) -> (r: bool)
        requires
            self.wf(),
        ensures
            r == self.fdts.prefixes@.contains(collapse(w@, self.back@)),
    {
        let mut out: Word = Vec::new();
        let mut p: usize = 0;
        while p < w.len()
            invariant
                self.wf(),
                0 <= p <= w@.len(),
                out@ == collapse(w@.take(p as int), self.back@),
            decreases w@.len() - p,
        {
            let x: u8 = w[p];
            proof {
                assert(w@.take(p + 1) =~= w@.take(p as int) + seq![w@[p as int]]);
                crate::words::lemma_collapse_concat(
                    w@.take(p as int),
                    seq![w@[p as int]],
                    self.back@,
                );
                lemma_collapse_singleton(w@[p as int], self.back@);
            }
            if (x as usize) < self.back.len() {
                match self.back[x as usize] {
                    Some(i2) => {
                        out.push(i2 as u8);
                    },
                    None => {},
                }
            }
            p += 1;
        }
        proof {
            assert(w@.take(w@.len() as int) =~= w@);
        }
        self.fdts.prefixes.contains_word(&out)
    }

    /// Equal width, and where both views place a die, the sizes agree.
    pub open spec fn compatible(self, other: MappedFDTS<'_>) -> bool {
        &&& self.width() == other.width()
        &&& forall|j: int|
            0 <= j < self.width() ==> ((#[trigger] self.back@[j]) is Some && (
            #[trigger] other.back@[j]) is Some ==> self.ext_size(j) == other.ext_size(j))
    }

    pub fn is_compatible_with(&self, other: &MappedFDTS<'_>) -> (r: bool)
        requires
            self.wf(),
            other.wf(),
        ensures
            r == self.compatible(*other),
    {
        if self.back.len() != other.back.len() {
            return false;
        }
        let mut j: usize = 0;
        while j < self.back.len()
            invariant
                self.wf(),
                other.wf(),
                self.back@.len() == other.back@.len(),
                0 <= j <= self.back@.len(),
                forall|t: int|
                    0 <= t < j ==> ((#[trigger] self.back@[t]) is Some && (
                    #[trigger] other.back@[t]) is Some ==> self.ext_size(t) == other.ext_size(t)),
            decreases self.back@.len() - j,
        {
            match (self.back[j], other.back[j]) {
                (Some(i1), Some(i2)) => {
                    if self.fdts.sizes[i1] != other.fdts.sizes[i2] {
                        return false;
                    }
                },
                _ => {},
            }
            j += 1;
        }
        true
    }
}

proof fn lemma_collapse_singleton(x: u8, back: Seq<Option<usize>>)
    ensures
        collapse(seq![x], back) == if x < back.len() && back[x as int] is Some {
            seq![back[x as int].unwrap() as u8]
        } else {
            Seq::<u8>::empty()
        },
{
    let s = seq![x];
    assert(collapse(Seq::<u8>::empty(), back) == Seq::<u8>::empty());
    assert(s.skip(1) =~= Seq::<u8>::empty());
    if x < back.len() && back[x as int] is Some {
        assert(seq![back[x as int].unwrap() as u8] + Seq::<u8>::empty() =~= seq![back[x as int].unwrap() as u8]);
    }
}

} // verus!
