use vstd::prelude::*;
use crate::words::{Word, copy_word, eq_words};

verus! {

/// A flat set of words. An FDTS keeps here every prefix of every accepted
/// word, as the constant-time oracle behind the interleaver's pruning.
pub struct PrefixSet {
    items: Vec<Word>,
}

impl View for PrefixSet {
    type V = Set<Seq<u8>>;

    closed spec fn view(&self) -> Set<Seq<u8>> {
        self.items@.map_values(|v: Word| v@).to_set()
    }
}

impl PrefixSet {
    /// No word is stored twice.
    pub closed spec fn wf(self) -> bool {
        self.items@.map_values(|v: Word| v@).no_duplicates()
    }

    pub fn new() -> (r: PrefixSet)
        ensures
            r.wf(),
            r@ == Set::<Seq<u8>>::empty(),
    {
        let r = PrefixSet { items: Vec::new() };
        proof {
            assert(r.items@.map_values(|v: Word| v@) =~= Seq::<Seq<u8>>::empty());
            assert(r@ =~= Set::<Seq<u8>>::empty());
        }
        r
    }

    /// Membership of a word.
    pub fn contains_word(&self, w: &Vec<u8>) -> (r: bool)
        ensures
            r == self@.contains(w@),
    {
        let ghost ms = self.items@.map_values(|v: Word| v@);
        let mut j: usize = 0;
        while j < self.items.len()
            invariant
                0 <= j <= self.items@.len(),
                ms == self.items@.map_values(|v: Word| v@),
                forall|t: int| 0 <= t < j ==> ms[t] != w@,
            decreases self.items@.len() - j,
        {
            if eq_words(&self.items[j], w) {
                proof {
                    assert(ms[j as int] == w@);
                    assert(ms.contains(w@));
                }
                return true;
            }
            j += 1;
        }
        proof {
            if self@.contains(w@) {
                let t = choose|t: int| 0 <= t < ms.len() && ms[t] == w@;
            }
        }
        false
    }

    /// Add one word.
    pub fn insert(&mut self, w: Word)
        requires
            old(self).wf(),
        ensures
            final(self).wf(),
            final(self)@ == old(self)@.insert(w@),
    {
        let present: bool = self.contains_word(&w);
        let ghost ms = self.items@.map_values(|v: Word| v@);
        if !present {
            self.items.push(w);
            proof {
                let ms2 = self.items@.map_values(|v: Word| v@);
                assert(ms2 =~= ms.push(w@));
                assert forall|t: int| 0 <= t < ms.len() implies ms2[t] == ms[t] by {}
                assert(self.wf());
                assert forall|p: Seq<u8>| self@.contains(p) <==> old(self)@.insert(w@).contains(
                    p,
                ) by {
                    if self@.contains(p) {
                        let t = choose|t: int| 0 <= t < ms2.len() && ms2[t] == p;
                        if t < ms.len() {
                            assert(ms.contains(p));
                        }
                    }
                    if old(self)@.insert(w@).contains(p) {
                        if p == w@ {
                            assert(ms2[ms.len() as int] == w@);
                            assert(ms2.contains(p));
                        } else {
                            assert(ms.contains(p));
                            let t = choose|t: int| 0 <= t < ms.len() && ms[t] == p;
                            assert(ms2[t] == p);
                            assert(ms2.contains(p));
                        }
                    }
                }
                assert(self@ =~= old(self)@.insert(w@));
            }
        } else {
            proof {
                assert(old(self)@.insert(w@) =~= old(self)@);
            }
        }
    }

    /// How many distinct words are stored.
    pub fn len(&self) -> (r: usize)
        ensures
            self.wf() ==> r == self@.len(),
    {
        proof {
            if self.wf() {
                self.items@.map_values(|v: Word| v@).unique_seq_to_set();
            }
        }
        self.items.len()
    }

    /// Add every prefix of `w`, the empty one and `w` itself included.
    pub fn insert_prefixes(&mut self, w: &Vec<u8>)
        requires
            old(self).wf(),
        ensures
            final(self).wf(),
            final(self)@ == old(self)@.union(
                Set::new(|p: Seq<u8>| exists|l: int| 0 <= l <= w@.len() && p == #[trigger] w@.take(l)),
            ),
    {
        let total: usize = w.len();
        let mut pref: Word = Vec::new();
        self.insert(Vec::new());
        proof {
            assert(w@.take(0) =~= Seq::<u8>::empty());
            assert(self@ =~= old(self)@.union(
                Set::new(|p: Seq<u8>| exists|l2: int| 0 <= l2 <= 0 && p == #[trigger] w@.take(l2)),
            ));
        }
        let mut l: usize = 0;
        while l < total
            invariant
                0 <= l <= total,
                total == w@.len(),
                pref@ == w@.take(l as int),
                self.wf(),
                self@ == old(self)@.union(
                    Set::new(
                        |p: Seq<u8>| exists|l2: int| 0 <= l2 <= l && p == #[trigger] w@.take(l2),
                    ),
                ),
            decreases total - l,
        {
            pref.push(w[l]);
            proof {
                assert(w@.take(l + 1) =~= w@.take(l as int).push(w@[l as int]));
            }
            let c: Word = copy_word(&pref);
            self.insert(c);
            proof {
                assert(self@ =~= old(self)@.union(
                    Set::new(
                        |p: Seq<u8>| exists|l2: int| 0 <= l2 <= l + 1 && p == #[trigger] w@.take(
                            l2,
                        ),
                    ),
                ));
            }
            l += 1;
        }
        proof {
            assert(self@ =~= old(self)@.union(
                Set::new(
                    |p: Seq<u8>| exists|l2: int| 0 <= l2 <= w@.len() && p == #[trigger] w@.take(l2),
                ),
            ));
        }
    }
}

} // verus!
