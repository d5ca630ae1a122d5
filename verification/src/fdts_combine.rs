use vstd::prelude::*;
use crate::words::{Word, copy_word, collapse, lemma_collapse_prefix, proj, lemma_proj_id,
    lemma_proj_none, lemma_proj_empty_means};
use crate::mapped_fdts::MappedFDTS;
use crate::fdts::{FDTS, prefix_closure, lemma_prefix_closure_closed};

verus! {

/// All words starting with `c` whose tail lies in `s`.
pub open spec fn prepend(c: u8, s: Set<Seq<u8>>) -> Set<Seq<u8>> {
    Set::new(|z: Seq<u8>| z.len() > 0 && z[0] == c && s.contains(z.skip(1)))
}

/// The words that interleave `w1` and `w2` while preserving each one's order,
/// where a letter of the `common` slots stands for the same occurrence in both
/// and must match up. Mirrors the branching of the interleaver.
pub open spec fn merges(w1: Seq<u8>, w2: Seq<u8>, common: Seq<usize>) -> Set<Seq<u8>>
    decreases w1.len() + w2.len(),
{
    if w1.len() == 0 && w2.len() == 0 {
        set![Seq::<u8>::empty()]
    } else if w1.len() == 0 {
        set![w2]
    } else if w2.len() == 0 {
        set![w1]
    } else if w1[0] == w2[0] {
        prepend(w1[0], merges(w1.skip(1), w2.skip(1), common))
    } else if common.contains(w1[0] as usize) {
        prepend(w2[0], merges(w1, w2.skip(1), common))
    } else if common.contains(w2[0] as usize) {
        prepend(w1[0], merges(w1.skip(1), w2, common))
    } else {
        prepend(w1[0], merges(w1.skip(1), w2, common)).union(
            prepend(w2[0], merges(w1, w2.skip(1), common)),
        )
    }
}

/// Gates after the letter `c` has entered the word: a letter's first
/// appearance opens its successor's gate within the same size orbit.
pub open spec fn upgrade(cg: Seq<bool>, icg: Seq<usize>, c: u8) -> Seq<bool> {
    if c < icg.len() && icg[c as int] < cg.len() && !cg[icg[c as int] as int] {
        cg.update(icg[c as int] as int, true)
    } else {
        cg
    }
}

/// The gated interleavings that place `c` first, if its gate is open.
pub open spec fn push_lex(
    c: u8,
    w1: Seq<u8>,
    w2: Seq<u8>,
    common: Seq<usize>,
    cg: Seq<bool>,
    icg: Seq<usize>,
) -> Set<Seq<u8>>
    decreases w1.len() + w2.len(), 1int,
{
    if c < cg.len() && cg[c as int] {
        prepend(c, merges_lex(w1, w2, common, upgrade(cg, icg, c), icg))
    } else {
        Set::empty()
    }
}

/// The interleavings of `w1` and `w2` under the lex-canonical gate discipline:
/// while some gate is closed, a letter may join the word only if its gate is
/// open; once every gate is open, all interleavings are allowed. A side that
/// runs out leaves the other side's tail as it stands.
pub open spec fn merges_lex(
    w1: Seq<u8>,
    w2: Seq<u8>,
    common: Seq<usize>,
    cg: Seq<bool>,
    icg: Seq<usize>,
) -> Set<Seq<u8>>
    decreases w1.len() + w2.len(), 0int,
{
    if w1.len() == 0 && w2.len() == 0 {
        set![Seq::<u8>::empty()]
    } else if w1.len() == 0 {
        set![w2]
    } else if w2.len() == 0 {
        set![w1]
    } else if forall|t: int| 0 <= t < cg.len() ==> #[trigger] cg[t] {
        merges(w1, w2, common)
    } else if w1[0] == w2[0] {
        push_lex(w1[0], w1.skip(1), w2.skip(1), common, cg, icg)
    } else if common.contains(w1[0] as usize) {
        push_lex(w2[0], w1, w2.skip(1), common, cg, icg)
    } else if common.contains(w2[0] as usize) {
        push_lex(w1[0], w1.skip(1), w2, common, cg, icg)
    } else {
        push_lex(w1[0], w1.skip(1), w2, common, cg, icg).union(
            push_lex(w2[0], w1, w2.skip(1), common, cg, icg),
        )
    }
}

/// Every checker accepts the collapse of `z` as a prefix of one of its words.
pub open spec fn passes_checkers(z: Seq<u8>, checking: Seq<MappedFDTS>) -> bool {
    forall|c: int|
        0 <= c < checking.len() ==> (#[trigger] checking[c]).fdts.prefixes@.contains(
            collapse(z, checking[c].back@),
        )
}

/// All checkers well formed.
pub open spec fn checkers_wf(checking: Seq<MappedFDTS>) -> bool {
    forall|c: int| 0 <= c < checking.len() ==> (#[trigger] checking[c]).wf()
}

/// What the free interleaver gathers below a partial word `out`: the merges
/// of the remaining suffixes whose full words every checker accepts.
pub open spec fn free_targets(
    out: Seq<u8>,
    w1: Seq<u8>,
    w2: Seq<u8>,
    common: Seq<usize>,
    checking: Seq<MappedFDTS>,
) -> Set<Seq<u8>> {
    Set::new(
        |z: Seq<u8>| merges(w1, w2, common).contains(z) && passes_checkers(out + z, checking),
    )
}

/// The members of `s` whose completion below `out` every checker accepts.
pub open spec fn targets_of(out: Seq<u8>, s: Set<Seq<u8>>, checking: Seq<MappedFDTS>) -> Set<
    Seq<u8>,
> {
    Set::new(|z: Seq<u8>| s.contains(z) && passes_checkers(out + z, checking))
}

/// A word that every checker accepts has every prefix accepted too: the
/// checkers' prefix sets are prefix closures.
pub proof fn lemma_passes_take(w: Seq<u8>, l: int, checking: Seq<MappedFDTS>)
    requires
        0 <= l <= w.len(),
        checkers_wf(checking),
        passes_checkers(w, checking),
    ensures
        passes_checkers(w.take(l), checking),
{
    assert forall|c: int| 0 <= c < checking.len() implies (
    #[trigger] checking[c]).fdts.prefixes@.contains(collapse(w.take(l), checking[c].back@)) by {
        let ck = checking[c];
        lemma_collapse_prefix(w, l, ck.back@);
        let p = collapse(w, ck.back@);
        let q = collapse(w.take(l), ck.back@);
        assert(ck.fdts.prefixes@ == prefix_closure(ck.fdts.words()));
        assert(q == p.subrange(0, q.len() as int));
        assert(p.take(q.len() as int) == q);
        lemma_prefix_closure_closed(ck.fdts.words(), p, q.len() as int);
    }
}

/// Test the current partial word against every checker.
fn check_all(out: &Vec<u8>, checking: &[MappedFDTS]) -> (r: bool)
    requires
        checkers_wf(checking@),
    ensures
        r == passes_checkers(out@, checking@),
{
    let mut c: usize = 0;
    while c < checking.len()
        invariant
            0 <= c <= checking@.len(),
            checkers_wf(checking@),
            forall|t: int|
                0 <= t < c ==> (#[trigger] checking@[t]).fdts.prefixes@.contains(
                    collapse(out@, checking@[t].back@),
                ),
        decreases checking@.len() - c,
    {
        if !checking[c].subset_word_in_prefixes(out) {
            return false;
        }
        c += 1;
    }
    true
}

/// The ungated backtracking interleaver: gathers below `out` every
/// checker-accepted merge of the two remaining suffixes.
fn rec_interleave(
    out: &mut Word,
    w1: &Vec<u8>,
    i1: usize,
    w2: &Vec<u8>,
    i2: usize,
    checking: &[MappedFDTS],
    common: &[usize],
    res: &mut Vec<Word>,
)
    requires
        i1 <= w1@.len(),
        i2 <= w2@.len(),
        checkers_wf(checking@),
    ensures
        final(out)@ == old(out)@,
        final(res)@.len() >= old(res)@.len(),
        forall|t: int| 0 <= t < old(res)@.len() ==> final(res)@[t] == old(res)@[t],
        forall|t: int|
            old(res)@.len() <= t < final(res)@.len() ==> free_targets(
                old(out)@,
                w1@.skip(i1 as int),
                w2@.skip(i2 as int),
                common@,
                checking@,
            ).contains((#[trigger] final(res)@[t])@.skip(old(out)@.len() as int)) && final(res)@[t]@.take(old(out)@.len() as int) == old(out)@ && final(res)@[t]@.len() >= old(out)@.len(),
        forall|z: Seq<u8>|
            free_targets(
                old(out)@,
                w1@.skip(i1 as int),
                w2@.skip(i2 as int),
                common@,
                checking@,
            ).contains(z) ==> exists|t: int|
                old(res)@.len() <= t < final(res)@.len() && (#[trigger] final(res)@[t])@ == old(out)@ + z,
        forall|t1: int, t2: int|
            old(res)@.len() <= t1 < t2 < final(res)@.len() ==> (#[trigger] final(res)@[t1])@ != (
            #[trigger] final(res)@[t2])@,
    decreases (w1@.len() - i1) + (w2@.len() - i2), 0int,
{
    let ghost out0 = out@;
    let ghost res0 = res@;
    let ghost rw1 = w1@.skip(i1 as int);
    let ghost rw2 = w2@.skip(i2 as int);
    let ghost target = free_targets(out0, rw1, rw2, common@, checking@);
    if !check_all(out, checking) {
        proof {
            assert forall|z: Seq<u8>| !target.contains(z) by {
                if merges(rw1, rw2, common@).contains(z) && passes_checkers(
                    out0 + z,
                    checking@,
                ) {
                    lemma_passes_take(out0 + z, out0.len() as int, checking@);
                    assert((out0 + z).take(out0.len() as int) =~= out0);
                }
            }
        }
        return ;
    }
    if i1 == w1.len() && i2 == w2.len() {
        let z: Word = copy_word(out);
        res.push(z);
        proof {
            assert(rw1.len() == 0 && rw2.len() == 0);
            assert(out0 + Seq::<u8>::empty() =~= out0);
            assert(merges(rw1, rw2, common@) == set![Seq::<u8>::empty()]);
            assert(target.contains(Seq::<u8>::empty()));
            assert forall|z2: Seq<u8>| target.contains(z2) implies exists|t: int|
                res0.len() <= t < res@.len() && (#[trigger] res@[t])@ == out0 + z2 by {
                assert(merges(rw1, rw2, common@).contains(z2));
                assert(z2 =~= Seq::<u8>::empty());
                assert(res@[res0.len() as int]@ == out0 + z2);
            }
            assert forall|t: int| res0.len() <= t < res@.len() implies target.contains(
                (#[trigger] res@[t])@.skip(out0.len() as int),
            ) && res@[t]@.take(out0.len() as int) == out0 && res@[t]@.len() >= out0.len() by {
                assert(res@[t]@ == out0);
                assert(out0.skip(out0.len() as int) =~= Seq::<u8>::empty());
                assert(out0.take(out0.len() as int) =~= out0);
            }
        }
        return ;
    }
    if i1 == w1.len() || i2 == w2.len() {
        // one side is exhausted: the other side's tail is the only completion
        let ghost tail = if i1 == w1@.len() {
            rw2
        } else {
            rw1
        };
        let mut t: usize = if i1 == w1.len() {
            i2
        } else {
            i1
        };
        let tlen: usize = if i1 == w1.len() {
            w2.len() - i2
        } else {
            w1.len() - i1
        };
        if i1 == w1.len() {
            while t < w2.len()
                invariant
                    i2 <= t <= w2@.len(),
                    out@ == out0 + w2@.subrange(i2 as int, t as int),
                decreases w2@.len() - t,
            {
                out.push(w2[t]);
                proof {
                    assert(out0 + w2@.subrange(i2 as int, t + 1) =~= (out0 + w2@.subrange(
                        i2 as int,
                        t as int,
                    )).push(w2@[t as int]));
                }
                t += 1;
            }
        } else {
            while t < w1.len()
                invariant
                    i1 <= t <= w1@.len(),
                    out@ == out0 + w1@.subrange(i1 as int, t as int),
                decreases w1@.len() - t,
            {
                out.push(w1[t]);
                proof {
                    assert(out0 + w1@.subrange(i1 as int, t + 1) =~= (out0 + w1@.subrange(
                        i1 as int,
                        t as int,
                    )).push(w1@[t as int]));
                }
                t += 1;
            }
        }
        proof {
            assert(w2@.subrange(i2 as int, w2@.len() as int) =~= rw2);
            assert(w1@.subrange(i1 as int, w1@.len() as int) =~= rw1);
            assert(out@ == out0 + tail);
        }
        let passes: bool = check_all(out, checking);
        if passes {
            let z: Word = copy_word(out);
            res.push(z);
        }
        out.truncate(out.len() - tlen);
        proof {
            assert(out@ =~= out0);
            assert(merges(rw1, rw2, common@) == set![tail]);
            assert forall|z2: Seq<u8>| target.contains(z2) implies exists|t2: int|
                res0.len() <= t2 < res@.len() && (#[trigger] res@[t2])@ == out0 + z2 by {
                assert(merges(rw1, rw2, common@).contains(z2));
                assert(z2 == tail);
                assert(res@[res0.len() as int]@ == out0 + z2);
            }
            assert forall|t2: int| res0.len() <= t2 < res@.len() implies target.contains(
                (#[trigger] res@[t2])@.skip(out0.len() as int),
            ) && res@[t2]@.take(out0.len() as int) == out0 && res@[t2]@.len() >= out0.len() by {
                assert(res@[t2]@ == out0 + tail);
                assert((out0 + tail).skip(out0.len() as int) =~= tail);
                assert((out0 + tail).take(out0.len() as int) =~= out0);
                assert(merges(rw1, rw2, common@).contains(tail));
            }
        }
        return ;
    }
    let c1: u8 = w1[i1];
    let c2: u8 = w2[i2];
    proof {
        assert(rw1[0] == c1 && rw2[0] == c2);
        assert(rw1.skip(1) =~= w1@.skip(i1 + 1));
        assert(rw2.skip(1) =~= w2@.skip(i2 + 1));
    }
    if c1 == c2 {
        push_and_recurse(out, c1, w1, i1 + 1, w2, i2 + 1, checking, common, res);
        proof {
            lemma_targets_align(out0, c1, rw1.skip(1), rw2.skip(1), rw1, rw2, common@, checking@, res0, res@);
        }
        return ;
    }
    if crate::contains_slot(common, c1 as usize) {
        push_and_recurse(out, c2, w1, i1, w2, i2 + 1, checking, common, res);
        proof {
            lemma_targets_align(out0, c2, rw1, rw2.skip(1), rw1, rw2, common@, checking@, res0, res@);
        }
        return ;
    }
    if crate::contains_slot(common, c2 as usize) {
        push_and_recurse(out, c1, w1, i1 + 1, w2, i2, checking, common, res);
        proof {
            lemma_targets_align(out0, c1, rw1.skip(1), rw2, rw1, rw2, common@, checking@, res0, res@);
        }
        return ;
    }
    push_and_recurse(out, c1, w1, i1 + 1, w2, i2, checking, common, res);
    let ghost res1 = res@;
    push_and_recurse(out, c2, w1, i1, w2, i2 + 1, checking, common, res);
    proof {
        lemma_targets_align_union(out0, c1, c2, rw1, rw2, common@, checking@, res0, res1, res@);
    }
}

/// Append `c`, explore every completion, and take `c` back.
fn push_and_recurse(
    out: &mut Word,
    c: u8,
    w1: &Vec<u8>,
    i1: usize,
    w2: &Vec<u8>,
    i2: usize,
    checking: &[MappedFDTS],
    common: &[usize],
    res: &mut Vec<Word>,
)
    requires
        i1 <= w1@.len(),
        i2 <= w2@.len(),
        checkers_wf(checking@),
    ensures
        final(out)@ == old(out)@,
        final(res)@.len() >= old(res)@.len(),
        forall|t: int| 0 <= t < old(res)@.len() ==> final(res)@[t] == old(res)@[t],
        forall|t: int|
            old(res)@.len() <= t < final(res)@.len() ==> free_targets(
                old(out)@ + seq![c],
                w1@.skip(i1 as int),
                w2@.skip(i2 as int),
                common@,
                checking@,
            ).contains((#[trigger] final(res)@[t])@.skip(old(out)@.len() as int + 1)) && final(res)@[t]@.take(old(out)@.len() as int) == old(out)@ && final(res)@[t]@.len() > old(out)@.len() && final(res)@[t]@[old(out)@.len() as int] == c,
        forall|z: Seq<u8>|
            free_targets(
                old(out)@ + seq![c],
                w1@.skip(i1 as int),
                w2@.skip(i2 as int),
                common@,
                checking@,
            ).contains(z) ==> exists|t: int|
                old(res)@.len() <= t < final(res)@.len() && (#[trigger] final(res)@[t])@ == old(out)@ + seq![c] + z,
        forall|t1: int, t2: int|
            old(res)@.len() <= t1 < t2 < final(res)@.len() ==> (#[trigger] final(res)@[t1])@ != (
            #[trigger] final(res)@[t2])@,
    decreases (w1@.len() - i1) + (w2@.len() - i2), 1int,
{
    let ghost out0 = out@;
    out.push(c);
    proof {
        assert(out@ =~= out0 + seq![c]);
    }
    rec_interleave(out, w1, i1, w2, i2, checking, common, res);
    let ghost out1 = out@;
    let popped: Option<u8> = out.pop();
    proof {
        assert(out1 == out0.push(c));
        assert(out0.push(c) =~= out0 + seq![c]);
        assert(out0.push(c) == out0 + seq![c]);
        assert(out@ =~= out0);
        assert forall|t: int|
            old(res)@.len() <= t < res@.len() implies free_targets(
            out0 + seq![c],
            w1@.skip(i1 as int),
            w2@.skip(i2 as int),
            common@,
            checking@,
        ).contains((#[trigger] res@[t])@.skip(out0.len() as int + 1)) && res@[t]@.take(
            out0.len() as int,
        ) == out0 && res@[t]@.len() > out0.len() && res@[t]@[out0.len() as int] == c by {
            assert(res@[t]@.take((out0 + seq![c]).len() as int) == out0 + seq![c]);
            assert((out0 + seq![c]).len() == out0.len() + 1);
            assert(res@[t]@.skip((out0 + seq![c]).len() as int) == res@[t]@.skip(
                out0.len() as int + 1,
            ));
            assert(res@[t]@.len() >= out0.len() + 1);
            assert(res@[t]@.take(out0.len() as int) =~= out0) by {
                assert forall|q: int| 0 <= q < out0.len() implies res@[t]@[q] == out0[q] by {
                    assert(res@[t]@.take(out0.len() as int + 1)[q] == res@[t]@[q]);
                    assert((out0 + seq![c])[q] == out0[q]);
                }
            }
            assert(res@[t]@[out0.len() as int] == c) by {
                assert(res@[t]@.take(out0.len() as int + 1)[out0.len() as int]
                    == res@[t]@[out0.len() as int]);
                assert((out0 + seq![c])[out0.len() as int] == c);
            }
        }
        assert forall|z: Seq<u8>|
            free_targets(
                out0 + seq![c],
                w1@.skip(i1 as int),
                w2@.skip(i2 as int),
                common@,
                checking@,
            ).contains(z) implies exists|t: int|
            old(res)@.len() <= t < res@.len() && (#[trigger] res@[t])@ == out0 + seq![c] + z by {
            let t = choose|t: int|
                old(res)@.len() <= t < res@.len() && (#[trigger] res@[t])@ == (out0 + seq![c]) + z;
            assert(res@[t]@ == out0 + seq![c] + z);
        }
    }
}

/// The target under `out` whose completions are forced to start with `c`
/// corresponds one to one with the target below `out + c`.
proof fn lemma_targets_align(
    out0: Seq<u8>,
    c: u8,
    nw1: Seq<u8>,
    nw2: Seq<u8>,
    rw1: Seq<u8>,
    rw2: Seq<u8>,
    common: Seq<usize>,
    checking: Seq<MappedFDTS>,
    res0: Seq<Word>,
    res1: Seq<Word>,
)
    requires
        merges(rw1, rw2, common) == prepend(c, merges(nw1, nw2, common)),
        res1.len() >= res0.len(),
        forall|t: int| 0 <= t < res0.len() ==> res1[t] == res0[t],
        forall|t: int|
            res0.len() <= t < res1.len() ==> free_targets(
                out0 + seq![c],
                nw1,
                nw2,
                common,
                checking,
            ).contains((#[trigger] res1[t])@.skip(out0.len() as int + 1)) && res1[t]@.take(
                out0.len() as int,
            ) == out0 && res1[t]@.len() > out0.len() && res1[t]@[out0.len() as int] == c,
        forall|z: Seq<u8>|
            free_targets(out0 + seq![c], nw1, nw2, common, checking).contains(z) ==> exists|t: int|
                res0.len() <= t < res1.len() && (#[trigger] res1[t])@ == out0 + seq![c] + z,
    ensures
        forall|t: int|
            res0.len() <= t < res1.len() ==> free_targets(out0, rw1, rw2, common, checking).contains(
                (#[trigger] res1[t])@.skip(out0.len() as int),
            ) && res1[t]@.take(out0.len() as int) == out0 && res1[t]@.len() >= out0.len(),
        forall|z: Seq<u8>|
            free_targets(out0, rw1, rw2, common, checking).contains(z) ==> exists|t: int|
                res0.len() <= t < res1.len() && (#[trigger] res1[t])@ == out0 + z,
{
    assert forall|t: int| res0.len() <= t < res1.len() implies free_targets(
        out0,
        rw1,
        rw2,
        common,
        checking,
    ).contains((#[trigger] res1[t])@.skip(out0.len() as int)) && res1[t]@.take(out0.len() as int)
        == out0 && res1[t]@.len() >= out0.len() by {
        let zc = res1[t]@.skip(out0.len() as int);
        let z = res1[t]@.skip(out0.len() as int + 1);
        assert(zc.len() > 0);
        assert(zc[0] == res1[t]@[out0.len() as int]);
        assert(zc.skip(1) =~= z);
        assert(free_targets(out0 + seq![c], nw1, nw2, common, checking).contains(z));
        assert(merges(nw1, nw2, common).contains(z));
        assert(prepend(c, merges(nw1, nw2, common)).contains(zc));
        assert(passes_checkers((out0 + seq![c]) + z, checking));
        assert(out0 + zc =~= (out0 + seq![c]) + z);
        assert(passes_checkers(out0 + zc, checking));
    }
    assert forall|z: Seq<u8>| free_targets(out0, rw1, rw2, common, checking).contains(
        z,
    ) implies exists|t: int| res0.len() <= t < res1.len() && (#[trigger] res1[t])@ == out0 + z by {
        assert(merges(rw1, rw2, common).contains(z));
        assert(prepend(c, merges(nw1, nw2, common)).contains(z));
        let z2 = z.skip(1);
        assert(merges(nw1, nw2, common).contains(z2));
        assert(passes_checkers(out0 + z, checking));
        assert(out0 + z =~= (out0 + seq![c]) + z2);
        assert(passes_checkers((out0 + seq![c]) + z2, checking));
        assert(free_targets(out0 + seq![c], nw1, nw2, common, checking).contains(z2));
        let t = choose|t: int|
            res0.len() <= t < res1.len() && (#[trigger] res1[t])@ == out0 + seq![c] + z2;
        assert(res1[t]@ == out0 + seq![c] + z2);
        assert(out0 + seq![c] + z2 =~= out0 + z);
    }
}

/// As `lemma_targets_align`, where the target splits into two batches whose
/// completions start with two different letters.
#[verifier::rlimit(100)]
proof fn lemma_targets_align_union(
    out0: Seq<u8>,
    c1: u8,
    c2: u8,
    rw1: Seq<u8>,
    rw2: Seq<u8>,
    common: Seq<usize>,
    checking: Seq<MappedFDTS>,
    res0: Seq<Word>,
    res1: Seq<Word>,
    res2: Seq<Word>,
)
    requires
        c1 != c2,
        merges(rw1, rw2, common) == prepend(c1, merges(rw1.skip(1), rw2, common)).union(
            prepend(c2, merges(rw1, rw2.skip(1), common)),
        ),
        res1.len() >= res0.len(),
        res2.len() >= res1.len(),
        forall|t: int| 0 <= t < res0.len() ==> res1[t] == res0[t],
        forall|t: int| 0 <= t < res1.len() ==> res2[t] == res1[t],
        forall|t: int|
            res0.len() <= t < res1.len() ==> free_targets(
                out0 + seq![c1],
                rw1.skip(1),
                rw2,
                common,
                checking,
            ).contains((#[trigger] res1[t])@.skip(out0.len() as int + 1)) && res1[t]@.take(
                out0.len() as int,
            ) == out0 && res1[t]@.len() > out0.len() && res1[t]@[out0.len() as int] == c1,
        forall|z: Seq<u8>|
            free_targets(out0 + seq![c1], rw1.skip(1), rw2, common, checking).contains(z)
                ==> exists|t: int|
                res0.len() <= t < res1.len() && (#[trigger] res1[t])@ == out0 + seq![c1] + z,
        forall|t1: int, t2: int|
            res0.len() <= t1 < t2 < res1.len() ==> (#[trigger] res1[t1])@ != (
            #[trigger] res1[t2])@,
        forall|t: int|
            res1.len() <= t < res2.len() ==> free_targets(
                out0 + seq![c2],
                rw1,
                rw2.skip(1),
                common,
                checking,
            ).contains((#[trigger] res2[t])@.skip(out0.len() as int + 1)) && res2[t]@.take(
                out0.len() as int,
            ) == out0 && res2[t]@.len() > out0.len() && res2[t]@[out0.len() as int] == c2,
        forall|z: Seq<u8>|
            free_targets(out0 + seq![c2], rw1, rw2.skip(1), common, checking).contains(z)
                ==> exists|t: int|
                res1.len() <= t < res2.len() && (#[trigger] res2[t])@ == out0 + seq![c2] + z,
        forall|t1: int, t2: int|
            res1.len() <= t1 < t2 < res2.len() ==> (#[trigger] res2[t1])@ != (
            #[trigger] res2[t2])@,
    ensures
        forall|t: int|
            res0.len() <= t < res2.len() ==> free_targets(out0, rw1, rw2, common, checking).contains(
                (#[trigger] res2[t])@.skip(out0.len() as int),
            ) && res2[t]@.take(out0.len() as int) == out0 && res2[t]@.len() >= out0.len(),
        forall|z: Seq<u8>|
            free_targets(out0, rw1, rw2, common, checking).contains(z) ==> exists|t: int|
                res0.len() <= t < res2.len() && (#[trigger] res2[t])@ == out0 + z,
        forall|t1: int, t2: int|
            res0.len() <= t1 < t2 < res2.len() ==> (#[trigger] res2[t1])@ != (
            #[trigger] res2[t2])@,
{
    assert forall|t: int| res0.len() <= t < res2.len() implies free_targets(
        out0,
        rw1,
        rw2,
        common,
        checking,
    ).contains((#[trigger] res2[t])@.skip(out0.len() as int)) && res2[t]@.take(out0.len() as int)
        == out0 && res2[t]@.len() >= out0.len() by {
        let zc = res2[t]@.skip(out0.len() as int);
        let z = res2[t]@.skip(out0.len() as int + 1);
        assert(zc.skip(1) =~= z);
        if t < res1.len() {
            assert(res2[t]@ == res1[t]@);
            assert(free_targets(out0 + seq![c1], rw1.skip(1), rw2, common, checking).contains(z));
            assert(prepend(c1, merges(rw1.skip(1), rw2, common)).contains(zc));
            assert(merges(rw1, rw2, common).contains(zc));
            assert(out0 + zc =~= (out0 + seq![c1]) + z);
            assert(passes_checkers(out0 + zc, checking));
        } else {
            assert(free_targets(out0 + seq![c2], rw1, rw2.skip(1), common, checking).contains(z));
            assert(prepend(c2, merges(rw1, rw2.skip(1), common)).contains(zc));
            assert(merges(rw1, rw2, common).contains(zc));
            assert(out0 + zc =~= (out0 + seq![c2]) + z);
            assert(passes_checkers(out0 + zc, checking));
        }
    }
    assert forall|z: Seq<u8>| free_targets(out0, rw1, rw2, common, checking).contains(
        z,
    ) implies exists|t: int| res0.len() <= t < res2.len() && (#[trigger] res2[t])@ == out0 + z by {
        assert(merges(rw1, rw2, common).contains(z));
        let z2 = z.skip(1);
        if prepend(c1, merges(rw1.skip(1), rw2, common)).contains(z) {
            assert(out0 + z =~= (out0 + seq![c1]) + z2);
            assert(passes_checkers((out0 + seq![c1]) + z2, checking));
            assert(free_targets(out0 + seq![c1], rw1.skip(1), rw2, common, checking).contains(z2));
            let t = choose|t: int|
                res0.len() <= t < res1.len() && (#[trigger] res1[t])@ == out0 + seq![c1] + z2;
            assert(res2[t]@ == res1[t]@);
            assert(res2[t]@ == out0 + seq![c1] + z2);
            assert(out0 + seq![c1] + z2 =~= out0 + z);
        } else {
            assert(prepend(c2, merges(rw1, rw2.skip(1), common)).contains(z));
            assert(out0 + z =~= (out0 + seq![c2]) + z2);
            assert(passes_checkers((out0 + seq![c2]) + z2, checking));
            assert(free_targets(out0 + seq![c2], rw1, rw2.skip(1), common, checking).contains(z2));
            let t = choose|t: int|
                res1.len() <= t < res2.len() && (#[trigger] res2[t])@ == out0 + seq![c2] + z2;
            assert(res2[t]@ == out0 + seq![c2] + z2);
            assert(out0 + seq![c2] + z2 =~= out0 + z);
        }
    }
    assert forall|t1: int, t2: int| res0.len() <= t1 < t2 < res2.len() implies (
    #[trigger] res2[t1])@ != (#[trigger] res2[t2])@ by {
        if t1 < res1.len() && t2 >= res1.len() {
            assert(res2[t1]@ == res1[t1]@);
            assert(res2[t1]@[out0.len() as int] == c1);
            assert(res2[t2]@[out0.len() as int] == c2);
        }
    }
}


/// Results gathered below `out + c` stand for results below `out` whose
/// completions are the `c`-prepended members of the inner set.
proof fn lemma_lift_prepend(
    out0: Seq<u8>,
    c: u8,
    sinner: Set<Seq<u8>>,
    checking: Seq<MappedFDTS>,
    res0: Seq<Word>,
    res1: Seq<Word>,
)
    requires
        res1.len() >= res0.len(),
        forall|t: int| 0 <= t < res0.len() ==> res1[t] == res0[t],
        forall|t: int|
            res0.len() <= t < res1.len() ==> targets_of(out0 + seq![c], sinner, checking).contains(
                (#[trigger] res1[t])@.skip(out0.len() as int + 1),
            ) && res1[t]@.take(out0.len() as int + 1) == out0 + seq![c] && res1[t]@.len()
                >= out0.len() + 1,
        forall|z: Seq<u8>|
            targets_of(out0 + seq![c], sinner, checking).contains(z) ==> exists|t: int|
                res0.len() <= t < res1.len() && (#[trigger] res1[t])@ == (out0 + seq![c]) + z,
    ensures
        forall|t: int|
            res0.len() <= t < res1.len() ==> targets_of(
                out0,
                prepend(c, sinner),
                checking,
            ).contains((#[trigger] res1[t])@.skip(out0.len() as int)) && res1[t]@.take(
                out0.len() as int,
            ) == out0 && res1[t]@.len() > out0.len() && res1[t]@[out0.len() as int] == c,
        forall|z: Seq<u8>|
            targets_of(out0, prepend(c, sinner), checking).contains(z) ==> exists|t: int|
                res0.len() <= t < res1.len() && (#[trigger] res1[t])@ == out0 + z,
{
    assert forall|t: int| res0.len() <= t < res1.len() implies targets_of(
        out0,
        prepend(c, sinner),
        checking,
    ).contains((#[trigger] res1[t])@.skip(out0.len() as int)) && res1[t]@.take(out0.len() as int)
        == out0 && res1[t]@.len() > out0.len() && res1[t]@[out0.len() as int] == c by {
        let zc = res1[t]@.skip(out0.len() as int);
        let z = res1[t]@.skip(out0.len() as int + 1);
        assert(zc.len() > 0);
        assert(zc[0] == res1[t]@[out0.len() as int]);
        assert(res1[t]@.len() >= out0.len() + 1);
        assert(res1[t]@.take(out0.len() as int + 1) == out0 + seq![c]);
        lemma_take_one_more(res1[t]@, out0, c);
        assert(zc.skip(1) =~= z);
        assert(sinner.contains(z));
        assert(prepend(c, sinner).contains(zc));
        assert(passes_checkers((out0 + seq![c]) + z, checking));
        assert(out0 + zc =~= (out0 + seq![c]) + z);
        assert(passes_checkers(out0 + zc, checking));
    }
    assert forall|z: Seq<u8>| targets_of(out0, prepend(c, sinner), checking).contains(
        z,
    ) implies exists|t: int| res0.len() <= t < res1.len() && (#[trigger] res1[t])@ == out0 + z by {
        assert(prepend(c, sinner).contains(z));
        let z2 = z.skip(1);
        assert(sinner.contains(z2));
        assert(out0 + z =~= (out0 + seq![c]) + z2);
        assert(passes_checkers((out0 + seq![c]) + z2, checking));
        assert(targets_of(out0 + seq![c], sinner, checking).contains(z2));
        let t = choose|t: int|
            res0.len() <= t < res1.len() && (#[trigger] res1[t])@ == (out0 + seq![c]) + z2;
        assert(res1[t]@ == out0 + z);
    }
}

/// Two result batches whose completions start with two different letters
/// together stand for the union target.
#[verifier::rlimit(100)]
proof fn lemma_union_lift(
    out0: Seq<u8>,
    c1: u8,
    c2: u8,
    s1: Set<Seq<u8>>,
    s2: Set<Seq<u8>>,
    checking: Seq<MappedFDTS>,
    res0: Seq<Word>,
    res1: Seq<Word>,
    res2: Seq<Word>,
)
    requires
        c1 != c2,
        forall|z: Seq<u8>| #[trigger] s1.contains(z) ==> z.len() > 0 && z[0] == c1,
        forall|z: Seq<u8>| #[trigger] s2.contains(z) ==> z.len() > 0 && z[0] == c2,
        res1.len() >= res0.len(),
        res2.len() >= res1.len(),
        forall|t: int| 0 <= t < res0.len() ==> res1[t] == res0[t],
        forall|t: int| 0 <= t < res1.len() ==> res2[t] == res1[t],
        forall|t: int|
            res0.len() <= t < res1.len() ==> targets_of(out0, s1, checking).contains(
                (#[trigger] res1[t])@.skip(out0.len() as int),
            ) && res1[t]@.take(out0.len() as int) == out0 && res1[t]@.len() > out0.len()
                && res1[t]@[out0.len() as int] == c1,
        forall|z: Seq<u8>|
            targets_of(out0, s1, checking).contains(z) ==> exists|t: int|
                res0.len() <= t < res1.len() && (#[trigger] res1[t])@ == out0 + z,
        forall|t1: int, t2: int|
            res0.len() <= t1 < t2 < res1.len() ==> (#[trigger] res1[t1])@ != (
            #[trigger] res1[t2])@,
        forall|t: int|
            res1.len() <= t < res2.len() ==> targets_of(out0, s2, checking).contains(
                (#[trigger] res2[t])@.skip(out0.len() as int),
            ) && res2[t]@.take(out0.len() as int) == out0 && res2[t]@.len() > out0.len()
                && res2[t]@[out0.len() as int] == c2,
        forall|z: Seq<u8>|
            targets_of(out0, s2, checking).contains(z) ==> exists|t: int|
                res1.len() <= t < res2.len() && (#[trigger] res2[t])@ == out0 + z,
        forall|t1: int, t2: int|
            res1.len() <= t1 < t2 < res2.len() ==> (#[trigger] res2[t1])@ != (
            #[trigger] res2[t2])@,
    ensures
        forall|t: int|
            res0.len() <= t < res2.len() ==> targets_of(out0, s1.union(s2), checking).contains(
                (#[trigger] res2[t])@.skip(out0.len() as int),
            ) && res2[t]@.take(out0.len() as int) == out0 && res2[t]@.len() >= out0.len(),
        forall|z: Seq<u8>|
            targets_of(out0, s1.union(s2), checking).contains(z) ==> exists|t: int|
                res0.len() <= t < res2.len() && (#[trigger] res2[t])@ == out0 + z,
        forall|t1: int, t2: int|
            res0.len() <= t1 < t2 < res2.len() ==> (#[trigger] res2[t1])@ != (
            #[trigger] res2[t2])@,
{
    assert forall|t: int| res0.len() <= t < res2.len() implies targets_of(
        out0,
        s1.union(s2),
        checking,
    ).contains((#[trigger] res2[t])@.skip(out0.len() as int)) && res2[t]@.take(out0.len() as int)
        == out0 && res2[t]@.len() >= out0.len() by {
        if t < res1.len() {
            assert(res2[t]@ == res1[t]@);
            assert(targets_of(out0, s1, checking).contains(res1[t]@.skip(out0.len() as int)));
        } else {
            assert(targets_of(out0, s2, checking).contains(res2[t]@.skip(out0.len() as int)));
        }
    }
    assert forall|z: Seq<u8>| targets_of(out0, s1.union(s2), checking).contains(z) implies exists|
        t: int,
    | res0.len() <= t < res2.len() && (#[trigger] res2[t])@ == out0 + z by {
        if s1.contains(z) {
            assert(targets_of(out0, s1, checking).contains(z));
            let t = choose|t: int|
                res0.len() <= t < res1.len() && (#[trigger] res1[t])@ == out0 + z;
            assert(res2[t]@ == res1[t]@);
        } else {
            assert(s2.contains(z));
            assert(targets_of(out0, s2, checking).contains(z));
            let t = choose|t: int|
                res1.len() <= t < res2.len() && (#[trigger] res2[t])@ == out0 + z;
        }
    }
    assert forall|t1: int, t2: int| res0.len() <= t1 < t2 < res2.len() implies (
    #[trigger] res2[t1])@ != (#[trigger] res2[t2])@ by {
        if t1 < res1.len() && t2 >= res1.len() {
            assert(res2[t1]@ == res1[t1]@);
            assert(res2[t1]@[out0.len() as int] == c1);
            assert(res2[t2]@[out0.len() as int] == c2);
        }
    }
}

/// An element-for-element copy of a gate table.
fn copy_bools(p: &Vec<bool>) -> (r: Vec<bool>)
    ensures
        r@ == p@,
{
    let mut r: Vec<bool> = Vec::new();
    let mut i: usize = 0;
    while i < p.len()
        invariant
            0 <= i <= p@.len(),
            r@ == p@.take(i as int),
        decreases p@.len() - i,
    {
        r.push(p[i]);
        proof {
            assert(p@.take(i + 1) =~= p@.take(i as int).push(p@[i as int]));
        }
        i += 1;
    }
    proof {
        assert(p@.take(p@.len() as int) =~= p@);
    }
    r
}


proof fn lemma_take_one_more(s: Seq<u8>, o: Seq<u8>, c: u8)
    requires
        s.len() >= o.len() + 1,
        s.take(o.len() as int + 1) == o + seq![c],
    ensures
        s.take(o.len() as int) == o,
        s[o.len() as int] == c,
{
    assert forall|q: int| 0 <= q < o.len() implies s[q] == o[q] by {
        assert(s.take(o.len() as int + 1)[q] == s[q]);
        assert((o + seq![c])[q] == o[q]);
    }
    assert(s.take(o.len() as int) =~= o);
    assert(s.take(o.len() as int + 1)[o.len() as int] == s[o.len() as int]);
    assert((o + seq![c])[o.len() as int] == c);
}


/// Letters small enough to have a gate of their own.
pub open spec fn letters_in_range(w: Seq<u8>, n: int) -> bool {
    forall|p: int| 0 <= p < w.len() ==> (#[trigger] w[p] as int) < n
}

/// The gated backtracking interleaver: gathers below `out` every
/// checker-accepted gated merge of the two remaining suffixes.
fn rec_interleave_lex(
    out: &mut Word,
    w1: &Vec<u8>,
    i1: usize,
    w2: &Vec<u8>,
    i2: usize,
    checking: &[MappedFDTS],
    common: &[usize],
    res: &mut Vec<Word>,
    cg: &Vec<bool>,
    icg: &Vec<usize>,
)
    requires
        i1 <= w1@.len(),
        i2 <= w2@.len(),
        checkers_wf(checking@),
        letters_in_range(w1@, cg@.len() as int),
        letters_in_range(w2@, cg@.len() as int),
        icg@.len() == cg@.len(),
        forall|t: int| 0 <= t < icg@.len() ==> #[trigger] icg@[t] < cg@.len(),
    ensures
        final(out)@ == old(out)@,
        final(res)@.len() >= old(res)@.len(),
        forall|t: int| 0 <= t < old(res)@.len() ==> final(res)@[t] == old(res)@[t],
        forall|t: int|
            old(res)@.len() <= t < final(res)@.len() ==> targets_of(
                old(out)@,
                merges_lex(w1@.skip(i1 as int), w2@.skip(i2 as int), common@, cg@, icg@),
                checking@,
            ).contains((#[trigger] final(res)@[t])@.skip(old(out)@.len() as int)) && final(res)@[t]@.take(old(out)@.len() as int) == old(out)@ && final(res)@[t]@.len() >= old(out)@.len(),
        forall|z: Seq<u8>|
            targets_of(
                old(out)@,
                merges_lex(w1@.skip(i1 as int), w2@.skip(i2 as int), common@, cg@, icg@),
                checking@,
            ).contains(z) ==> exists|t: int|
                old(res)@.len() <= t < final(res)@.len() && (#[trigger] final(res)@[t])@ == old(out)@ + z,
        forall|t1: int, t2: int|
            old(res)@.len() <= t1 < t2 < final(res)@.len() ==> (#[trigger] final(res)@[t1])@ != (
            #[trigger] final(res)@[t2])@,
    decreases (w1@.len() - i1) + (w2@.len() - i2), 2int,
{
    let ghost out0 = out@;
    let ghost res0 = res@;
    let ghost rw1 = w1@.skip(i1 as int);
    let ghost rw2 = w2@.skip(i2 as int);
    let ghost mset = merges_lex(rw1, rw2, common@, cg@, icg@);
    let ghost target = targets_of(out0, mset, checking@);
    if !check_all(out, checking) {
        proof {
            assert forall|z: Seq<u8>| !target.contains(z) by {
                if mset.contains(z) && passes_checkers(out0 + z, checking@) {
                    lemma_passes_take(out0 + z, out0.len() as int, checking@);
                    assert((out0 + z).take(out0.len() as int) =~= out0);
                }
            }
        }
        return ;
    }
    if i1 == w1.len() && i2 == w2.len() {
        let z: Word = copy_word(out);
        res.push(z);
        proof {
            assert(rw1.len() == 0 && rw2.len() == 0);
            assert(out0 + Seq::<u8>::empty() =~= out0);
            assert(mset == set![Seq::<u8>::empty()]);
            assert(target.contains(Seq::<u8>::empty()));
            assert forall|z2: Seq<u8>| target.contains(z2) implies exists|t: int|
                res0.len() <= t < res@.len() && (#[trigger] res@[t])@ == out0 + z2 by {
                assert(mset.contains(z2));
                assert(z2 =~= Seq::<u8>::empty());
                assert(res@[res0.len() as int]@ == out0 + z2);
            }
            assert forall|t: int| res0.len() <= t < res@.len() implies target.contains(
                (#[trigger] res@[t])@.skip(out0.len() as int),
            ) && res@[t]@.take(out0.len() as int) == out0 && res@[t]@.len() >= out0.len() by {
                assert(res@[t]@ == out0);
                assert(out0.skip(out0.len() as int) =~= Seq::<u8>::empty());
                assert(out0.take(out0.len() as int) =~= out0);
            }
        }
        return ;
    }
    if i1 == w1.len() || i2 == w2.len() {
        let ghost tail = if i1 == w1@.len() {
            rw2
        } else {
            rw1
        };
        let mut t: usize = if i1 == w1.len() {
            i2
        } else {
            i1
        };
        let tlen: usize = if i1 == w1.len() {
            w2.len() - i2
        } else {
            w1.len() - i1
        };
        if i1 == w1.len() {
            while t < w2.len()
                invariant
                    i2 <= t <= w2@.len(),
                    out@ == out0 + w2@.subrange(i2 as int, t as int),
                decreases w2@.len() - t,
            {
                out.push(w2[t]);
                proof {
                    assert(out0 + w2@.subrange(i2 as int, t + 1) =~= (out0 + w2@.subrange(
                        i2 as int,
                        t as int,
                    )).push(w2@[t as int]));
                }
                t += 1;
            }
        } else {
            while t < w1.len()
                invariant
                    i1 <= t <= w1@.len(),
                    out@ == out0 + w1@.subrange(i1 as int, t as int),
                decreases w1@.len() - t,
            {
                out.push(w1[t]);
                proof {
                    assert(out0 + w1@.subrange(i1 as int, t + 1) =~= (out0 + w1@.subrange(
                        i1 as int,
                        t as int,
                    )).push(w1@[t as int]));
                }
                t += 1;
            }
        }
        proof {
            assert(w2@.subrange(i2 as int, w2@.len() as int) =~= rw2);
            assert(w1@.subrange(i1 as int, w1@.len() as int) =~= rw1);
            assert(out@ == out0 + tail);
        }
        let passes: bool = check_all(out, checking);
        if passes {
            let z: Word = copy_word(out);
            res.push(z);
        }
        out.truncate(out.len() - tlen);
        proof {
            assert(out@ =~= out0);
            assert(mset == set![tail]);
            assert forall|z2: Seq<u8>| target.contains(z2) implies exists|t2: int|
                res0.len() <= t2 < res@.len() && (#[trigger] res@[t2])@ == out0 + z2 by {
                assert(mset.contains(z2));
                assert(z2 == tail);
                assert(res@[res0.len() as int]@ == out0 + z2);
            }
            assert forall|t2: int| res0.len() <= t2 < res@.len() implies target.contains(
                (#[trigger] res@[t2])@.skip(out0.len() as int),
            ) && res@[t2]@.take(out0.len() as int) == out0 && res@[t2]@.len() >= out0.len() by {
                assert(res@[t2]@ == out0 + tail);
                assert((out0 + tail).skip(out0.len() as int) =~= tail);
                assert((out0 + tail).take(out0.len() as int) =~= out0);
                assert(mset.contains(tail));
            }
        }
        return ;
    }
    let mut allg: bool = true;
    let mut gq: usize = 0;
    while gq < cg.len()
        invariant
            0 <= gq <= cg@.len(),
            allg == (forall|q: int| 0 <= q < gq ==> #[trigger] cg@[q]),
        decreases cg@.len() - gq,
    {
        if !cg[gq] {
            allg = false;
        }
        gq += 1;
    }
    if allg {
        proof {
            assert(mset == merges(rw1, rw2, common@));
        }
        rec_interleave(out, w1, i1, w2, i2, checking, common, res);
        proof {
            assert(free_targets(out0, rw1, rw2, common@, checking@) =~= target);
        }
        return ;
    }
    let c1: u8 = w1[i1];
    let c2: u8 = w2[i2];
    proof {
        assert(rw1[0] == c1 && rw2[0] == c2);
        assert(rw1.skip(1) =~= w1@.skip(i1 as int + 1));
        assert(rw2.skip(1) =~= w2@.skip(i2 as int + 1));
        assert(!(forall|q: int| 0 <= q < cg@.len() ==> #[trigger] cg@[q]));
    }
    if c1 == c2 {
        push_rec_lex(out, c1, w1, i1 + 1, w2, i2 + 1, checking, common, res, cg, icg);
        proof {
            assert(mset == push_lex(c1, rw1.skip(1), rw2.skip(1), common@, cg@, icg@));
            assert(target =~= targets_of(
                out0,
                push_lex(c1, rw1.skip(1), rw2.skip(1), common@, cg@, icg@),
                checking@,
            ));
        }
        return ;
    }
    if crate::contains_slot(common, c1 as usize) {
        push_rec_lex(out, c2, w1, i1, w2, i2 + 1, checking, common, res, cg, icg);
        proof {
            assert(mset == push_lex(c2, rw1, rw2.skip(1), common@, cg@, icg@));
            assert(target =~= targets_of(
                out0,
                push_lex(c2, rw1, rw2.skip(1), common@, cg@, icg@),
                checking@,
            ));
        }
        return ;
    }
    if crate::contains_slot(common, c2 as usize) {
        push_rec_lex(out, c1, w1, i1 + 1, w2, i2, checking, common, res, cg, icg);
        proof {
            assert(mset == push_lex(c1, rw1.skip(1), rw2, common@, cg@, icg@));
            assert(target =~= targets_of(
                out0,
                push_lex(c1, rw1.skip(1), rw2, common@, cg@, icg@),
                checking@,
            ));
        }
        return ;
    }
    push_rec_lex(out, c1, w1, i1 + 1, w2, i2, checking, common, res, cg, icg);
    let ghost res1 = res@;
    push_rec_lex(out, c2, w1, i1, w2, i2 + 1, checking, common, res, cg, icg);
    proof {
        let s1 = push_lex(c1, rw1.skip(1), rw2, common@, cg@, icg@);
        let s2 = push_lex(c2, rw1, rw2.skip(1), common@, cg@, icg@);
        assert(mset == s1.union(s2));
        assert forall|z: Seq<u8>| #[trigger] s1.contains(z) implies z.len() > 0 && z[0] == c1 by {}
        assert forall|z: Seq<u8>| #[trigger] s2.contains(z) implies z.len() > 0 && z[0] == c2 by {}
        lemma_union_lift(out0, c1, c2, s1, s2, checking@, res0, res1, res@);
        assert(target =~= targets_of(out0, s1.union(s2), checking@));
    }
}

/// Append `c` if its gate is open, opening its successor's gate, explore
/// every completion, and take `c` back.
fn push_rec_lex(
    out: &mut Word,
    c: u8,
    w1: &Vec<u8>,
    i1: usize,
    w2: &Vec<u8>,
    i2: usize,
    checking: &[MappedFDTS],
    common: &[usize],
    res: &mut Vec<Word>,
    cg: &Vec<bool>,
    icg: &Vec<usize>,
)
    requires
        i1 <= w1@.len(),
        i2 <= w2@.len(),
        checkers_wf(checking@),
        letters_in_range(w1@, cg@.len() as int),
        letters_in_range(w2@, cg@.len() as int),
        (c as int) < cg@.len(),
        icg@.len() == cg@.len(),
        forall|t: int| 0 <= t < icg@.len() ==> #[trigger] icg@[t] < cg@.len(),
    ensures
        final(out)@ == old(out)@,
        final(res)@.len() >= old(res)@.len(),
        forall|t: int| 0 <= t < old(res)@.len() ==> final(res)@[t] == old(res)@[t],
        forall|t: int|
            old(res)@.len() <= t < final(res)@.len() ==> targets_of(
                old(out)@,
                push_lex(c, w1@.skip(i1 as int), w2@.skip(i2 as int), common@, cg@, icg@),
                checking@,
            ).contains((#[trigger] final(res)@[t])@.skip(old(out)@.len() as int)) && final(res)@[t]@.take(old(out)@.len() as int) == old(out)@ && final(res)@[t]@.len() > old(out)@.len() && final(res)@[t]@[old(out)@.len() as int] == c,
        forall|z: Seq<u8>|
            targets_of(
                old(out)@,
                push_lex(c, w1@.skip(i1 as int), w2@.skip(i2 as int), common@, cg@, icg@),
                checking@,
            ).contains(z) ==> exists|t: int|
                old(res)@.len() <= t < final(res)@.len() && (#[trigger] final(res)@[t])@ == old(out)@ + z,
        forall|t1: int, t2: int|
            old(res)@.len() <= t1 < t2 < final(res)@.len() ==> (#[trigger] final(res)@[t1])@ != (
            #[trigger] final(res)@[t2])@,
    decreases (w1@.len() - i1) + (w2@.len() - i2), 3int,
{
    let ghost out0 = out@;
    let ghost res0 = res@;
    let ghost pset = push_lex(c, w1@.skip(i1 as int), w2@.skip(i2 as int), common@, cg@, icg@);
    if !cg[c as usize] {
        proof {
            assert(pset =~= Set::<Seq<u8>>::empty());
            assert forall|z: Seq<u8>| !targets_of(out0, pset, checking@).contains(z) by {}
        }
        return ;
    }
    out.push(c);
    proof {
        assert(out@ =~= out0 + seq![c]);
        assert(out0.push(c) == out0 + seq![c]);
    }
    let im: usize = icg[c as usize];
    if !cg[im] {
        let mut cg2: Vec<bool> = copy_bools(cg);
        cg2[im] = true;
        proof {
            assert(cg2@ =~= upgrade(cg@, icg@, c));
            assert(cg2@ == upgrade(cg@, icg@, c));
        }
        rec_interleave_lex(out, w1, i1, w2, i2, checking, common, res, &cg2, icg);
    } else {
        proof {
            assert(cg@ =~= upgrade(cg@, icg@, c));
            assert(cg@ == upgrade(cg@, icg@, c));
        }
        rec_interleave_lex(out, w1, i1, w2, i2, checking, common, res, cg, icg);
    }
    let popped: Option<u8> = out.pop();
    proof {
        assert(out@ =~= out0);
        let sinner = merges_lex(
            w1@.skip(i1 as int),
            w2@.skip(i2 as int),
            common@,
            upgrade(cg@, icg@, c),
            icg@,
        );
        assert(pset == prepend(c, sinner));
        assert forall|t: int|
            res0.len() <= t < res@.len() implies targets_of(
            out0 + seq![c],
            sinner,
            checking@,
        ).contains((#[trigger] res@[t])@.skip(out0.len() as int + 1)) && res@[t]@.take(
            out0.len() as int + 1,
        ) == out0 + seq![c] && res@[t]@.len() >= out0.len() + 1 by {
            assert(targets_of(out0 + seq![c], sinner, checking@) =~= targets_of(
                out0.push(c),
                sinner,
                checking@,
            ));
        }
        lemma_lift_prepend(out0, c, sinner, checking@, res0, res@);
    }
}


/// Every letter of a merge is a letter of one of its inputs.
pub proof fn lemma_merge_letters(z: Seq<u8>, w1: Seq<u8>, w2: Seq<u8>, common: Seq<usize>)
    requires
        merges(w1, w2, common).contains(z),
    ensures
        forall|p: int| 0 <= p < z.len() ==> w1.contains(#[trigger] z[p]) || w2.contains(z[p]),
    decreases w1.len() + w2.len(),
{
    if w1.len() == 0 && w2.len() == 0 {
        assert(z =~= Seq::<u8>::empty());
    } else if w1.len() == 0 {
        assert(z == w2);
    } else if w2.len() == 0 {
        assert(z == w1);
    } else {
        let z2 = z.skip(1);
        if w1[0] == w2[0] {
            lemma_merge_letters(z2, w1.skip(1), w2.skip(1), common);
            lemma_merge_letters_lift(z, z2, w1, w2, w1.skip(1), w2.skip(1));
        } else if common.contains(w1[0] as usize) {
            lemma_merge_letters(z2, w1, w2.skip(1), common);
            lemma_merge_letters_lift(z, z2, w1, w2, w1, w2.skip(1));
        } else if common.contains(w2[0] as usize) {
            lemma_merge_letters(z2, w1.skip(1), w2, common);
            lemma_merge_letters_lift(z, z2, w1, w2, w1.skip(1), w2);
        } else {
            if prepend(w1[0], merges(w1.skip(1), w2, common)).contains(z) {
                lemma_merge_letters(z2, w1.skip(1), w2, common);
                lemma_merge_letters_lift(z, z2, w1, w2, w1.skip(1), w2);
            } else {
                lemma_merge_letters(z2, w1, w2.skip(1), common);
                lemma_merge_letters_lift(z, z2, w1, w2, w1, w2.skip(1));
            }
        }
    }
}

/// The first letter of a nonempty merge branch is a head letter; the rest
/// come from suffixes, whose letters are letters of the full words.
proof fn lemma_merge_letters_lift(
    z: Seq<u8>,
    z2: Seq<u8>,
    w1: Seq<u8>,
    w2: Seq<u8>,
    n1: Seq<u8>,
    n2: Seq<u8>,
)
    requires
        z.len() > 0,
        z2 == z.skip(1),
        w1.len() > 0 || w2.len() > 0,
        (w1.len() > 0 && z[0] == w1[0]) || (w2.len() > 0 && z[0] == w2[0]),
        n1 == w1 || (w1.len() > 0 && n1 == w1.skip(1)),
        n2 == w2 || (w2.len() > 0 && n2 == w2.skip(1)),
        forall|p: int| 0 <= p < z2.len() ==> n1.contains(#[trigger] z2[p]) || n2.contains(z2[p]),
    ensures
        forall|p: int| 0 <= p < z.len() ==> w1.contains(#[trigger] z[p]) || w2.contains(z[p]),
{
    assert forall|p: int| 0 <= p < z.len() implies w1.contains(#[trigger] z[p]) || w2.contains(
        z[p],
    ) by {
        if p == 0 {
            if w1.len() > 0 && z[0] == w1[0] {
                assert(w1.contains(z[0]));
            } else {
                assert(w2.contains(z[0]));
            }
        } else {
            assert(z2[p - 1] == z[p]);
            if n1.contains(z2[p - 1]) {
                let q = choose|q: int| 0 <= q < n1.len() && n1[q] == z2[p - 1];
                if n1 == w1 {
                    assert(w1.contains(z[p]));
                } else {
                    assert(w1.skip(1)[q] == w1[q + 1]);
                    assert(w1.contains(z[p]));
                }
            } else {
                let q = choose|q: int| 0 <= q < n2.len() && n2[q] == z2[p - 1];
                if n2 == w2 {
                    assert(w2.contains(z[p]));
                } else {
                    assert(w2.skip(1)[q] == w2[q + 1]);
                    assert(w2.contains(z[p]));
                }
            }
        }
    }
}

/// Every gated interleaving is an interleaving.
pub proof fn lemma_merges_lex_subset(
    w1: Seq<u8>,
    w2: Seq<u8>,
    common: Seq<usize>,
    cg: Seq<bool>,
    icg: Seq<usize>,
)
    ensures
        forall|z: Seq<u8>| #[trigger]
            merges_lex(w1, w2, common, cg, icg).contains(z) ==> merges(w1, w2, common).contains(z),
    decreases w1.len() + w2.len(),
{
    if w1.len() == 0 || w2.len() == 0 {
    } else if forall|t: int| 0 <= t < cg.len() ==> #[trigger] cg[t] {
    } else {
        lemma_merges_lex_subset(w1.skip(1), w2.skip(1), common, upgrade(cg, icg, w1[0]), icg);
        lemma_merges_lex_subset(w1, w2.skip(1), common, upgrade(cg, icg, w2[0]), icg);
        lemma_merges_lex_subset(w1.skip(1), w2, common, upgrade(cg, icg, w1[0]), icg);
        lemma_merges_lex_subset(w1.skip(1), w2, common, upgrade(cg, icg, w2[0]), icg);
        lemma_merges_lex_subset(w1, w2.skip(1), common, upgrade(cg, icg, w1[0]), icg);
        assert forall|z: Seq<u8>| #[trigger]
            merges_lex(w1, w2, common, cg, icg).contains(z) implies merges(
            w1,
            w2,
            common,
        ).contains(z) by {
            let z2 = z.skip(1);
            if w1[0] == w2[0] {
                assert(push_lex(w1[0], w1.skip(1), w2.skip(1), common, cg, icg).contains(z));
                assert(merges_lex(
                    w1.skip(1),
                    w2.skip(1),
                    common,
                    upgrade(cg, icg, w1[0]),
                    icg,
                ).contains(z2));
                assert(merges(w1.skip(1), w2.skip(1), common).contains(z2));
                assert(prepend(w1[0], merges(w1.skip(1), w2.skip(1), common)).contains(z));
            } else if common.contains(w1[0] as usize) {
                assert(push_lex(w2[0], w1, w2.skip(1), common, cg, icg).contains(z));
                assert(merges_lex(w1, w2.skip(1), common, upgrade(cg, icg, w2[0]), icg).contains(
                    z2,
                ));
                assert(merges(w1, w2.skip(1), common).contains(z2));
                assert(prepend(w2[0], merges(w1, w2.skip(1), common)).contains(z));
            } else if common.contains(w2[0] as usize) {
                assert(push_lex(w1[0], w1.skip(1), w2, common, cg, icg).contains(z));
                assert(merges_lex(w1.skip(1), w2, common, upgrade(cg, icg, w1[0]), icg).contains(
                    z2,
                ));
                assert(merges(w1.skip(1), w2, common).contains(z2));
                assert(prepend(w1[0], merges(w1.skip(1), w2, common)).contains(z));
            } else {
                if push_lex(w1[0], w1.skip(1), w2, common, cg, icg).contains(z) {
                    assert(merges_lex(
                        w1.skip(1),
                        w2,
                        common,
                        upgrade(cg, icg, w1[0]),
                        icg,
                    ).contains(z2));
                    assert(merges(w1.skip(1), w2, common).contains(z2));
                    assert(prepend(w1[0], merges(w1.skip(1), w2, common)).contains(z));
                } else {
                    assert(push_lex(w2[0], w1, w2.skip(1), common, cg, icg).contains(z));
                    assert(merges_lex(
                        w1,
                        w2.skip(1),
                        common,
                        upgrade(cg, icg, w2[0]),
                        icg,
                    ).contains(z2));
                    assert(merges(w1, w2.skip(1), common).contains(z2));
                    assert(prepend(w2[0], merges(w1, w2.skip(1), common)).contains(z));
                }
            }
        }
    }
}

/// The key of a word: its projection to the common slots.
///
/// A merge of two words with equal keys projects back onto each of them:
/// dropping the letters outside either side's slots recovers that side's word.
pub proof fn lemma_merge_projects(
    z: Seq<u8>,
    w1: Seq<u8>,
    w2: Seq<u8>,
    common: Seq<usize>,
    slots1: Seq<usize>,
    slots2: Seq<usize>,
)
    requires
        merges(w1, w2, common).contains(z),
        forall|p: int| 0 <= p < w1.len() ==> slots1.contains(#[trigger] w1[p] as usize),
        forall|p: int| 0 <= p < w2.len() ==> slots2.contains(#[trigger] w2[p] as usize),
        forall|x: usize| #[trigger]
            common.contains(x) <==> (slots1.contains(x) && slots2.contains(x)),
        proj(w1, common) == proj(w2, common),
    ensures
        proj(z, slots1) == w1,
        proj(z, slots2) == w2,
    decreases w1.len() + w2.len(),
{
    if w1.len() == 0 && w2.len() == 0 {
        assert(z =~= Seq::<u8>::empty());
    } else if w1.len() == 0 {
        assert(z == w2);
        lemma_proj_id(w2, slots2);
        assert(proj(w1, common) =~= Seq::<u8>::empty());
        lemma_proj_empty_means(w2, common);
        assert forall|p: int| 0 <= p < w2.len() implies !slots1.contains(
            #[trigger] w2[p] as usize,
        ) by {
            if slots1.contains(w2[p] as usize) {
                assert(common.contains(w2[p] as usize));
            }
        }
        lemma_proj_none(w2, slots1);
    } else if w2.len() == 0 {
        assert(z == w1);
        lemma_proj_id(w1, slots1);
        assert(proj(w2, common) =~= Seq::<u8>::empty());
        lemma_proj_empty_means(w1, common);
        assert forall|p: int| 0 <= p < w1.len() implies !slots2.contains(
            #[trigger] w1[p] as usize,
        ) by {
            if slots2.contains(w1[p] as usize) {
                assert(common.contains(w1[p] as usize));
            }
        }
        lemma_proj_none(w1, slots2);
    } else if w1[0] == w2[0] {
        let c = w1[0];
        let z2 = z.skip(1);
        assert(z.len() > 0 && z[0] == c);
        assert(common.contains(c as usize));
        assert(proj(w1, common) == seq![c] + proj(w1.skip(1), common));
        assert(proj(w2, common) == seq![c] + proj(w2.skip(1), common));
        assert(proj(w1.skip(1), common) =~= (seq![c] + proj(w1.skip(1), common)).skip(1));
        assert(proj(w2.skip(1), common) =~= (seq![c] + proj(w2.skip(1), common)).skip(1));
        lemma_tail_letters(w1);
        lemma_tail_letters(w2);
        lemma_merge_projects(z2, w1.skip(1), w2.skip(1), common, slots1, slots2);
        assert(proj(z, slots1) == seq![c] + proj(z2, slots1));
        assert(seq![c] + w1.skip(1) =~= w1);
        assert(proj(z, slots2) == seq![c] + proj(z2, slots2));
        assert(seq![c] + w2.skip(1) =~= w2);
    } else if common.contains(w1[0] as usize) {
        let e = w2[0];
        let z2 = z.skip(1);
        assert(z.len() > 0 && z[0] == e);
        assert(!common.contains(e as usize)) by {
            if common.contains(e as usize) {
                assert(proj(w1, common) == seq![w1[0]] + proj(w1.skip(1), common));
                assert(proj(w2, common) == seq![e] + proj(w2.skip(1), common));
                assert(proj(w1, common)[0] == w1[0]);
                assert(proj(w2, common)[0] == e);
            }
        }
        assert(proj(w2.skip(1), common) == proj(w2, common));
        lemma_tail_letters(w2);
        lemma_merge_projects(z2, w1, w2.skip(1), common, slots1, slots2);
        assert(!slots1.contains(e as usize)) by {
            if slots1.contains(e as usize) {
                assert(slots2.contains(e as usize));
                assert(common.contains(e as usize));
            }
        }
        assert(proj(z, slots1) == proj(z2, slots1));
        assert(slots2.contains(e as usize));
        assert(proj(z, slots2) == seq![e] + proj(z2, slots2));
        assert(seq![e] + w2.skip(1) =~= w2);
    } else if common.contains(w2[0] as usize) {
        let e = w1[0];
        let z2 = z.skip(1);
        assert(z.len() > 0 && z[0] == e);
        assert(!common.contains(e as usize)) by {
            if common.contains(e as usize) {
                assert(proj(w1, common) == seq![e] + proj(w1.skip(1), common));
                assert(proj(w2, common) == seq![w2[0]] + proj(w2.skip(1), common));
                assert(proj(w1, common)[0] == e);
                assert(proj(w2, common)[0] == w2[0]);
            }
        }
        assert(proj(w1.skip(1), common) == proj(w1, common));
        lemma_tail_letters(w1);
        lemma_merge_projects(z2, w1.skip(1), w2, common, slots1, slots2);
        assert(!slots2.contains(e as usize)) by {
            if slots2.contains(e as usize) {
                assert(slots1.contains(e as usize));
                assert(common.contains(e as usize));
            }
        }
        assert(proj(z, slots2) == proj(z2, slots2));
        assert(slots1.contains(e as usize));
        assert(proj(z, slots1) == seq![e] + proj(z2, slots1));
        assert(seq![e] + w1.skip(1) =~= w1);
    } else {
        let z2 = z.skip(1);
        if prepend(w1[0], merges(w1.skip(1), w2, common)).contains(z) {
            let e = w1[0];
            assert(z.len() > 0 && z[0] == e);
            assert(proj(w1.skip(1), common) == proj(w1, common));
            lemma_tail_letters(w1);
            lemma_merge_projects(z2, w1.skip(1), w2, common, slots1, slots2);
            assert(!slots2.contains(e as usize)) by {
                if slots2.contains(e as usize) {
                    assert(slots1.contains(e as usize));
                    assert(common.contains(e as usize));
                }
            }
            assert(proj(z, slots2) == proj(z2, slots2));
            assert(slots1.contains(e as usize));
            assert(proj(z, slots1) == seq![e] + proj(z2, slots1));
            assert(seq![e] + w1.skip(1) =~= w1);
        } else {
            let e = w2[0];
            assert(prepend(w2[0], merges(w1, w2.skip(1), common)).contains(z));
            assert(z.len() > 0 && z[0] == e);
            assert(proj(w2.skip(1), common) == proj(w2, common));
            lemma_tail_letters(w2);
            lemma_merge_projects(z2, w1, w2.skip(1), common, slots1, slots2);
            assert(!slots1.contains(e as usize)) by {
                if slots1.contains(e as usize) {
                    assert(slots2.contains(e as usize));
                    assert(common.contains(e as usize));
                }
            }
            assert(proj(z, slots1) == proj(z2, slots1));
            assert(slots2.contains(e as usize));
            assert(proj(z, slots2) == seq![e] + proj(z2, slots2));
            assert(seq![e] + w2.skip(1) =~= w2);
        }
    }
}

/// The letters of a tail are letters of the word.
proof fn lemma_tail_letters(w: Seq<u8>)
    requires
        w.len() > 0,
    ensures
        forall|p: int| 0 <= p < w.skip(1).len() ==> w.skip(1)[p] == w[p + 1],
{
}


/// The gates at the start of a combine: within each run of equal sizes the
/// first die may open; every other die waits for its predecessor in the run.
pub open spec fn init_cg(sizes: Seq<usize>) -> Seq<bool> {
    Seq::new(sizes.len(), |i: int| i == 0 || sizes[i] != sizes[i - 1])
}

pub open spec fn init_icg(sizes: Seq<usize>) -> Seq<usize> {
    Seq::new(
        sizes.len(),
        |i: int|
            if i + 1 < sizes.len() && sizes[i + 1] == sizes[i] {
                (i + 1) as usize
            } else {
                i as usize
            },
    )
}

fn init_gates(sizes: &Vec<usize>) -> (r: (Vec<bool>, Vec<usize>))
    requires
        sizes@.len() <= 26,
    ensures
        r.0@ == init_cg(sizes@),
        r.1@ == init_icg(sizes@),
{
    let n: usize = sizes.len();
    let mut cg: Vec<bool> = Vec::new();
    let mut icg: Vec<usize> = Vec::new();
    let mut i: usize = 0;
    while i < n
        invariant
            0 <= i <= n,
            n == sizes@.len(),
            cg@.len() == i,
            icg@.len() == i,
            forall|t: int| 0 <= t < i ==> #[trigger] cg@[t] == init_cg(sizes@)[t],
            forall|t: int| 0 <= t < i ==> #[trigger] icg@[t] == init_icg(sizes@)[t],
        decreases n - i,
    {
        if i == 0 || sizes[i] != sizes[i - 1] {
            cg.push(true);
        } else {
            cg.push(false);
        }
        if i + 1 < n && sizes[i + 1] == sizes[i] {
            icg.push(i + 1);
        } else {
            icg.push(i);
        }
        i += 1;
    }
    proof {
        assert(cg@ =~= init_cg(sizes@));
        assert(icg@ =~= init_icg(sizes@));
    }
    (cg, icg)
}

/// The words the interleaver yields for one pair: the checker-accepted
/// interleavings, gated when `lex` asks for canonical representatives only.
pub open spec fn interleaving_set(
    sizes: Seq<usize>,
    w1: Seq<u8>,
    w2: Seq<u8>,
    common: Seq<usize>,
    checking: Seq<MappedFDTS>,
    lex: bool,
) -> Set<Seq<u8>> {
    if lex {
        targets_of(
            Seq::empty(),
            merges_lex(w1, w2, common, init_cg(sizes), init_icg(sizes)),
            checking,
        )
    } else {
        targets_of(Seq::empty(), merges(w1, w2, common), checking)
    }
}

impl crate::fdts::FDTS {
    /// Enumerate every word that interleaves `w1` and `w2` (each side's order
    /// kept, common-slot letters matched up), pruned online by the checkers
    /// and, if `same_lexicographic`, restricted by the gates to the canonical
    /// representatives of equal-size relabelings.
    pub fn interleave_words(
        &self,
        w1: &Vec<u8>,
        w2: &Vec<u8>,
        checking: &[MappedFDTS],
        common_dice: &[usize],
        same_lexicographic: bool,
    ) -> (res: Vec<Word>)
        requires
            self.wf(),
            checkers_wf(checking@),
            letters_in_range(w1@, self.sizes@.len() as int),
            letters_in_range(w2@, self.sizes@.len() as int),
        ensures
            forall|t: int|
                0 <= t < res@.len() ==> interleaving_set(
                    self.sizes@,
                    w1@,
                    w2@,
                    common_dice@,
                    checking@,
                    same_lexicographic,
                ).contains((#[trigger] res@[t])@),
            forall|z: Seq<u8>|
                interleaving_set(
                    self.sizes@,
                    w1@,
                    w2@,
                    common_dice@,
                    checking@,
                    same_lexicographic,
                ).contains(z) ==> exists|t: int| 0 <= t < res@.len() && (#[trigger] res@[t])@ == z,
            forall|t1: int, t2: int|
                0 <= t1 < t2 < res@.len() ==> (#[trigger] res@[t1])@ != (#[trigger] res@[t2])@,
    {
        let mut res: Vec<Word> = Vec::new();
        let mut buf: Word = Vec::new();
        let ghost iset = interleaving_set(
            self.sizes@,
            w1@,
            w2@,
            common_dice@,
            checking@,
            same_lexicographic,
        );
        if same_lexicographic {
            let gates: (Vec<bool>, Vec<usize>) = init_gates(&self.sizes);
            let cg: Vec<bool> = gates.0;
            let icg: Vec<usize> = gates.1;
            proof {
                assert(cg@.len() == self.sizes@.len());
                assert(icg@.len() == cg@.len());
                assert forall|t: int| 0 <= t < icg@.len() implies #[trigger] icg@[t]
                    < cg@.len() by {}
            }
            rec_interleave_lex(
                &mut buf,
                w1,
                0,
                w2,
                0,
                checking,
                common_dice,
                &mut res,
                &cg,
                &icg,
            );
            proof {
                assert(w1@.skip(0) =~= w1@);
                assert(w2@.skip(0) =~= w2@);
                lemma_interleave_base(
                    iset,
                    merges_lex(w1@, w2@, common_dice@, init_cg(self.sizes@), init_icg(self.sizes@)),
                    checking@,
                    res@,
                );
            }
        } else {
            rec_interleave(&mut buf, w1, 0, w2, 0, checking, common_dice, &mut res);
            proof {
                assert(w1@.skip(0) =~= w1@);
                assert(w2@.skip(0) =~= w2@);
                assert(free_targets(Seq::empty(), w1@, w2@, common_dice@, checking@)
                    =~= targets_of(Seq::empty(), merges(w1@, w2@, common_dice@), checking@));
                lemma_interleave_base(
                    iset,
                    merges(w1@, w2@, common_dice@),
                    checking@,
                    res@,
                );
            }
        }
        res
    }
}

/// Below the empty partial word, the gathered results are the target words
/// themselves.
proof fn lemma_interleave_base(
    iset: Set<Seq<u8>>,
    mset: Set<Seq<u8>>,
    checking: Seq<MappedFDTS>,
    res: Seq<Word>,
)
    requires
        iset == targets_of(Seq::<u8>::empty(), mset, checking),
        forall|t: int|
            0 <= t < res.len() ==> targets_of(Seq::<u8>::empty(), mset, checking).contains(
                (#[trigger] res[t])@.skip(0),
            ),
        forall|z: Seq<u8>|
            targets_of(Seq::<u8>::empty(), mset, checking).contains(z) ==> exists|t: int|
                0 <= t < res.len() && (#[trigger] res[t])@ == Seq::<u8>::empty() + z,
    ensures
        forall|t: int| 0 <= t < res.len() ==> iset.contains((#[trigger] res[t])@),
        forall|z: Seq<u8>| iset.contains(z) ==> exists|t: int|
            0 <= t < res.len() && (#[trigger] res[t])@ == z,
{
    assert forall|t: int| 0 <= t < res.len() implies iset.contains((#[trigger] res[t])@) by {
        assert(res[t]@.skip(0) =~= res[t]@);
    }
    assert forall|z: Seq<u8>| iset.contains(z) implies exists|t: int|
        0 <= t < res.len() && (#[trigger] res[t])@ == z by {
        let t = choose|t: int|
            0 <= t < res.len() && (#[trigger] res[t])@ == Seq::<u8>::empty() + z;
        assert(Seq::<u8>::empty() + z =~= z);
    }
}


/// The external slot sizes of a combine: each covered slot carries the size
/// of the die that one of the two views places there.
pub open spec fn combined_sizes(d1: MappedFDTS, d2: MappedFDTS) -> Seq<usize> {
    Seq::new(
        d1.back@.len(),
        |j: int|
            if d1.back@[j] is Some {
                d1.fdts.sizes@[d1.back@[j].unwrap() as int]
            } else if d2.back@[j] is Some {
                d2.fdts.sizes@[d2.back@[j].unwrap() as int]
            } else {
                0
            },
    )
}

/// Both views cover every external slot between them.
pub open spec fn covers_all(d1: MappedFDTS, d2: MappedFDTS) -> bool {
    forall|j: int|
        0 <= j < d1.back@.len() ==> ((#[trigger] d1.back@[j]) is Some || (
        #[trigger] d2.back@[j]) is Some)
}

/// One accepted pair explains the word `w`: the two projected words share
/// their key, `w` gatedly interleaves them, and every checker accepts it.
pub open spec fn pair_candidate(
    w: Seq<u8>,
    ew1: Seq<u8>,
    ew2: Seq<u8>,
    common: Seq<usize>,
    sizes: Seq<usize>,
    checking: Seq<MappedFDTS>,
) -> bool {
    &&& proj(ew1, common) == proj(ew2, common)
    &&& merges_lex(ew1, ew2, common, init_cg(sizes), init_icg(sizes)).contains(w)
    &&& passes_checkers(w, checking)
}

/// The words of the combined set: those explained by some accepted pair and
/// fair up to the requested degree.
pub open spec fn is_combined_word(
    w: Seq<u8>,
    d1: MappedFDTS,
    d2: MappedFDTS,
    checking: Seq<MappedFDTS>,
    k: nat,
) -> bool {
    &&& exists|a: int, b: int|
        0 <= a < d1.ext_words().len() && 0 <= b < d2.ext_words().len() && pair_candidate(
            w,
            #[trigger] d1.ext_words()[a],
            #[trigger] d2.ext_words()[b],
            crate::words::filter_common(d1.map@, d2.map@),
            combined_sizes(d1, d2),
            checking,
        )
    &&& crate::permutations::fair_spec(
        w,
        crate::words::ids_seq(d1.back@.len() as int),
        k,
    )
}

/// A projected word's letters all name covered slots of its view.
proof fn lemma_ext_word_letters(d: MappedFDTS, i: int)
    requires
        d.wf(),
        0 <= i < d.ext_words().len(),
    ensures
        forall|p: int|
            0 <= p < d.ext_words()[i].len() ==> d.map@.contains(
                #[trigger] d.ext_words()[i][p] as usize,
            ),
        forall|p: int|
            0 <= p < d.ext_words()[i].len() ==> (#[trigger] d.ext_words()[i][p] as int)
                < d.back@.len(),
{
    let w = d.fdts.words()[i];
    assert(d.fdts.dice@[i].wf(d.fdts.sizes@));
    assert forall|p: int| 0 <= p < d.ext_words()[i].len() implies d.map@.contains(
        #[trigger] d.ext_words()[i][p] as usize,
    ) && (d.ext_words()[i][p] as int) < d.back@.len() by {
        assert(d.ext_words()[i] == crate::words::ext_word(w, d.map@));
        assert((w[p] as int) < d.fdts.sizes@.len());
        assert(d.ext_words()[i][p] == d.map@[w[p] as int] as u8);
        assert(d.map@[w[p] as int] < d.back@.len());
        assert(d.map@.contains(d.map@[w[p] as int]));
        assert(d.map@[w[p] as int] < 26);
    }
}

/// Two distinct accepted words stay distinct after relabeling.
proof fn lemma_ext_words_distinct(d: MappedFDTS)
    requires
        d.wf(),
    ensures
        forall|a: int, b: int|
            0 <= a < b < d.ext_words().len() ==> d.ext_words()[a] != d.ext_words()[b],
{
    assert forall|a: int, b: int| 0 <= a < b < d.ext_words().len() implies d.ext_words()[a]
        != d.ext_words()[b] by {
        let wa = d.fdts.words()[a];
        let wb = d.fdts.words()[b];
        assert(d.fdts.words().no_duplicates());
        assert(wa != wb);
        assert(d.fdts.dice@[a].wf(d.fdts.sizes@));
        assert(d.fdts.dice@[b].wf(d.fdts.sizes@));
        if d.ext_words()[a] == d.ext_words()[b] {
            assert(crate::words::ext_word(wa, d.map@) == crate::words::ext_word(wb, d.map@));
            assert(wa.len() == wb.len());
            assert(!(wa =~= wb));
            let p = choose|p: int| 0 <= p < wa.len() && wa[p] != wb[p];
            assert(crate::words::ext_word(wa, d.map@)[p] == d.map@[wa[p] as int] as u8);
            assert(crate::words::ext_word(wb, d.map@)[p] == d.map@[wb[p] as int] as u8);
            assert((wa[p] as int) < d.map@.len());
            assert((wb[p] as int) < d.map@.len());
            if (wa[p] as int) < (wb[p] as int) {
                assert(d.map@[wa[p] as int] < d.map@[wb[p] as int]);
            } else {
                assert(d.map@[wb[p] as int] < d.map@[wa[p] as int]);
            }
        }
    }
}

/// A pair candidate is a well-formed word of the combined shape.
#[verifier::rlimit(100)]
proof fn lemma_candidate_wf_word(
    w: Seq<u8>,
    d1: MappedFDTS,
    d2: MappedFDTS,
    checking: Seq<MappedFDTS>,
    a: int,
    b: int,
)
    requires
        d1.wf(),
        d2.wf(),
        d1.compatible(d2),
        covers_all(d1, d2),
        0 <= a < d1.ext_words().len(),
        0 <= b < d2.ext_words().len(),
        pair_candidate(
            w,
            d1.ext_words()[a],
            d2.ext_words()[b],
            crate::words::filter_common(d1.map@, d2.map@),
            combined_sizes(d1, d2),
            checking,
        ),
    ensures
        crate::dice_tuple::wf_word(w, combined_sizes(d1, d2)),
        proj(w, d1.map@) == d1.ext_words()[a],
        proj(w, d2.map@) == d2.ext_words()[b],
{
    let ew1 = d1.ext_words()[a];
    let ew2 = d2.ext_words()[b];
    let common = crate::words::filter_common(d1.map@, d2.map@);
    let sizes = combined_sizes(d1, d2);
    let width = d1.back@.len() as int;
    lemma_merges_lex_subset(ew1, ew2, common, init_cg(sizes), init_icg(sizes));
    assert(merges(ew1, ew2, common).contains(w));
    lemma_ext_word_letters(d1, a);
    lemma_ext_word_letters(d2, b);
    crate::words::lemma_filter_common_member(d1.map@, d2.map@);
    lemma_merge_projects(w, ew1, ew2, common, d1.map@, d2.map@);
    lemma_merge_letters(w, ew1, ew2, common);
    assert forall|p: int| 0 <= p < w.len() implies (#[trigger] w[p] as int) < width by {
        if ew1.contains(w[p]) {
            let q = choose|q: int| 0 <= q < ew1.len() && ew1[q] == w[p];
            assert((ew1[q] as int) < d1.back@.len());
        } else {
            assert(ew2.contains(w[p]));
            let q = choose|q: int| 0 <= q < ew2.len() && ew2[q] == w[p];
            assert((ew2[q] as int) < d2.back@.len());
        }
    }
    assert forall|x: int| 0 <= x < width implies #[trigger] crate::words::count_letter(w, x as u8)
        == sizes[x] by {
        if d1.back@[x] is Some {
            let i1 = d1.back@[x].unwrap() as int;
            assert(d1.map@[i1] == x);
            assert(d1.map@.contains(x as usize)) by {
                assert(d1.map@[i1] == x as usize);
            }
            crate::words::lemma_count_proj(w, d1.map@, x as u8);
            assert(crate::words::count_letter(proj(w, d1.map@), x as u8)
                == crate::words::count_letter(w, x as u8));
            let wa = d1.fdts.words()[a];
            assert(ew1 == crate::words::ext_word(wa, d1.map@));
            assert(d1.fdts.dice@[a].wf(d1.fdts.sizes@));
            crate::words::lemma_ext_word_count(wa, d1.map@, i1);
            assert(crate::words::count_letter(wa, i1 as u8) == d1.fdts.sizes@[i1]);
        } else {
            assert(d2.back@[x] is Some);
            let i2 = d2.back@[x].unwrap() as int;
            assert(d2.map@[i2] == x);
            assert(d2.map@.contains(x as usize)) by {
                assert(d2.map@[i2] == x as usize);
            }
            crate::words::lemma_count_proj(w, d2.map@, x as u8);
            let wb = d2.fdts.words()[b];
            assert(ew2 == crate::words::ext_word(wb, d2.map@));
            assert(d2.fdts.dice@[b].wf(d2.fdts.sizes@));
            crate::words::lemma_ext_word_count(wb, d2.map@, i2);
            assert(crate::words::count_letter(wb, i2 as u8) == d2.fdts.sizes@[i2]);
        }
    }
    crate::words::lemma_len_is_sum_counts(w, width);
    crate::words::lemma_sum_counts_matches_sizes(w, sizes, width);
}

/// One word is explained by at most one accepted pair.
proof fn lemma_candidate_unique_pair(
    w: Seq<u8>,
    d1: MappedFDTS,
    d2: MappedFDTS,
    checking: Seq<MappedFDTS>,
    a: int,
    b: int,
    a2: int,
    b2: int,
)
    requires
        d1.wf(),
        d2.wf(),
        d1.compatible(d2),
        covers_all(d1, d2),
        0 <= a < d1.ext_words().len(),
        0 <= b < d2.ext_words().len(),
        0 <= a2 < d1.ext_words().len(),
        0 <= b2 < d2.ext_words().len(),
        pair_candidate(
            w,
            d1.ext_words()[a],
            d2.ext_words()[b],
            crate::words::filter_common(d1.map@, d2.map@),
            combined_sizes(d1, d2),
            checking,
        ),
        pair_candidate(
            w,
            d1.ext_words()[a2],
            d2.ext_words()[b2],
            crate::words::filter_common(d1.map@, d2.map@),
            combined_sizes(d1, d2),
            checking,
        ),
    ensures
        a == a2,
        b == b2,
{
    lemma_candidate_wf_word(w, d1, d2, checking, a, b);
    lemma_candidate_wf_word(w, d1, d2, checking, a2, b2);
    assert(d1.ext_words()[a] == d1.ext_words()[a2]);
    assert(d2.ext_words()[b] == d2.ext_words()[b2]);
    lemma_ext_words_distinct(d1);
    lemma_ext_words_distinct(d2);
    if a < a2 {
        assert(d1.ext_words()[a] != d1.ext_words()[a2]);
    } else if a2 < a {
        assert(d1.ext_words()[a2] != d1.ext_words()[a]);
    }
    if b < b2 {
        assert(d2.ext_words()[b] != d2.ext_words()[b2]);
    } else if b2 < b {
        assert(d2.ext_words()[b2] != d2.ext_words()[b]);
    }
}


/// The words accepted by the pairs that the combine has walked so far, in
/// row-major pair order.
pub open spec fn combined_up_to(
    w: Seq<u8>,
    d1: MappedFDTS,
    d2: MappedFDTS,
    checking: Seq<MappedFDTS>,
    k: nat,
    i: int,
    j: int,
) -> bool {
    &&& exists|a: int, b: int|
        #![trigger d1.ext_words()[a], d2.ext_words()[b]]
        0 <= a < d1.ext_words().len() && 0 <= b < d2.ext_words().len() && (a < i || (a == i && b
            < j)) && pair_candidate(
            w,
            d1.ext_words()[a],
            d2.ext_words()[b],
            crate::words::filter_common(d1.map@, d2.map@),
            combined_sizes(d1, d2),
            checking,
        )
    &&& crate::permutations::fair_spec(w, crate::words::ids_seq(d1.back@.len() as int), k)
}

impl crate::fdts::FDTS {
    /// Combine two compatible views into the full fair dice tuple set over
    /// their joint slot space: every pair of accepted words with a common key
    /// is interleaved under the canonical gate discipline, pruned online by
    /// the checkers, and the fair survivors populate the result.
    pub fn new_combined(
        d1: MappedFDTS<'_>,
        d2: MappedFDTS<'_>,
        checking: &[MappedFDTS],
        fair_up_to: usize,
    ) -> (r: crate::fdts::FDTS)
        requires
            d1.wf(),
            d2.wf(),
            checkers_wf(checking@),
            d1.compatible(d2),
            forall|c: int| 0 <= c < checking@.len() ==> d1.compatible(#[trigger] checking@[c]),
            covers_all(d1, d2),
            1 <= d1.back@.len(),
            crate::sorted_nondesc(combined_sizes(d1, d2)),
            crate::words::sum_to(combined_sizes(d1, d2), d1.back@.len() as int) <= 63,
            1 <= fair_up_to <= d1.back@.len(),
            fair_up_to >= d1.fdts.fair_up_to,
            fair_up_to >= d2.fdts.fair_up_to,
            forall|c: int|
                0 <= c < checking@.len() ==> fair_up_to >= (#[trigger] checking@[c]).fdts.fair_up_to,
        ensures
            r.wf(),
            r.sizes@ == combined_sizes(d1, d2),
            r.fair_up_to == fair_up_to,
            forall|w: Seq<u8>|
                r.words().contains(w) <==> #[trigger] is_combined_word(
                    w,
                    d1,
                    d2,
                    checking@,
                    fair_up_to as nat,
                ),
    {
        let width: usize = d1.back.len();
        let ghost csizes = combined_sizes(d1, d2);
        let ghost common = crate::words::filter_common(d1.map@, d2.map@);
        let ghost k = fair_up_to as nat;
        let ghost ids = crate::words::ids_seq(width as int);
        let mut sizes: Vec<usize> = Vec::new();
        let mut jj: usize = 0;
        while jj < width
            invariant
                0 <= jj <= width,
                width == d1.back@.len(),
                d1.wf(),
                d2.wf(),
                d1.compatible(d2),
                covers_all(d1, d2),
                sizes@.len() == jj,
                forall|t: int| 0 <= t < jj ==> #[trigger] sizes@[t] == combined_sizes(d1, d2)[t],
            decreases width - jj,
        {
            let sj: usize = match d1.back[jj] {
                Some(i1) => {
                    proof {
                        assert(d1.back@[jj as int] is Some);
                        assert(i1 < d1.map@.len());
                    }
                    d1.fdts.sizes[i1]
                },
                None => match d2.back[jj] {
                    Some(i2) => {
                        proof {
                            assert(d2.back@[jj as int] is Some);
                            assert(i2 < d2.map@.len());
                        }
                        d2.fdts.sizes[i2]
                    },
                    None => {
                        proof {
                            assert(false);
                        }
                        0
                    },
                },
            };
            sizes.push(sj);
            jj += 1;
        }
        proof {
            assert(sizes@ =~= csizes);
            assert forall|t: int| 0 <= t < csizes.len() implies #[trigger] csizes[t] >= 1 by {
                if d1.back@[t] is Some {
                    assert(d1.fdts.sizes@[d1.back@[t].unwrap() as int] >= 1);
                } else {
                    assert(d2.back@[t] is Some);
                    assert(d2.fdts.sizes@[d2.back@[t].unwrap() as int] >= 1);
                }
            }
        }
        let mut f = crate::fdts::FDTS::new_empty(sizes.as_slice());
        f.fair_up_to = fair_up_to;
        proof {
            assert(f.wf());
            assert(f.words() =~= Seq::<Seq<u8>>::empty());
        }
        let mut ce: usize = 0;
        let mut any_empty: bool = false;
        while ce < checking.len()
            invariant
                0 <= ce <= checking@.len(),
                any_empty == (exists|c: int|
                    0 <= c < ce && (#[trigger] checking@[c]).fdts.dice@.len() == 0),
            decreases checking@.len() - ce,
        {
            if checking[ce].fdts.dice.len() == 0 {
                any_empty = true;
            }
            ce += 1;
        }
        if any_empty {
            proof {
                let c = choose|c: int|
                    0 <= c < checking@.len() && (#[trigger] checking@[c]).fdts.dice@.len() == 0;
                assert forall|w: Seq<u8>| !(#[trigger] is_combined_word(
                    w,
                    d1,
                    d2,
                    checking@,
                    k,
                )) by {
                    if is_combined_word(w, d1, d2, checking@, k) {
                        assert(passes_checkers(w, checking@));
                        assert(checking@[c].fdts.prefixes@.contains(
                            collapse(w, checking@[c].back@),
                        ));
                        assert(checking@[c].fdts.words() =~= Seq::<Seq<u8>>::empty());
                        assert(checking@[c].fdts.prefixes@ == prefix_closure(
                            checking@[c].fdts.words(),
                        ));
                    }
                }
            }
            return f;
        }
        let mut bin_indices: Vec<usize> = Vec::new();
        let mut q: usize = 0;
        while q < d1.map.len()
            invariant
                0 <= q <= d1.map@.len(),
                bin_indices@ == crate::words::filter_common(d1.map@.take(q as int), d2.map@),
            decreases d1.map@.len() - q,
        {
            proof {
                crate::words::lemma_filter_common_concat(
                    d1.map@.take(q as int),
                    seq![d1.map@[q as int]],
                    d2.map@,
                );
                crate::words::lemma_filter_common_singleton(d1.map@[q as int], d2.map@);
                assert(d1.map@.take(q + 1) =~= d1.map@.take(q as int) + seq![d1.map@[q as int]]);
            }
            if crate::contains_slot(d2.map.as_slice(), d1.map[q]) {
                bin_indices.push(d1.map[q]);
            }
            q += 1;
        }
        proof {
            assert(d1.map@.take(d1.map@.len() as int) =~= d1.map@);
        }
        let mut values: Vec<u8> = Vec::new();
        let mut v: usize = 0;
        while v < width
            invariant
                0 <= v <= width,
                width <= 26,
                values@.len() == v,
                forall|t: int| 0 <= t < v ==> #[trigger] values@[t] == t as u8,
            decreases width - v,
        {
            values.push(v as u8);
            v += 1;
        }
        proof {
            assert(values@ =~= ids);
            assert(values@.no_duplicates()) by {
                assert forall|t1: int, t2: int|
                    0 <= t1 < t2 < values@.len() implies values@[t1] != values@[t2] by {}
            }
        }
        let ws1: Vec<Word> = d1.iterate_words();
        let ws2: Vec<Word> = d2.iterate_words();
        let mut i: usize = 0;
        while i < ws1.len()
            invariant
                d1.wf(),
                d2.wf(),
                checkers_wf(checking@),
                d1.compatible(d2),
                covers_all(d1, d2),
                width == d1.back@.len(),
                1 <= width <= 26,
                csizes == combined_sizes(d1, d2),
                common == crate::words::filter_common(d1.map@, d2.map@),
                crate::sorted_nondesc(csizes),
                crate::words::sum_to(csizes, width as int) <= 63,
                1 <= fair_up_to <= width,
                k == fair_up_to as nat,
                ids == crate::words::ids_seq(width as int),
                bin_indices@ == common,
                values@ == ids,
                values@.no_duplicates(),
                values@.len() == width,
                ws1@.len() == d1.ext_words().len(),
                forall|t: int| 0 <= t < ws1@.len() ==> (#[trigger] ws1@[t])@ == d1.ext_words()[t],
                ws2@.len() == d2.ext_words().len(),
                forall|t: int| 0 <= t < ws2@.len() ==> (#[trigger] ws2@[t])@ == d2.ext_words()[t],
                0 <= i <= ws1@.len(),
                f.wf(),
                f.sizes@ == csizes,
                f.fair_up_to == fair_up_to,
                forall|w: Seq<u8>|
                    f.words().contains(w) <==> #[trigger] combined_up_to(
                        w,
                        d1,
                        d2,
                        checking@,
                        k,
                        i as int,
                        0,
                    ),
            decreases ws1@.len() - i,
        {
            let key1: Word = crate::subset_word(&ws1[i], bin_indices.as_slice());
            let mut j: usize = 0;
            while j < ws2.len()
                invariant
                    d1.wf(),
                    d2.wf(),
                    checkers_wf(checking@),
                    d1.compatible(d2),
                    covers_all(d1, d2),
                    width == d1.back@.len(),
                    1 <= width <= 26,
                    csizes == combined_sizes(d1, d2),
                    common == crate::words::filter_common(d1.map@, d2.map@),
                    crate::sorted_nondesc(csizes),
                    crate::words::sum_to(csizes, width as int) <= 63,
                    1 <= fair_up_to <= width,
                    k == fair_up_to as nat,
                    ids == crate::words::ids_seq(width as int),
                    bin_indices@ == common,
                    values@ == ids,
                    values@.no_duplicates(),
                    values@.len() == width,
                    ws1@.len() == d1.ext_words().len(),
                    forall|t: int|
                        0 <= t < ws1@.len() ==> (#[trigger] ws1@[t])@ == d1.ext_words()[t],
                    ws2@.len() == d2.ext_words().len(),
                    forall|t: int|
                        0 <= t < ws2@.len() ==> (#[trigger] ws2@[t])@ == d2.ext_words()[t],
                    0 <= i < ws1@.len(),
                    0 <= j <= ws2@.len(),
                    key1@ == proj(d1.ext_words()[i as int], common),
                    f.wf(),
                    f.sizes@ == csizes,
                    f.fair_up_to == fair_up_to,
                    forall|w: Seq<u8>|
                        f.words().contains(w) <==> #[trigger] combined_up_to(
                            w,
                            d1,
                            d2,
                            checking@,
                            k,
                            i as int,
                            j as int,
                        ),
                decreases ws2@.len() - j,
            {
                let key2: Word = crate::subset_word(&ws2[j], bin_indices.as_slice());
                if crate::words::eq_words(&key1, &key2) {
                    proof {
                        lemma_ext_word_letters(d1, i as int);
                        lemma_ext_word_letters(d2, j as int);
                    }
                    let cands: Vec<Word> = f.interleave_words(
                        &ws1[i],
                        &ws2[j],
                        checking,
                        bin_indices.as_slice(),
                        true,
                    );
                    let ghost iset = interleaving_set(
                        csizes,
                        d1.ext_words()[i as int],
                        d2.ext_words()[j as int],
                        common,
                        checking@,
                        true,
                    );
                    let mut cq: usize = 0;
                    while cq < cands.len()
                        invariant
                            d1.wf(),
                            d2.wf(),
                            checkers_wf(checking@),
                            d1.compatible(d2),
                            covers_all(d1, d2),
                            width == d1.back@.len(),
                            1 <= width <= 26,
                            csizes == combined_sizes(d1, d2),
                            common == crate::words::filter_common(d1.map@, d2.map@),
                            crate::sorted_nondesc(csizes),
                            crate::words::sum_to(csizes, width as int) <= 63,
                            1 <= fair_up_to <= width,
                            k == fair_up_to as nat,
                            ids == crate::words::ids_seq(width as int),
                            values@ == ids,
                            values@.no_duplicates(),
                            values@.len() == width,
                            ws1@.len() == d1.ext_words().len(),
                            forall|t: int|
                                0 <= t < ws1@.len() ==> (#[trigger] ws1@[t])@ == d1.ext_words()[t],
                            ws2@.len() == d2.ext_words().len(),
                            forall|t: int|
                                0 <= t < ws2@.len() ==> (#[trigger] ws2@[t])@ == d2.ext_words()[t],
                            0 <= i < ws1@.len(),
                            0 <= j < ws2@.len(),
                            proj(d1.ext_words()[i as int], common) == proj(
                                d2.ext_words()[j as int],
                                common,
                            ),
                            iset == interleaving_set(
                                csizes,
                                d1.ext_words()[i as int],
                                d2.ext_words()[j as int],
                                common,
                                checking@,
                                true,
                            ),
                            forall|t: int|
                                0 <= t < cands@.len() ==> iset.contains((#[trigger] cands@[t])@),
                            forall|z: Seq<u8>|
                                iset.contains(z) ==> exists|t: int|
                                    0 <= t < cands@.len() && (#[trigger] cands@[t])@ == z,
                            forall|t1: int, t2: int|
                                0 <= t1 < t2 < cands@.len() ==> (#[trigger] cands@[t1])@ != (
                                #[trigger] cands@[t2])@,
                            0 <= cq <= cands@.len(),
                            f.wf(),
                            f.sizes@ == csizes,
                            f.fair_up_to == fair_up_to,
                            forall|w: Seq<u8>|
                                f.words().contains(w) <==> (#[trigger] combined_up_to(
                                    w,
                                    d1,
                                    d2,
                                    checking@,
                                    k,
                                    i as int,
                                    j as int,
                                ) || (exists|t: int|
                                    0 <= t < cq && (#[trigger] cands@[t])@ == w
                                        && crate::permutations::fair_spec(w, ids, k))),
                        decreases cands@.len() - cq,
                    {
                        let z: &Word = &cands[cq];
                        proof {
                            assert(iset.contains(z@));
                            assert(Seq::<u8>::empty() + z@ =~= z@);
                            assert(passes_checkers(z@, checking@));
                            assert(pair_candidate(
                                z@,
                                d1.ext_words()[i as int],
                                d2.ext_words()[j as int],
                                common,
                                csizes,
                                checking@,
                            ));
                            lemma_candidate_wf_word(z@, d1, d2, checking@, i as int, j as int);
                        }
                        let fair: bool = crate::permutations::is_word_permutation_fair_up_to(
                            z,
                            &values,
                            fair_up_to,
                        );
                        let ghost fw0 = f.words();
                        if fair {
                            proof {
                                assert(!fw0.contains(z@)) by {
                                    if fw0.contains(z@) {
                                        assert(combined_up_to(
                                            z@,
                                            d1,
                                            d2,
                                            checking@,
                                            k,
                                            i as int,
                                            j as int,
                                        ) || (exists|t: int|
                                            0 <= t < cq && (#[trigger] cands@[t])@ == z@
                                                && crate::permutations::fair_spec(z@, ids, k)));
                                        if combined_up_to(
                                            z@,
                                            d1,
                                            d2,
                                            checking@,
                                            k,
                                            i as int,
                                            j as int,
                                        ) {
                                            let (a, b) = choose|a: int, b: int|
                                                #![trigger d1.ext_words()[a], d2.ext_words()[b]]
                                                0 <= a < d1.ext_words().len() && 0 <= b
                                                    < d2.ext_words().len() && (a < i as int || (a
                                                    == i as int && b < j as int))
                                                    && pair_candidate(
                                                    z@,
                                                    d1.ext_words()[a],
                                                    d2.ext_words()[b],
                                                    common,
                                                    csizes,
                                                    checking@,
                                                );
                                            lemma_candidate_unique_pair(
                                                z@,
                                                d1,
                                                d2,
                                                checking@,
                                                a,
                                                b,
                                                i as int,
                                                j as int,
                                            );
                                        } else {
                                            let t = choose|t: int|
                                                0 <= t < cq && (#[trigger] cands@[t])@ == z@
                                                    && crate::permutations::fair_spec(z@, ids, k);
                                            assert(cands@[t]@ != cands@[cq as int]@);
                                        }
                                    }
                                }
                            }
                            let dt = crate::dice_tuple::DiceTuple::from_word(&f, z);
                            f.insert_dice(dt);
                            proof {
                                assert(f.words() =~= fw0.push(z@));
                                assert forall|w: Seq<u8>|
                                    f.words().contains(w) <==> (#[trigger] combined_up_to(
                                        w,
                                        d1,
                                        d2,
                                        checking@,
                                        k,
                                        i as int,
                                        j as int,
                                    ) || (exists|t: int|
                                        0 <= t < cq + 1 && (#[trigger] cands@[t])@ == w
                                            && crate::permutations::fair_spec(w, ids, k))) by {
                                    if f.words().contains(w) {
                                        let t0 = choose|t0: int|
                                            0 <= t0 < f.words().len() && #[trigger] f.words()[t0]
                                                == w;
                                        if t0 < fw0.len() {
                                            assert(fw0[t0] == w);
                                            assert(fw0.contains(w));
                                            if !combined_up_to(
                                                w,
                                                d1,
                                                d2,
                                                checking@,
                                                k,
                                                i as int,
                                                j as int,
                                            ) {
                                                let t = choose|t: int|
                                                    0 <= t < cq && (#[trigger] cands@[t])@ == w
                                                        && crate::permutations::fair_spec(
                                                        w,
                                                        ids,
                                                        k,
                                                    );
                                                assert(0 <= t < cq + 1 && cands@[t]@ == w
                                                    && crate::permutations::fair_spec(w, ids, k));
                                            }
                                        } else {
                                            assert(w == z@);
                                            assert(cands@[cq as int]@ == w);
                                            assert(0 <= cq < cq + 1 && cands@[cq as int]@ == w
                                                && crate::permutations::fair_spec(w, ids, k));
                                        }
                                    }
                                    if exists|t: int|
                                        0 <= t < cq + 1 && (#[trigger] cands@[t])@ == w
                                            && crate::permutations::fair_spec(w, ids, k) {
                                        let t = choose|t: int|
                                            0 <= t < cq + 1 && (#[trigger] cands@[t])@ == w
                                                && crate::permutations::fair_spec(w, ids, k);
                                        if t == cq {
                                            assert(w == z@);
                                            assert(f.words()[fw0.len() as int] == z@);
                                            assert(f.words().contains(w));
                                        } else {
                                            assert(0 <= t < cq && cands@[t]@ == w
                                                && crate::permutations::fair_spec(w, ids, k));
                                            let ghost walked = combined_up_to(
                                                w,
                                                d1,
                                                d2,
                                                checking@,
                                                k,
                                                i as int,
                                                j as int,
                                            );
                                            assert(fw0.contains(w));
                                            let t0 = choose|t0: int|
                                                0 <= t0 < fw0.len() && #[trigger] fw0[t0] == w;
                                            assert(f.words()[t0] == w);
                                            assert(f.words().contains(w));
                                        }
                                    }
                                    if combined_up_to(w, d1, d2, checking@, k, i as int, j as int) {
                                        assert(fw0.contains(w));
                                        let t0 = choose|t0: int|
                                            0 <= t0 < fw0.len() && #[trigger] fw0[t0] == w;
                                        assert(f.words()[t0] == w);
                                        assert(f.words().contains(w));
                                    }
                                }
                            }
                        } else {
                            proof {
                                assert forall|w: Seq<u8>|
                                    f.words().contains(w) <==> (#[trigger] combined_up_to(
                                        w,
                                        d1,
                                        d2,
                                        checking@,
                                        k,
                                        i as int,
                                        j as int,
                                    ) || (exists|t: int|
                                        0 <= t < cq + 1 && (#[trigger] cands@[t])@ == w
                                            && crate::permutations::fair_spec(w, ids, k))) by {
                                    if f.words().contains(w) {
                                        if !combined_up_to(
                                            w,
                                            d1,
                                            d2,
                                            checking@,
                                            k,
                                            i as int,
                                            j as int,
                                        ) {
                                            let t = choose|t: int|
                                                0 <= t < cq && (#[trigger] cands@[t])@ == w
                                                    && crate::permutations::fair_spec(w, ids, k);
                                            assert(0 <= t < cq + 1 && cands@[t]@ == w
                                                && crate::permutations::fair_spec(w, ids, k));
                                        }
                                    }
                                    if exists|t: int|
                                        0 <= t < cq + 1 && (#[trigger] cands@[t])@ == w
                                            && crate::permutations::fair_spec(w, ids, k) {
                                        let t = choose|t: int|
                                            0 <= t < cq + 1 && (#[trigger] cands@[t])@ == w
                                                && crate::permutations::fair_spec(w, ids, k);
                                        if t == cq {
                                            assert(w == z@);
                                            assert(false);
                                        } else {
                                            assert(0 <= t < cq && cands@[t]@ == w
                                                && crate::permutations::fair_spec(w, ids, k));
                                            let ghost walked = combined_up_to(
                                                w,
                                                d1,
                                                d2,
                                                checking@,
                                                k,
                                                i as int,
                                                j as int,
                                            );
                                            assert(f.words().contains(w));
                                        }
                                    }
                                }
                            }
                        }
                        let ghost cq0 = cq as int;
                        cq += 1;
                        proof {
                            assert forall|w: Seq<u8>|
                                f.words().contains(w) <==> (#[trigger] combined_up_to(
                                    w,
                                    d1,
                                    d2,
                                    checking@,
                                    k,
                                    i as int,
                                    j as int,
                                ) || (exists|t: int|
                                    0 <= t < cq && (#[trigger] cands@[t])@ == w
                                        && crate::permutations::fair_spec(w, ids, k))) by {
                                if f.words().contains(w) {
                                    if !combined_up_to(w, d1, d2, checking@, k, i as int, j as int) {
                                        let t = choose|t: int|
                                            0 <= t < cq0 + 1 && (#[trigger] cands@[t])@ == w
                                                && crate::permutations::fair_spec(w, ids, k);
                                        assert(0 <= t < cq as int && cands@[t]@ == w
                                            && crate::permutations::fair_spec(w, ids, k));
                                    }
                                }
                                if exists|t: int|
                                    0 <= t < cq && (#[trigger] cands@[t])@ == w
                                        && crate::permutations::fair_spec(w, ids, k) {
                                    let t = choose|t: int|
                                        0 <= t < cq && (#[trigger] cands@[t])@ == w
                                            && crate::permutations::fair_spec(w, ids, k);
                                    assert(0 <= t < cq0 + 1 && cands@[t]@ == w
                                        && crate::permutations::fair_spec(w, ids, k));
                                    let ghost walked = combined_up_to(
                                        w,
                                        d1,
                                        d2,
                                        checking@,
                                        k,
                                        i as int,
                                        j as int,
                                    );
                                    assert(f.words().contains(w));
                                }
                            }
                        }
                    }
                    proof {
                        assert forall|w: Seq<u8>|
                            f.words().contains(w) <==> #[trigger] combined_up_to(
                                w,
                                d1,
                                d2,
                                checking@,
                                k,
                                i as int,
                                j as int + 1,
                            ) by {
                            if f.words().contains(w) {
                                if combined_up_to(w, d1, d2, checking@, k, i as int, j as int) {
                                    let (a, b) = choose|a: int, b: int|
                                        #![trigger d1.ext_words()[a], d2.ext_words()[b]]
                                        0 <= a < d1.ext_words().len() && 0 <= b
                                            < d2.ext_words().len() && (a < i as int || (a
                                            == i as int && b < j as int)) && pair_candidate(
                                            w,
                                            d1.ext_words()[a],
                                            d2.ext_words()[b],
                                            common,
                                            csizes,
                                            checking@,
                                        );
                                    assert(a < i as int || (a == i as int && b < j as int + 1));
                                    assert(combined_up_to(
                                        w,
                                        d1,
                                        d2,
                                        checking@,
                                        k,
                                        i as int,
                                        j as int + 1,
                                    ));
                                } else {
                                    let t = choose|t: int|
                                        0 <= t < cands@.len() && (#[trigger] cands@[t])@ == w
                                            && crate::permutations::fair_spec(w, ids, k);
                                    assert(iset.contains(w));
                                    assert(Seq::<u8>::empty() + w =~= w);
                                    assert(pair_candidate(
                                        w,
                                        d1.ext_words()[i as int],
                                        d2.ext_words()[j as int],
                                        common,
                                        csizes,
                                        checking@,
                                    ));
                                    assert(combined_up_to(
                                        w,
                                        d1,
                                        d2,
                                        checking@,
                                        k,
                                        i as int,
                                        j as int + 1,
                                    ));
                                }
                            }
                            if combined_up_to(w, d1, d2, checking@, k, i as int, j as int + 1) {
                                let (a, b) = choose|a: int, b: int|
                                    #![trigger d1.ext_words()[a], d2.ext_words()[b]]
                                    0 <= a < d1.ext_words().len() && 0 <= b < d2.ext_words().len()
                                        && (a < i as int || (a == i as int && b < j as int + 1))
                                        && pair_candidate(
                                        w,
                                        d1.ext_words()[a],
                                        d2.ext_words()[b],
                                        common,
                                        csizes,
                                        checking@,
                                    );
                                if a < i as int || (a == i as int && b < j as int) {
                                    assert(combined_up_to(
                                        w,
                                        d1,
                                        d2,
                                        checking@,
                                        k,
                                        i as int,
                                        j as int,
                                    ));
                                    assert(f.words().contains(w));
                                } else {
                                    assert(a == i as int && b == j as int);
                                    assert(pair_candidate(
                                        w,
                                        d1.ext_words()[i as int],
                                        d2.ext_words()[j as int],
                                        common,
                                        csizes,
                                        checking@,
                                    ));
                                    assert(Seq::<u8>::empty() + w =~= w);
                                    assert(iset.contains(w));
                                    let t = choose|t: int|
                                        0 <= t < cands@.len() && (#[trigger] cands@[t])@ == w;
                                    assert(crate::permutations::fair_spec(w, ids, k));
                                    assert(0 <= t < cands@.len() && cands@[t]@ == w
                                        && crate::permutations::fair_spec(w, ids, k));
                                    let ghost walked = combined_up_to(
                                        w,
                                        d1,
                                        d2,
                                        checking@,
                                        k,
                                        i as int,
                                        j as int,
                                    );
                                    assert(f.words().contains(w));
                                }
                            }
                        }
                    }
                } else {
                    proof {
                        assert forall|w: Seq<u8>|
                            f.words().contains(w) <==> #[trigger] combined_up_to(
                                w,
                                d1,
                                d2,
                                checking@,
                                k,
                                i as int,
                                j as int + 1,
                            ) by {
                            if f.words().contains(w) {
                                assert(combined_up_to(w, d1, d2, checking@, k, i as int, j as int));
                                let (a, b) = choose|a: int, b: int|
                                    #![trigger d1.ext_words()[a], d2.ext_words()[b]]
                                    0 <= a < d1.ext_words().len() && 0 <= b < d2.ext_words().len()
                                        && (a < i as int || (a == i as int && b < j as int))
                                        && pair_candidate(
                                        w,
                                        d1.ext_words()[a],
                                        d2.ext_words()[b],
                                        common,
                                        csizes,
                                        checking@,
                                    );
                                assert(a < i as int || (a == i as int && b < j as int + 1));
                                assert(combined_up_to(
                                    w,
                                    d1,
                                    d2,
                                    checking@,
                                    k,
                                    i as int,
                                    j as int + 1,
                                ));
                            }
                            if combined_up_to(w, d1, d2, checking@, k, i as int, j as int + 1) {
                                let (a, b) = choose|a: int, b: int|
                                    #![trigger d1.ext_words()[a], d2.ext_words()[b]]
                                    0 <= a < d1.ext_words().len() && 0 <= b < d2.ext_words().len()
                                        && (a < i as int || (a == i as int && b < j as int + 1))
                                        && pair_candidate(
                                        w,
                                        d1.ext_words()[a],
                                        d2.ext_words()[b],
                                        common,
                                        csizes,
                                        checking@,
                                    );
                                if a == i as int && b == j as int {
                                    assert(proj(d1.ext_words()[i as int], common) == proj(
                                        d2.ext_words()[j as int],
                                        common,
                                    ));
                                    assert(key1@ == key2@);
                                    assert(false);
                                }
                                assert(a < i as int || (a == i as int && b < j as int));
                                assert(combined_up_to(w, d1, d2, checking@, k, i as int, j as int));
                                assert(f.words().contains(w));
                            }
                        }
                    }
                }
                j += 1;
            }
            proof {
                assert forall|w: Seq<u8>|
                    f.words().contains(w) <==> #[trigger] combined_up_to(
                        w,
                        d1,
                        d2,
                        checking@,
                        k,
                        i as int + 1,
                        0,
                    ) by {
                    if f.words().contains(w) {
                        assert(combined_up_to(w, d1, d2, checking@, k, i as int, ws2@.len() as int));
                        let (a, b) = choose|a: int, b: int|
                            #![trigger d1.ext_words()[a], d2.ext_words()[b]]
                            0 <= a < d1.ext_words().len() && 0 <= b < d2.ext_words().len() && (a
                                < i as int || (a == i as int && b < ws2@.len() as int))
                                && pair_candidate(
                                w,
                                d1.ext_words()[a],
                                d2.ext_words()[b],
                                common,
                                csizes,
                                checking@,
                            );
                        assert(a < i as int + 1 || (a == i as int + 1 && b < 0));
                        assert(combined_up_to(w, d1, d2, checking@, k, i as int + 1, 0));
                    }
                    if combined_up_to(w, d1, d2, checking@, k, i as int + 1, 0) {
                        let (a, b) = choose|a: int, b: int|
                            #![trigger d1.ext_words()[a], d2.ext_words()[b]]
                            0 <= a < d1.ext_words().len() && 0 <= b < d2.ext_words().len() && (a
                                < i as int + 1 || (a == i as int + 1 && b < 0)) && pair_candidate(
                                w,
                                d1.ext_words()[a],
                                d2.ext_words()[b],
                                common,
                                csizes,
                                checking@,
                            );
                        assert(a < i as int || (a == i as int && b < ws2@.len() as int));
                        assert(combined_up_to(w, d1, d2, checking@, k, i as int, ws2@.len() as int));
                        assert(f.words().contains(w));
                    }
                }
            }
            i += 1;
        }
        proof {
            assert forall|w: Seq<u8>|
                f.words().contains(w) <==> #[trigger] is_combined_word(
                    w,
                    d1,
                    d2,
                    checking@,
                    k,
                ) by {
                if f.words().contains(w) {
                    assert(combined_up_to(w, d1, d2, checking@, k, ws1@.len() as int, 0));
                    let (a, b) = choose|a: int, b: int|
                        #![trigger d1.ext_words()[a], d2.ext_words()[b]]
                        0 <= a < d1.ext_words().len() && 0 <= b < d2.ext_words().len() && (a
                            < ws1@.len() as int || (a == ws1@.len() as int && b < 0))
                            && pair_candidate(
                            w,
                            d1.ext_words()[a],
                            d2.ext_words()[b],
                            common,
                            csizes,
                            checking@,
                        );
                    assert(is_combined_word(w, d1, d2, checking@, k));
                }
                if is_combined_word(w, d1, d2, checking@, k) {
                    let (a, b) = choose|a: int, b: int|
                        #![trigger d1.ext_words()[a], d2.ext_words()[b]]
                        0 <= a < d1.ext_words().len() && 0 <= b < d2.ext_words().len()
                            && pair_candidate(
                            w,
                            d1.ext_words()[a],
                            d2.ext_words()[b],
                            common,
                            csizes,
                            checking@,
                        );
                    assert(a < ws1@.len() as int || (a == ws1@.len() as int && b < 0));
                    assert(combined_up_to(w, d1, d2, checking@, k, ws1@.len() as int, 0));
                    assert(f.words().contains(w));
                }
            }
        }
        f
    }
}


/// Projecting any accepted word of a combined set onto either input view's
/// slots yields an accepted word of that view.
pub proof fn lemma_combined_word_projects(
    w: Seq<u8>,
    d1: MappedFDTS,
    d2: MappedFDTS,
    checking: Seq<MappedFDTS>,
    k: nat,
)
    requires
        d1.wf(),
        d2.wf(),
        d1.compatible(d2),
        covers_all(d1, d2),
        is_combined_word(w, d1, d2, checking, k),
    ensures
        exists|a: int|
            0 <= a < d1.ext_words().len() && proj(w, d1.map@) == #[trigger] d1.ext_words()[a],
        exists|b: int|
            0 <= b < d2.ext_words().len() && proj(w, d2.map@) == #[trigger] d2.ext_words()[b],
{
    let (a, b) = choose|a: int, b: int|
        #![trigger d1.ext_words()[a], d2.ext_words()[b]]
        0 <= a < d1.ext_words().len() && 0 <= b < d2.ext_words().len() && pair_candidate(
            w,
            d1.ext_words()[a],
            d2.ext_words()[b],
            crate::words::filter_common(d1.map@, d2.map@),
            combined_sizes(d1, d2),
            checking,
        );
    lemma_candidate_wf_word(w, d1, d2, checking, a, b);
}


/// Two slot lists with the same members.
pub open spec fn same_slots(s1: Seq<usize>, s2: Seq<usize>) -> bool {
    forall|x: usize| #[trigger] s1.contains(x) <==> s2.contains(x)
}

/// Interleaving is symmetric in its two inputs when their keys agree, and it
/// sees the common slots only through membership.
pub proof fn lemma_merges_sym(w1: Seq<u8>, w2: Seq<u8>, c1: Seq<usize>, c2: Seq<usize>)
    requires
        same_slots(c1, c2),
        proj(w1, c1) == proj(w2, c1),
    ensures
        merges(w1, w2, c1) == merges(w2, w1, c2),
    decreases w1.len() + w2.len(),
{
    if w1.len() == 0 || w2.len() == 0 {
        if w1.len() == 0 && w2.len() == 0 {
        } else if w1.len() == 0 {
            assert(merges(w1, w2, c1) == set![w2]);
            assert(merges(w2, w1, c2) == set![w2]);
        } else {
            assert(merges(w1, w2, c1) == set![w1]);
            assert(merges(w2, w1, c2) == set![w1]);
        }
    } else if w1[0] == w2[0] {
        let c = w1[0];
        if c1.contains(c as usize) {
            assert(proj(w1, c1) == seq![c] + proj(w1.skip(1), c1));
            assert(proj(w2, c1) == seq![c] + proj(w2.skip(1), c1));
            assert(proj(w1.skip(1), c1) =~= (seq![c] + proj(w1.skip(1), c1)).skip(1));
            assert(proj(w2.skip(1), c1) =~= (seq![c] + proj(w2.skip(1), c1)).skip(1));
        }
        lemma_merges_sym(w1.skip(1), w2.skip(1), c1, c2);
    } else if c1.contains(w1[0] as usize) {
        assert(!c1.contains(w2[0] as usize)) by {
            if c1.contains(w2[0] as usize) {
                assert(proj(w1, c1) == seq![w1[0]] + proj(w1.skip(1), c1));
                assert(proj(w2, c1) == seq![w2[0]] + proj(w2.skip(1), c1));
                assert(proj(w1, c1)[0] == w1[0]);
                assert(proj(w2, c1)[0] == w2[0]);
            }
        }
        assert(proj(w2.skip(1), c1) == proj(w2, c1));
        lemma_merges_sym(w1, w2.skip(1), c1, c2);
        assert(c2.contains(w1[0] as usize));
        assert(!c2.contains(w2[0] as usize));
        assert(merges(w2, w1, c2) == prepend(w2[0], merges(w2.skip(1), w1, c2)));
        assert(merges(w2.skip(1), w1, c2) == merges(w1, w2.skip(1), c1));
    } else if c1.contains(w2[0] as usize) {
        assert(proj(w1.skip(1), c1) == proj(w1, c1));
        lemma_merges_sym(w1.skip(1), w2, c1, c2);
        assert(c2.contains(w2[0] as usize));
        assert(!c2.contains(w1[0] as usize));
        assert(merges(w2, w1, c2) == prepend(w1[0], merges(w2, w1.skip(1), c2)));
        assert(merges(w2, w1.skip(1), c2) == merges(w1.skip(1), w2, c1));
    } else {
        assert(proj(w1.skip(1), c1) == proj(w1, c1));
        assert(proj(w2.skip(1), c1) == proj(w2, c1));
        lemma_merges_sym(w1.skip(1), w2, c1, c2);
        lemma_merges_sym(w1, w2.skip(1), c1, c2);
        assert(!c2.contains(w1[0] as usize));
        assert(!c2.contains(w2[0] as usize));
        assert(merges(w2, w1, c2) == prepend(w2[0], merges(w2.skip(1), w1, c2)).union(
            prepend(w1[0], merges(w2, w1.skip(1), c2)),
        ));
        assert(merges(w2.skip(1), w1, c2) == merges(w1, w2.skip(1), c1));
        assert(merges(w2, w1.skip(1), c2) == merges(w1.skip(1), w2, c1));
        assert(prepend(w1[0], merges(w1.skip(1), w2, c1)).union(
            prepend(w2[0], merges(w1, w2.skip(1), c1)),
        ) =~= prepend(w2[0], merges(w2.skip(1), w1, c2)).union(
            prepend(w1[0], merges(w2, w1.skip(1), c2)),
        ));
    }
}

/// As `lemma_merges_sym`, under the canonical gates.
pub proof fn lemma_merges_lex_sym(
    w1: Seq<u8>,
    w2: Seq<u8>,
    c1: Seq<usize>,
    c2: Seq<usize>,
    cg: Seq<bool>,
    icg: Seq<usize>,
)
    requires
        same_slots(c1, c2),
        proj(w1, c1) == proj(w2, c1),
    ensures
        merges_lex(w1, w2, c1, cg, icg) == merges_lex(w2, w1, c2, cg, icg),
    decreases w1.len() + w2.len(),
{
    if w1.len() == 0 || w2.len() == 0 {
        if w1.len() == 0 && w2.len() == 0 {
        } else if w1.len() == 0 {
            assert(merges_lex(w1, w2, c1, cg, icg) == set![w2]);
            assert(merges_lex(w2, w1, c2, cg, icg) == set![w2]);
        } else {
            assert(merges_lex(w1, w2, c1, cg, icg) == set![w1]);
            assert(merges_lex(w2, w1, c2, cg, icg) == set![w1]);
        }
    } else if forall|t: int| 0 <= t < cg.len() ==> #[trigger] cg[t] {
        lemma_merges_sym(w1, w2, c1, c2);
    } else if w1[0] == w2[0] {
        let c = w1[0];
        if c1.contains(c as usize) {
            assert(proj(w1, c1) == seq![c] + proj(w1.skip(1), c1));
            assert(proj(w2, c1) == seq![c] + proj(w2.skip(1), c1));
            assert(proj(w1.skip(1), c1) =~= (seq![c] + proj(w1.skip(1), c1)).skip(1));
            assert(proj(w2.skip(1), c1) =~= (seq![c] + proj(w2.skip(1), c1)).skip(1));
        }
        lemma_merges_lex_sym(w1.skip(1), w2.skip(1), c1, c2, upgrade(cg, icg, c), icg);
    } else if c1.contains(w1[0] as usize) {
        assert(!c1.contains(w2[0] as usize)) by {
            if c1.contains(w2[0] as usize) {
                assert(proj(w1, c1) == seq![w1[0]] + proj(w1.skip(1), c1));
                assert(proj(w2, c1) == seq![w2[0]] + proj(w2.skip(1), c1));
                assert(proj(w1, c1)[0] == w1[0]);
                assert(proj(w2, c1)[0] == w2[0]);
            }
        }
        assert(proj(w2.skip(1), c1) == proj(w2, c1));
        lemma_merges_lex_sym(w1, w2.skip(1), c1, c2, upgrade(cg, icg, w2[0]), icg);
        assert(c2.contains(w1[0] as usize));
        assert(!c2.contains(w2[0] as usize));
        assert(merges_lex(w2, w1, c2, cg, icg) == push_lex(w2[0], w2.skip(1), w1, c2, cg, icg));
        assert(merges_lex(w2.skip(1), w1, c2, upgrade(cg, icg, w2[0]), icg) == merges_lex(
            w1,
            w2.skip(1),
            c1,
            upgrade(cg, icg, w2[0]),
            icg,
        ));
    } else if c1.contains(w2[0] as usize) {
        assert(proj(w1.skip(1), c1) == proj(w1, c1));
        lemma_merges_lex_sym(w1.skip(1), w2, c1, c2, upgrade(cg, icg, w1[0]), icg);
        assert(c2.contains(w2[0] as usize));
        assert(!c2.contains(w1[0] as usize));
        assert(merges_lex(w2, w1, c2, cg, icg) == push_lex(w1[0], w2, w1.skip(1), c2, cg, icg));
        assert(merges_lex(w2, w1.skip(1), c2, upgrade(cg, icg, w1[0]), icg) == merges_lex(
            w1.skip(1),
            w2,
            c1,
            upgrade(cg, icg, w1[0]),
            icg,
        ));
    } else {
        assert(proj(w1.skip(1), c1) == proj(w1, c1));
        assert(proj(w2.skip(1), c1) == proj(w2, c1));
        assert(!c2.contains(w1[0] as usize));
        assert(!c2.contains(w2[0] as usize));
        lemma_merges_lex_sym(w1.skip(1), w2, c1, c2, upgrade(cg, icg, w1[0]), icg);
        lemma_merges_lex_sym(w1, w2.skip(1), c1, c2, upgrade(cg, icg, w2[0]), icg);
        assert(merges_lex(w2, w1, c2, cg, icg) == push_lex(
            w2[0],
            w2.skip(1),
            w1,
            c2,
            cg,
            icg,
        ).union(push_lex(w1[0], w2, w1.skip(1), c2, cg, icg)));
        assert(merges_lex(w2.skip(1), w1, c2, upgrade(cg, icg, w2[0]), icg) == merges_lex(
            w1,
            w2.skip(1),
            c1,
            upgrade(cg, icg, w2[0]),
            icg,
        ));
        assert(merges_lex(w2, w1.skip(1), c2, upgrade(cg, icg, w1[0]), icg) == merges_lex(
            w1.skip(1),
            w2,
            c1,
            upgrade(cg, icg, w1[0]),
            icg,
        ));
        assert(push_lex(w1[0], w1.skip(1), w2, c1, cg, icg).union(
            push_lex(w2[0], w1, w2.skip(1), c1, cg, icg),
        ) =~= push_lex(w2[0], w2.skip(1), w1, c2, cg, icg).union(
            push_lex(w1[0], w2, w1.skip(1), c2, cg, icg),
        ));
    }
}


/// Combining is symmetric in its two primary inputs: both orders accept
/// exactly the same words.
pub proof fn lemma_combine_symmetric(
    w: Seq<u8>,
    d1: MappedFDTS,
    d2: MappedFDTS,
    checking: Seq<MappedFDTS>,
    k: nat,
)
    requires
        d1.wf(),
        d2.wf(),
        d1.compatible(d2),
        covers_all(d1, d2),
    ensures
        is_combined_word(w, d1, d2, checking, k) <==> is_combined_word(w, d2, d1, checking, k),
{
    let c12 = crate::words::filter_common(d1.map@, d2.map@);
    let c21 = crate::words::filter_common(d2.map@, d1.map@);
    crate::words::lemma_filter_common_member(d1.map@, d2.map@);
    crate::words::lemma_filter_common_member(d2.map@, d1.map@);
    assert(same_slots(c12, c21));
    assert(combined_sizes(d1, d2) =~= combined_sizes(d2, d1)) by {
        assert forall|j: int|
            0 <= j < d1.back@.len() implies combined_sizes(d1, d2)[j] == combined_sizes(d2, d1)[j] by {
            if d1.back@[j] is Some && d2.back@[j] is Some {
                assert(d1.ext_size(j) == d2.ext_size(j));
            }
        }
    }
    let sizes = combined_sizes(d1, d2);
    if is_combined_word(w, d1, d2, checking, k) {
        let (a, b) = choose|a: int, b: int|
            #![trigger d1.ext_words()[a], d2.ext_words()[b]]
            0 <= a < d1.ext_words().len() && 0 <= b < d2.ext_words().len() && pair_candidate(
                w,
                d1.ext_words()[a],
                d2.ext_words()[b],
                c12,
                sizes,
                checking,
            );
        let ew1 = d1.ext_words()[a];
        let ew2 = d2.ext_words()[b];
        crate::words::lemma_proj_equiv(ew1, c12, c21);
        crate::words::lemma_proj_equiv(ew2, c12, c21);
        lemma_merges_lex_sym(ew1, ew2, c12, c21, init_cg(sizes), init_icg(sizes));
        assert(pair_candidate(w, ew2, ew1, c21, combined_sizes(d2, d1), checking));
        assert(is_combined_word(w, d2, d1, checking, k));
    }
    if is_combined_word(w, d2, d1, checking, k) {
        let (b, a) = choose|b: int, a: int|
            #![trigger d2.ext_words()[b], d1.ext_words()[a]]
            0 <= b < d2.ext_words().len() && 0 <= a < d1.ext_words().len() && pair_candidate(
                w,
                d2.ext_words()[b],
                d1.ext_words()[a],
                c21,
                combined_sizes(d2, d1),
                checking,
            );
        let ew1 = d1.ext_words()[a];
        let ew2 = d2.ext_words()[b];
        crate::words::lemma_proj_equiv(ew1, c21, c12);
        crate::words::lemma_proj_equiv(ew2, c21, c12);
        lemma_merges_lex_sym(ew2, ew1, c21, c12, init_cg(sizes), init_icg(sizes));
        assert(pair_candidate(w, ew1, ew2, c12, sizes, checking));
        assert(is_combined_word(w, d1, d2, checking, k));
    }
}


/// The converse of `lemma_merge_projects`: together they say that the
/// interleavings of two words are exactly the words over the joint slots
/// whose projections onto either side's slots recover that side's word.
pub proof fn lemma_merges_characterization(
    z: Seq<u8>,
    w1: Seq<u8>,
    w2: Seq<u8>,
    common: Seq<usize>,
    slots1: Seq<usize>,
    slots2: Seq<usize>,
)
    requires
        forall|x: usize| #[trigger]
            common.contains(x) <==> (slots1.contains(x) && slots2.contains(x)),
        forall|p: int|
            0 <= p < z.len() ==> slots1.contains(#[trigger] z[p] as usize) || slots2.contains(
                z[p] as usize,
            ),
        forall|p: int| 0 <= p < w1.len() ==> slots1.contains(#[trigger] w1[p] as usize),
        forall|p: int| 0 <= p < w2.len() ==> slots2.contains(#[trigger] w2[p] as usize),
        proj(z, slots1) == w1,
        proj(z, slots2) == w2,
    ensures
        merges(w1, w2, common).contains(z),
    decreases z.len(),
{
    if z.len() == 0 {
        assert(w1 =~= Seq::<u8>::empty());
        assert(w2 =~= Seq::<u8>::empty());
        assert(z =~= Seq::<u8>::empty());
        assert(merges(w1, w2, common).contains(z));
    } else {
        let c = z[0];
        let z2 = z.skip(1);
        assert forall|p: int|
            0 <= p < z2.len() implies slots1.contains(#[trigger] z2[p] as usize) || slots2.contains(
            z2[p] as usize,
        ) by {
            assert(z2[p] == z[p + 1]);
        }
        if w1.len() == 0 {
            crate::words::lemma_proj_empty_means(z, slots1);
            crate::words::lemma_proj_id(z, slots2);
            assert(z == w2);
            assert(w2.len() > 0);
            assert(merges(w1, w2, common) == set![w2]);
        } else if w2.len() == 0 {
            crate::words::lemma_proj_empty_means(z, slots2);
            crate::words::lemma_proj_id(z, slots1);
            assert(z == w1);
            assert(w1.len() > 0);
            assert(merges(w1, w2, common) == set![w1]);
        } else if w1[0] == w2[0] {
            let c0 = w1[0];
            assert(slots1.contains(c0 as usize));
            assert(slots2.contains(c0 as usize));
            assert(c == c0) by {
                if slots1.contains(c as usize) {
                    assert(proj(z, slots1) == seq![c] + proj(z2, slots1));
                    assert(w1[0] == c);
                } else {
                    assert(slots2.contains(c as usize));
                    assert(proj(z, slots2) == seq![c] + proj(z2, slots2));
                    assert(w2[0] == c);
                }
            }
            assert(proj(z, slots1) == seq![c] + proj(z2, slots1));
            assert(proj(z, slots2) == seq![c] + proj(z2, slots2));
            assert(proj(z2, slots1) =~= w1.skip(1));
            assert(proj(z2, slots2) =~= w2.skip(1));
            lemma_tail_letters(w1);
            lemma_tail_letters(w2);
            lemma_merges_characterization(z2, w1.skip(1), w2.skip(1), common, slots1, slots2);
            assert(prepend(c0, merges(w1.skip(1), w2.skip(1), common)).contains(z));
        } else if common.contains(w1[0] as usize) {
            assert(!slots1.contains(c as usize)) by {
                if slots1.contains(c as usize) {
                    assert(proj(z, slots1) == seq![c] + proj(z2, slots1));
                    assert(w1[0] == c);
                    assert(slots2.contains(c as usize));
                    assert(proj(z, slots2) == seq![c] + proj(z2, slots2));
                    assert(w2[0] == c);
                }
            }
            assert(slots2.contains(c as usize));
            assert(proj(z, slots2) == seq![c] + proj(z2, slots2));
            assert(w2[0] == c);
            assert(proj(z2, slots2) =~= w2.skip(1));
            assert(proj(z2, slots1) == proj(z, slots1));
            lemma_tail_letters(w2);
            lemma_merges_characterization(z2, w1, w2.skip(1), common, slots1, slots2);
            assert(prepend(w2[0], merges(w1, w2.skip(1), common)).contains(z));
        } else if common.contains(w2[0] as usize) {
            assert(!slots2.contains(c as usize)) by {
                if slots2.contains(c as usize) {
                    assert(proj(z, slots2) == seq![c] + proj(z2, slots2));
                    assert(w2[0] == c);
                    assert(slots1.contains(c as usize));
                    assert(proj(z, slots1) == seq![c] + proj(z2, slots1));
                    assert(w1[0] == c);
                }
            }
            assert(slots1.contains(c as usize));
            assert(proj(z, slots1) == seq![c] + proj(z2, slots1));
            assert(w1[0] == c);
            assert(proj(z2, slots1) =~= w1.skip(1));
            assert(proj(z2, slots2) == proj(z, slots2));
            lemma_tail_letters(w1);
            lemma_merges_characterization(z2, w1.skip(1), w2, common, slots1, slots2);
            assert(prepend(w1[0], merges(w1.skip(1), w2, common)).contains(z));
        } else {
            if slots1.contains(c as usize) {
                assert(proj(z, slots1) == seq![c] + proj(z2, slots1));
                assert(w1[0] == c);
                assert(!slots2.contains(c as usize)) by {
                    if slots2.contains(c as usize) {
                        assert(common.contains(c as usize));
                    }
                }
                assert(proj(z2, slots1) =~= w1.skip(1));
                assert(proj(z2, slots2) == proj(z, slots2));
                lemma_tail_letters(w1);
                lemma_merges_characterization(z2, w1.skip(1), w2, common, slots1, slots2);
                assert(prepend(w1[0], merges(w1.skip(1), w2, common)).contains(z));
            } else {
                assert(slots2.contains(c as usize));
                assert(proj(z, slots2) == seq![c] + proj(z2, slots2));
                assert(w2[0] == c);
                assert(proj(z2, slots2) =~= w2.skip(1));
                assert(proj(z2, slots1) == proj(z, slots1));
                lemma_tail_letters(w2);
                lemma_merges_characterization(z2, w1, w2.skip(1), common, slots1, slots2);
                assert(prepend(w2[0], merges(w1, w2.skip(1), common)).contains(z));
            }
        }
    }
}

} // verus!
