//! The frequency aggregator's accumulation: pretoken pieces folded into a
//! table of distinct pretokens with their occurrence counts, in first-seen
//! order, so that the whole training run is a function of its input.

use vstd::prelude::*;
use crate::TrainError;

verus! {

/// How many pieces of `ps` are exactly `k`.
pub open spec fn count_occ(ps: Seq<Seq<char>>, k: Seq<char>) -> int
    decreases ps.len(),
{
    if ps.len() == 0 {
        0
    } else {
        count_occ(ps.drop_last(), k) + (if ps.last() == k {
            1int
        } else {
            0int
        })
    }
}

/// The distinct pieces of `ps` in order of first occurrence.
pub open spec fn firsts(ps: Seq<Seq<char>>) -> Seq<Seq<char>>
    decreases ps.len(),
{
    if ps.len() == 0 {
        Seq::<Seq<char>>::empty()
    } else if firsts(ps.drop_last()).contains(ps.last()) {
        firsts(ps.drop_last())
    } else {
        firsts(ps.drop_last()).push(ps.last())
    }
}

/// The pretoken keys a count table holds, in order.
pub open spec fn keys_of(cs: Seq<(String, u64)>) -> Seq<Seq<char>> {
    cs.map(|i: int, e: (String, u64)| e.0@)
}

/// Occurrence counts only grow as more pieces arrive.
pub proof fn lemma_count_occ_grows(ps: Seq<Seq<char>>, qs: Seq<Seq<char>>, k: Seq<char>)
    requires
        ps.len() <= qs.len(),
        qs.take(ps.len() as int) == ps,
    ensures
        count_occ(ps, k) <= count_occ(qs, k),
    decreases qs.len() - ps.len(),
{
    if ps.len() < qs.len() {
        assert(qs.drop_last().take(ps.len() as int) =~= ps);
        lemma_count_occ_grows(ps, qs.drop_last(), k);
    } else {
        assert(qs.take(ps.len() as int) =~= qs);
    }
}

/// The running pretoken-frequency table: one row per distinct pretoken seen
/// so far, with how often it occurred; rows in first-seen order.
pub struct FreqCounter {
    pub counts: Vec<(String, u64)>,
    pub pieces: Ghost<Seq<Seq<char>>>,
}

impl FreqCounter {
    /// The table agrees with the pieces consumed so far.
    pub open spec fn wf(&self) -> bool {
        &&& keys_of(self.counts@) == firsts(self.pieces@)
        &&& forall|i: int|
            0 <= i < self.counts@.len() ==> (#[trigger] self.counts@[i]).1 == count_occ(
                self.pieces@,
                self.counts@[i].0@,
            )
        &&& forall|i: int| 0 <= i < self.counts@.len() ==> (#[trigger] self.counts@[i]).1 >= 1
        &&& forall|i: int, j: int|
            0 <= i < self.counts@.len() && 0 <= j < self.counts@.len() && i != j ==> (
            #[trigger] self.counts@[i]).0@ != (#[trigger] self.counts@[j]).0@
    }

    pub fn new() -> (r: FreqCounter)
        ensures
            r.wf(),
            r.pieces@ == Seq::<Seq<char>>::empty(),
            r.counts@.len() == 0,
    {
        let r = FreqCounter { counts: Vec::new(), pieces: Ghost(Seq::empty()) };
        proof {
            assert(keys_of(r.counts@) =~= firsts(r.pieces@));
        }
        r
    }

    /// Counts one piece. Fails only when the piece's running count no longer
    /// fits in 64 bits, in which case its true corpus count does not either.
    #[verifier::loop_isolation(false)]
    pub fn add_piece(&mut self, s: &String) -> (r: Result<(), TrainError>)
        requires
            old(self).wf(),
        ensures
            final(self).wf(),
            final(self).counts@.len() >= 1,
            r is Ok ==> final(self).pieces@ == old(self).pieces@.push(s@),
            r is Err ==> r == Err::<(), TrainError>(TrainError::CorpusTooLarge) && final(self).counts@
                == old(self).counts@ && final(self).pieces@ == old(self).pieces@ && count_occ(
                old(self).pieces@.push(s@),
                s@,
            ) > u64::MAX,
    {
        let ghost pp = self.pieces@;
        let ghost pp2 = self.pieces@.push(s@);
        proof {
            assert(pp2.drop_last() =~= pp);
            assert(pp2.last() == s@);
        }
        let n = self.counts.len();
        let mut i: usize = 0;
        while i < n
            invariant
                i <= n,
                self.counts@ == old(self).counts@,
                self.pieces@ == old(self).pieces@,
                forall|j: int| 0 <= j < i ==> (#[trigger] self.counts@[j]).0@ != s@,
            decreases n - i,
        {
            if s.eq(&self.counts[i].0) {
                let c = self.counts[i].1;
                if c == u64::MAX {
                    proof {
                        assert(self.counts@[i as int].0@ == s@);
                        assert(self.counts@[i as int].1 == count_occ(pp, self.counts@[i as int].0@));
                        assert(count_occ(pp, s@) == u64::MAX);
                        assert(count_occ(pp2, s@) == count_occ(pp, s@) + 1);
                    }
                    return Err(TrainError::CorpusTooLarge);
                }
                let key = self.counts[i].0.clone();
                self.counts.set(i, (key, c + 1));
                proof {
                    self.pieces@ = pp2;
                    assert(keys_of(self.counts@) =~= firsts(pp));
                    assert(firsts(pp).contains(s@)) by {
                        assert(keys_of(self.counts@)[i as int] == s@);
                    }
                    assert(firsts(pp2) == firsts(pp));
                    assert forall|j: int|
                        0 <= j < self.counts@.len() implies (#[trigger] self.counts@[j]).1
                        == count_occ(pp2, self.counts@[j].0@) by {
                        assert(count_occ(pp2, self.counts@[j].0@) == count_occ(
                            pp,
                            self.counts@[j].0@,
                        ) + (if s@ == self.counts@[j].0@ {
                            1int
                        } else {
                            0int
                        }));
                    }
                }
                return Ok(());
            }
            i = i + 1;
        }
        // a fresh pretoken
        self.counts.push((s.clone(), 1));
        proof {
            self.pieces@ = pp2;
            assert(!firsts(pp).contains(s@)) by {
                if firsts(pp).contains(s@) {
                    let j = choose|j: int| 0 <= j < firsts(pp).len() && firsts(pp)[j] == s@;
                    assert(keys_of(old(self).counts@)[j] == s@);
                    assert(old(self).counts@[j].0@ == s@);
                }
            }
            assert(firsts(pp2) == firsts(pp).push(s@));
            assert(keys_of(self.counts@) =~= firsts(pp2));
            assert forall|j: int|
                0 <= j < self.counts@.len() implies (#[trigger] self.counts@[j]).1 == count_occ(
                pp2,
                self.counts@[j].0@,
            ) by {
                if j < self.counts@.len() - 1 {
                    assert(self.counts@[j] == old(self).counts@[j]);
                    assert(count_occ(pp2, self.counts@[j].0@) == count_occ(
                        pp,
                        self.counts@[j].0@,
                    ) + (if s@ == self.counts@[j].0@ {
                        1int
                    } else {
                        0int
                    }));
                    assert(self.counts@[j].0@ != s@) by {
                        if self.counts@[j].0@ == s@ {
                            assert(keys_of(old(self).counts@)[j] == s@);
                            assert(firsts(pp).contains(s@));
                        }
                    }
                } else {
                    assert(count_occ(pp2, s@) == count_occ(pp, s@) + 1);
                    assert(count_occ(pp, s@) == 0) by {
                        lemma_count_absent(pp, s@);
                    }
                }
            }
            assert forall|i1: int, j1: int|
                0 <= i1 < self.counts@.len() && 0 <= j1 < self.counts@.len() && i1 != j1 implies (
            #[trigger] self.counts@[i1]).0@ != (#[trigger] self.counts@[j1]).0@ by {
                if i1 == self.counts@.len() - 1 || j1 == self.counts@.len() - 1 {
                    let o = if i1 == self.counts@.len() - 1 {
                        j1
                    } else {
                        i1
                    };
                    if old(self).counts@[o].0@ == s@ {
                        assert(keys_of(old(self).counts@)[o] == s@);
                        assert(firsts(pp).contains(s@));
                    }
                }
            }
        }
        Ok(())
    }
}

/// A piece that the table does not key occurs zero times so far.
pub proof fn lemma_count_absent(ps: Seq<Seq<char>>, k: Seq<char>)
    requires
        !firsts(ps).contains(k),
    ensures
        count_occ(ps, k) == 0,
    decreases ps.len(),
{
    if ps.len() > 0 {
        assert(!firsts(ps.drop_last()).contains(k)) by {
            if firsts(ps.drop_last()).contains(k) {
                let j = choose|j: int|
                    0 <= j < firsts(ps.drop_last()).len() && firsts(ps.drop_last())[j] == k;
                if firsts(ps.drop_last()).contains(ps.last()) {
                    assert(firsts(ps)[j] == k);
                } else {
                    assert(firsts(ps)[j] == k);
                }
            }
        }
        lemma_count_absent(ps.drop_last(), k);
        assert(ps.last() != k) by {
            if ps.last() == k {
                if firsts(ps.drop_last()).contains(ps.last()) {
                } else {
                    assert(firsts(ps).last() == k);
                }
            }
        }
    }
}

} // verus!
