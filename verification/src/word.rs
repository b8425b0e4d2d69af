//! A word: the symbol sequence of one distinct pretoken together with its
//! corpus frequency, rewritten in place as merges are applied to it.

use vstd::prelude::*;
use crate::model::{
    pair_count, merged, delta_sum, Pair, lemma_merge_site_deltas, lemma_delta_sum_push,
};

verus! {

/// One distinct pretoken under training: its current symbol sequence and the
/// number of times the pretoken occurs in the corpus.
pub struct Word {
    pub ids: Vec<u32>,
    pub freq: u64,
}

impl View for Word {
    type V = (Seq<u32>, u64);

    open spec fn view(&self) -> (Seq<u32>, u64) {
        (self.ids@, self.freq)
    }
}

impl DeepView for Word {
    type V = (Seq<u32>, u64);

    open spec fn deep_view(&self) -> (Seq<u32>, u64) {
        self@
    }
}

/// Rewrites `ids` by replacing every non-overlapping left-to-right occurrence
/// of `p` with `nid`, and returns the rewritten sequence together with the
/// list of signed pair-count adjustments the rewrite induces: the merged pair
/// and the junction pairs with each site's neighbors are removed, the
/// junction pairs with `nid` appear.
pub fn merge_ids(ids: &Vec<u32>, p: Pair, nid: u32) -> (r: (Vec<u32>, Vec<(Pair, i64)>))
    ensures
        r.0@ == merged(ids@, p, nid),
        forall|q: Pair| #[trigger] delta_sum(r.1@, q) == pair_count(merged(ids@, p, nid), q)
            - pair_count(ids@, q),
{
    let ghost s = ids@;
    let n = ids.len();
    let mut out: Vec<u32> = Vec::new();
    let mut deltas: Vec<(Pair, i64)> = Vec::new();
    let mut i: usize = 0;
    proof {
        assert(s.skip(0) =~= s);
        assert(out@ + merged(s, p, nid) =~= merged(s, p, nid));
        assert(out@ + s =~= s);
    }
    while i < n
        invariant
            n == s.len(),
            s == ids@,
            i <= n,
            out@ + merged(s.skip(i as int), p, nid) == merged(s, p, nid),
            forall|q: Pair| #[trigger] delta_sum(deltas@, q) == pair_count(
                out@ + s.skip(i as int),
                q,
            ) - pair_count(s, q),
        decreases n - i,
    {
        let ghost u = out@;
        let ghost ds0 = deltas@;
        if i + 1 < n && ids[i] == p.0 && ids[i + 1] == p.1 {
            let ghost wtail = s.skip(i as int + 2);
            if out.len() > 0 {
                let x = out[out.len() - 1];
                deltas.push(((x, p.0), -1));
                deltas.push(((x, nid), 1));
            }
            deltas.push(((p.0, p.1), -1));
            if i + 2 < n {
                let y = ids[i + 2];
                deltas.push(((p.1, y), -1));
                deltas.push(((nid, y), 1));
            }
            out.push(nid);
            i = i + 2;
            proof {
                assert(s.skip(i - 2) =~= seq![p.0, p.1] + wtail);
                assert((seq![p.0, p.1] + wtail)[0] == p.0);
                assert((seq![p.0, p.1] + wtail)[1] == p.1);
                assert((seq![p.0, p.1] + wtail).skip(2) =~= wtail);
                assert(merged(s.skip(i - 2), p, nid) == seq![nid] + merged(wtail, p, nid));
                assert(out@ + merged(wtail, p, nid) =~= u + merged(s.skip(i - 2), p, nid));
                // the delta bookkeeping for this site
                assert(u + seq![p.0, p.1] + wtail =~= u + s.skip(i - 2));
                assert(u + seq![nid] + wtail =~= out@ + s.skip(i as int));
                if u.len() > 0 {
                    let ghost d1 = ds0.push(((u.last(), p.0), -1i64));
                    let ghost d2 = d1.push(((u.last(), nid), 1i64));
                    let ghost d3 = d2.push(((p.0, p.1), -1i64));
                    lemma_delta_sum_push(ds0, ((u.last(), p.0), -1i64));
                    lemma_delta_sum_push(d1, ((u.last(), nid), 1i64));
                    lemma_delta_sum_push(d2, ((p.0, p.1), -1i64));
                    if wtail.len() > 0 {
                        let ghost d4 = d3.push(((p.1, wtail[0]), -1i64));
                        lemma_delta_sum_push(d3, ((p.1, wtail[0]), -1i64));
                        lemma_delta_sum_push(d4, ((nid, wtail[0]), 1i64));
                        assert(deltas@ == d4.push(((nid, wtail[0]), 1i64)));
                    } else {
                        assert(deltas@ == d3);
                    }
                } else {
                    let ghost d3 = ds0.push(((p.0, p.1), -1i64));
                    lemma_delta_sum_push(ds0, ((p.0, p.1), -1i64));
                    if wtail.len() > 0 {
                        let ghost d4 = d3.push(((p.1, wtail[0]), -1i64));
                        lemma_delta_sum_push(d3, ((p.1, wtail[0]), -1i64));
                        lemma_delta_sum_push(d4, ((nid, wtail[0]), 1i64));
                        assert(deltas@ == d4.push(((nid, wtail[0]), 1i64)));
                    } else {
                        assert(deltas@ == d3);
                    }
                }
                assert forall|q: Pair| #[trigger] delta_sum(deltas@, q) == pair_count(
                    out@ + s.skip(i as int),
                    q,
                ) - pair_count(s, q) by {
                    lemma_merge_site_deltas(u, wtail, p, nid, q);
                }
            }
        } else {
            out.push(ids[i]);
            i = i + 1;
            proof {
                assert(s.skip(i - 1).len() == n - i + 1);
                assert(s.skip(i - 1)[0] == s[i - 1]);
                assert(s.skip(i - 1).skip(1) =~= s.skip(i as int));
                if n - i >= 1 {
                    assert(s.skip(i - 1)[1] == s[i as int]);
                }
                assert(merged(s.skip(i - 1), p, nid) == seq![s[i - 1]] + merged(
                    s.skip(i as int),
                    p,
                    nid,
                ));
                assert(out@ + merged(s.skip(i as int), p, nid) =~= u + merged(s.skip(i - 1), p, nid));
                assert(out@ + s.skip(i as int) =~= u + s.skip(i - 1));
            }
        }
    }
    proof {
        assert(s.skip(n as int) =~= Seq::<u32>::empty());
        assert(out@ + merged(s.skip(n as int), p, nid) =~= out@);
        assert(out@ + s.skip(n as int) =~= out@);
    }
    (out, deltas)
}

/// The number of adjacent positions of `ids` that hold the pair `p`:
/// the brute-force rescan count for one word.
pub fn count_pair(ids: &Vec<u32>, p: Pair) -> (r: u64)
    ensures
        r == pair_count(ids@, p),
{
    proof {
        crate::model::lemma_pair_count_nonneg(ids@, p);
        crate::model::lemma_pair_count_le_len(ids@, p);
    }
    let n = ids.len();
    let mut r: u64 = 0;
    let mut i: usize = 1;
    if n < 2 {
        return 0;
    }
    while i < n
        invariant
            1 <= i <= n,
            n == ids@.len(),
            n >= 2,
            r == pair_count(ids@.take(i as int), p),
            r <= i - 1,
        decreases n - i,
    {
        proof {
            crate::model::lemma_pair_count_concat(ids@.take(i as int), seq![ids@[i as int]], p);
            crate::model::lemma_pair_count_singleton(ids@[i as int], p);
            assert(ids@.take(i as int).last() == ids@[i - 1]);
            assert(ids@.take(i as int + 1) =~= ids@.take(i as int) + seq![ids@[i as int]]);
        }
        if ids[i - 1] == p.0 && ids[i] == p.1 {
            r = r + 1;
        }
        i = i + 1;
    }
    proof {
        assert(ids@.take(n as int) =~= ids@);
    }
    r
}

impl Word {
    /// A fresh word over the given symbols, seen `freq` times in the corpus.
    pub fn new(ids: Vec<u32>, freq: u64) -> (w: Word)
        ensures
            w.ids@ == ids@,
            w.freq == freq,
    {
        Word { ids, freq }
    }

    /// Every adjacent symbol pair of this word, in order of position.
    pub fn pairs(&self) -> (r: Vec<Pair>)
        ensures
            r@.len() == if self.ids@.len() >= 1 {
                self.ids@.len() - 1
            } else {
                0
            },
            forall|k: int| 0 <= k < r@.len() ==> r@[k] == (self.ids@[k], self.ids@[k + 1]),
    {
        let mut r: Vec<Pair> = Vec::new();
        let n = self.ids.len();
        if n < 2 {
            return r;
        }
        let mut i: usize = 1;
        while i < n
            invariant
                1 <= i <= n,
                n == self.ids@.len(),
                r@.len() == i - 1,
                forall|k: int| 0 <= k < r@.len() ==> r@[k] == (self.ids@[k], self.ids@[k + 1]),
            decreases n - i,
        {
            r.push((self.ids[i - 1], self.ids[i]));
            i = i + 1;
        }
        r
    }

    /// Replaces every non-overlapping left-to-right occurrence of `pair` in
    /// this word by `new_id` and returns the pair-count adjustments that the
    /// rewrite induces; the frequency is unchanged.
    pub fn merge_pair(&mut self, pair: Pair, new_id: u32) -> (deltas: Vec<(Pair, i64)>)
        ensures
            final(self).ids@ == merged(old(self).ids@, pair, new_id),
            final(self).freq == old(self).freq,
            forall|q: Pair| #[trigger] delta_sum(deltas@, q) == pair_count(final(self).ids@, q)
                - pair_count(old(self).ids@, q),
    {
        let (out, deltas) = merge_ids(&self.ids, pair, new_id);
        self.ids = out;
        deltas
    }
}

} // verus!
