//! The pair-frequency index: for every adjacent symbol pair occurring in any
//! word, its frequency-weighted total count and the set of word handles that
//! contain it, kept consistent with the word table under incremental updates.

use vstd::prelude::*;
use vstd::arithmetic::mul::{lemma_mul_nonnegative, lemma_mul_inequality};
use vstd::pervasive::VecAdditionalExecFns;
use crate::model::{pair_count, delta_sum, Pair, lemma_pair_count_nonneg, lemma_pair_count_le_len};
use crate::word::{Word, count_pair};

verus! {

/// The model of one word: its symbol sequence and its corpus frequency.
pub type WordM = (Seq<u32>, u64);

/// The models of a word table.
pub open spec fn models(ws: Seq<Word>) -> Seq<WordM> {
    ws.map(|i: int, w: Word| w@)
}

/// Every frequency is at least one: a word stands for a pretoken that was seen.
pub open spec fn wf_words(ms: Seq<WordM>) -> bool {
    forall|i: int| 0 <= i < ms.len() ==> (#[trigger] ms[i]).1 >= 1
}

/// The frequency-weighted count of the pair `p` over the whole word table:
/// the sum over words of (occurrences in the word times the word's frequency).
pub open spec fn wcount(ms: Seq<WordM>, p: Pair) -> int
    decreases ms.len(),
{
    if ms.len() == 0 {
        0
    } else {
        wcount(ms.drop_last(), p) + ms.last().1 * pair_count(ms.last().0, p)
    }
}

/// The frequency-weighted total symbol count of the word table; every pair's
/// weighted count is bounded by it.
pub open spec fn total_weight(ms: Seq<WordM>) -> int
    decreases ms.len(),
{
    if ms.len() == 0 {
        0
    } else {
        total_weight(ms.drop_last()) + ms.last().1 * ms.last().0.len()
    }
}

pub proof fn lemma_wcount_nonneg(ms: Seq<WordM>, p: Pair)
    ensures
        wcount(ms, p) >= 0,
    decreases ms.len(),
{
    if ms.len() > 0 {
        lemma_wcount_nonneg(ms.drop_last(), p);
        lemma_pair_count_nonneg(ms.last().0, p);
        lemma_mul_nonnegative(ms.last().1 as int, pair_count(ms.last().0, p));
    }
}

pub proof fn lemma_total_weight_nonneg(ms: Seq<WordM>)
    ensures
        total_weight(ms) >= 0,
    decreases ms.len(),
{
    if ms.len() > 0 {
        lemma_total_weight_nonneg(ms.drop_last());
        lemma_mul_nonnegative(ms.last().1 as int, ms.last().0.len() as int);
    }
}

/// A pair's weighted count never exceeds the weighted total symbol count.
pub proof fn lemma_wcount_le_total(ms: Seq<WordM>, p: Pair)
    ensures
        wcount(ms, p) <= total_weight(ms),
    decreases ms.len(),
{
    if ms.len() > 0 {
        lemma_wcount_le_total(ms.drop_last(), p);
        lemma_pair_count_nonneg(ms.last().0, p);
        lemma_pair_count_le_len(ms.last().0, p);
        lemma_mul_inequality(
            pair_count(ms.last().0, p),
            ms.last().0.len() as int,
            ms.last().1 as int,
        );
    }
}

/// Replacing one word adjusts a pair's weighted count by exactly the weighted
/// change within that word.
pub proof fn lemma_wcount_update(ms: Seq<WordM>, w: int, nw: WordM, p: Pair)
    requires
        0 <= w < ms.len(),
    ensures
        wcount(ms.update(w, nw), p) == wcount(ms, p) - ms[w].1 * pair_count(ms[w].0, p) + nw.1
            * pair_count(nw.0, p),
    decreases ms.len(),
{
    let ms2 = ms.update(w, nw);
    if w == ms.len() - 1 {
        assert(ms2.drop_last() =~= ms.drop_last());
        assert(ms2.last() == nw);
    } else {
        assert(ms2.drop_last() =~= ms.drop_last().update(w, nw));
        assert(ms2.last() == ms.last());
        lemma_wcount_update(ms.drop_last(), w, nw, p);
    }
}

pub proof fn lemma_total_weight_update(ms: Seq<WordM>, w: int, nw: WordM)
    requires
        0 <= w < ms.len(),
    ensures
        total_weight(ms.update(w, nw)) == total_weight(ms) - ms[w].1 * ms[w].0.len() + nw.1
            * nw.0.len(),
    decreases ms.len(),
{
    let ms2 = ms.update(w, nw);
    if w == ms.len() - 1 {
        assert(ms2.drop_last() =~= ms.drop_last());
        assert(ms2.last() == nw);
    } else {
        assert(ms2.drop_last() =~= ms.drop_last().update(w, nw));
        assert(ms2.last() == ms.last());
        lemma_total_weight_update(ms.drop_last(), w, nw);
    }
}

/// The whole-table weighted count dominates any single word's contribution.
pub proof fn lemma_wcount_ge_term(ms: Seq<WordM>, w: int, p: Pair)
    requires
        0 <= w < ms.len(),
    ensures
        wcount(ms, p) >= ms[w].1 * pair_count(ms[w].0, p),
    decreases ms.len(),
{
    lemma_pair_count_nonneg(ms.last().0, p);
    lemma_mul_nonnegative(ms.last().1 as int, pair_count(ms.last().0, p));
    if w == ms.len() - 1 {
        lemma_wcount_nonneg(ms.drop_last(), p);
    } else {
        lemma_wcount_ge_term(ms.drop_last(), w, p);
        assert(ms.drop_last()[w] == ms[w]);
    }
}

/// One tracked pair of the index: its weighted count over the current word
/// table and the handles of the words it occurs in.
pub struct PairEntry {
    pub pair: Pair,
    pub count: u64,
    pub words: Vec<usize>,
}

/// One entry agrees with the word table: the stored count is the true
/// weighted count, and the owner list holds exactly the words in which the
/// pair occurs.
pub open spec fn entry_ok(e: PairEntry, ms: Seq<WordM>) -> bool {
    &&& e.count == wcount(ms, e.pair)
    &&& e.count > 0
    &&& e.words@.no_duplicates()
    &&& forall|k: int|
        0 <= k < e.words@.len() ==> (#[trigger] e.words@[k]) < ms.len() && pair_count(
            ms[e.words@[k] as int].0,
            e.pair,
        ) > 0
    &&& forall|w: int|
        0 <= w < ms.len() && #[trigger] pair_count(ms[w].0, e.pair) > 0 ==> e.words@.contains(
            w as usize,
        )
}

/// Some entry tracks the pair `p`.
pub open spec fn has_pair(es: Seq<PairEntry>, p: Pair) -> bool {
    exists|i: int| 0 <= i < es.len() && (#[trigger] es[i]).pair == p
}

/// No two entries track the same pair.
pub open spec fn distinct_pairs(es: Seq<PairEntry>) -> bool {
    forall|i: int, j: int|
        0 <= i < es.len() && 0 <= j < es.len() && i != j ==> (#[trigger] es[i]).pair != (
        #[trigger] es[j]).pair
}

/// The slice of the index consistency that concerns one pair `q`: every entry
/// that tracks `q` agrees with the word table, and `q` is tracked whenever its
/// weighted count is positive.
pub open spec fn pair_slice_ok(es: Seq<PairEntry>, ms: Seq<WordM>, q: Pair) -> bool {
    &&& forall|i: int| 0 <= i < es.len() && (#[trigger] es[i]).pair == q ==> entry_ok(es[i], ms)
    &&& wcount(ms, q) > 0 ==> has_pair(es, q)
}

/// Full consistency of the index with the word table: the stored count of
/// every tracked pair equals the brute-force weighted rescan count over all
/// current words, every positive pair is tracked, and owner sets are exact.
pub open spec fn entries_ok(es: Seq<PairEntry>, ms: Seq<WordM>) -> bool {
    &&& distinct_pairs(es)
    &&& forall|q: Pair| #[trigger] pair_slice_ok(es, ms, q)
}

/// The pair-frequency index over a word table.
pub struct PairIndex {
    pub entries: Vec<PairEntry>,
}

/// `p` orders before or equals `q` numerically; the deterministic tie-break
/// among equally frequent pairs.
pub open spec fn pair_le(p: Pair, q: Pair) -> bool {
    p.0 < q.0 || (p.0 == q.0 && p.1 <= q.1)
}

/// The aggregated net list tracks `q`.
pub open spec fn net_has(ns: Seq<(Pair, i128)>, q: Pair) -> bool {
    exists|k: int| 0 <= k < ns.len() && (#[trigger] ns[k]).0 == q
}

fn find_net(ns: &Vec<(Pair, i128)>, q: Pair) -> (r: Option<usize>)
    ensures
        r matches Some(ix) ==> ix < ns@.len() && ns@[ix as int].0 == q,
        r is None ==> !net_has(ns@, q),
{
    let n = ns.len();
    let mut i: usize = 0;
    while i < n
        invariant
            i <= n,
            n == ns@.len(),
            forall|j: int| 0 <= j < i ==> (#[trigger] ns@[j]).0 != q,
        decreases n - i,
    {
        if ns[i].0.0 == q.0 && ns[i].0.1 == q.1 {
            return Some(i);
        }
        i = i + 1;
    }
    None
}

/// Folds a delta list into one net adjustment per distinct pair; a pair
/// absent from the result carries a zero net adjustment.
#[verifier::loop_isolation(false)]
fn aggregate(deltas: &Vec<(Pair, i64)>) -> (nets: Vec<(Pair, i128)>)
    ensures
        forall|k1: int, k2: int|
            0 <= k1 < nets@.len() && 0 <= k2 < nets@.len() && k1 != k2 ==> (#[trigger] nets@[k1]).0
                != (#[trigger] nets@[k2]).0,
        forall|k: int|
            0 <= k < nets@.len() ==> (#[trigger] nets@[k]).1 == delta_sum(deltas@, nets@[k].0),
        forall|q: Pair| !net_has(nets@, q) ==> delta_sum(deltas@, q) == 0,
{
    let m = deltas.len();
    let mut nets: Vec<(Pair, i128)> = Vec::new();
    let mut j: usize = 0;
    while j < m
        invariant
            j <= m,
            forall|k1: int, k2: int|
                0 <= k1 < nets@.len() && 0 <= k2 < nets@.len() && k1 != k2 ==> (
                #[trigger] nets@[k1]).0 != (#[trigger] nets@[k2]).0,
            forall|k: int|
                0 <= k < nets@.len() ==> (#[trigger] nets@[k]).1 == delta_sum(
                    deltas@.take(j as int),
                    nets@[k].0,
                ),
            forall|q: Pair| !net_has(nets@, q) ==> delta_sum(deltas@.take(j as int), q) == 0,
            forall|k: int|
                0 <= k < nets@.len() ==> -((j as int) * 9223372036854775808int) <= (
                #[trigger] nets@[k]).1 <= (j as int) * 9223372036854775808int,
        decreases m - j,
    {
        let d = deltas[j];
        proof {
            assert(deltas@.take(j as int + 1).drop_last() =~= deltas@.take(j as int));
            assert(deltas@.take(j as int + 1).last() == deltas@[j as int]);
            assert(-((j as int + 1) * 9223372036854775808int) <= -((j as int)
                * 9223372036854775808int) - 9223372036854775808int);
        }
        let ghost nets0 = nets@;
        match find_net(&nets, d.0) {
            Some(ix) => {
                let cur = nets[ix];
                nets.set(ix, (cur.0, cur.1 + d.1 as i128));
                proof {
                    assert forall|q: Pair| !net_has(nets@, q) implies delta_sum(
                        deltas@.take(j as int + 1),
                        q,
                    ) == 0 by {
                        assert(!net_has(nets0, q)) by {
                            if net_has(nets0, q) {
                                let kk = choose|kk: int|
                                    0 <= kk < nets0.len() && (#[trigger] nets0[kk]).0 == q;
                                assert(nets@[kk].0 == q);
                            }
                        }
                        assert(q != d.0);
                    }
                }
            },
            None => {
                nets.push((d.0, d.1 as i128));
                proof {
                    assert forall|q: Pair| !net_has(nets@, q) implies delta_sum(
                        deltas@.take(j as int + 1),
                        q,
                    ) == 0 by {
                        assert(!net_has(nets0, q)) by {
                            if net_has(nets0, q) {
                                let kk = choose|kk: int|
                                    0 <= kk < nets0.len() && (#[trigger] nets0[kk]).0 == q;
                                assert(nets@[kk].0 == q);
                            }
                        }
                        assert(nets@.last().0 == d.0);
                        assert(q != d.0);
                    }
                }
            },
        }
        j = j + 1;
    }
    proof {
        assert(deltas@.take(m as int) =~= deltas@);
    }
    nets
}

/// An untouched pair keeps its slice of the consistency when one word is
/// replaced without changing how often the pair occurs in it.
proof fn lemma_slice_untouched(es: Seq<PairEntry>, ms: Seq<WordM>, w: int, nw: WordM, q: Pair)
    requires
        pair_slice_ok(es, ms, q),
        0 <= w < ms.len(),
        pair_count(nw.0, q) == pair_count(ms[w].0, q),
        nw.1 == ms[w].1,
    ensures
        pair_slice_ok(es, ms.update(w, nw), q),
{
    let ms2 = ms.update(w, nw);
    lemma_wcount_update(ms, w, nw, q);
    assert(wcount(ms2, q) == wcount(ms, q));
    assert forall|i: int| 0 <= i < es.len() && (#[trigger] es[i]).pair == q implies entry_ok(
        es[i],
        ms2,
    ) by {
        let e = es[i];
        assert(entry_ok(e, ms));
        assert forall|k: int|
            0 <= k < e.words@.len() implies (#[trigger] e.words@[k]) < ms2.len() && pair_count(
                ms2[e.words@[k] as int].0,
                e.pair,
            ) > 0 by {
            let v = e.words@[k];
            if v as int != w {
                assert(ms2[v as int] == ms[v as int]);
            }
        }
        assert forall|v: int|
            0 <= v < ms2.len() && #[trigger] pair_count(ms2[v].0, e.pair) > 0 implies
            e.words@.contains(v as usize) by {
            if v != w {
                assert(ms2[v] == ms[v]);
            }
            assert(pair_count(ms[v].0, e.pair) > 0);
        }
    }
}

fn find_entry(es: &Vec<PairEntry>, q: Pair) -> (r: Option<usize>)
    ensures
        r matches Some(ix) ==> ix < es@.len() && es@[ix as int].pair == q,
        r is None ==> !has_pair(es@, q),
{
    let n = es.len();
    let mut i: usize = 0;
    while i < n
        invariant
            i <= n,
            n == es@.len(),
            forall|j: int| 0 <= j < i ==> (#[trigger] es@[j]).pair != q,
        decreases n - i,
    {
        if es[i].pair.0 == q.0 && es[i].pair.1 == q.1 {
            return Some(i);
        }
        i = i + 1;
    }
    None
}

fn find_pos(v: &Vec<usize>, w: usize) -> (r: Option<usize>)
    ensures
        r matches Some(ix) ==> ix < v@.len() && v@[ix as int] == w,
        r is None ==> !v@.contains(w),
{
    let n = v.len();
    let mut i: usize = 0;
    while i < n
        invariant
            i <= n,
            n == v@.len(),
            forall|j: int| 0 <= j < i ==> v@[j] != w,
        decreases n - i,
    {
        if v[i] == w {
            return Some(i);
        }
        i = i + 1;
    }
    None
}

impl PairIndex {
    /// The index is consistent with the given word-table model.
    pub open spec fn consistent(&self, ms: Seq<WordM>) -> bool {
        entries_ok(self.entries@, ms)
    }

    /// An empty index: consistent with any word table that holds no pair.
    pub fn new() -> (r: PairIndex)
        ensures
            r.entries@.len() == 0,
    {
        PairIndex { entries: Vec::new() }
    }

    /// Applies one aggregated net adjustment for the pair `q`, caused by the
    /// word `w` changing from its sequence in `ms` to `new_ids`.
    fn apply_one(
        &mut self,
        Ghost(ms): Ghost<Seq<WordM>>,
        w: usize,
        freq: u64,
        new_ids: &Vec<u32>,
        q: Pair,
        net: i128,
    )
        requires
            distinct_pairs(old(self).entries@),
            pair_slice_ok(old(self).entries@, ms, q),
            wf_words(ms),
            ms.len() <= usize::MAX,
            w < ms.len(),
            ms[w as int].1 == freq,
            net == pair_count(new_ids@, q) - pair_count(ms[w as int].0, q),
            total_weight(ms.update(w as int, (new_ids@, freq))) <= u64::MAX,
        ensures
            distinct_pairs(final(self).entries@),
            pair_slice_ok(final(self).entries@, ms.update(w as int, (new_ids@, freq)), q),
            forall|xs: Seq<WordM>, p: Pair|
                p != q && #[trigger] pair_slice_ok(old(self).entries@, xs, p) ==> pair_slice_ok(
                    final(self).entries@,
                    xs,
                    p,
                ),
    {
        let ghost ms2 = ms.update(w as int, (new_ids@, freq));
        let pc_new = count_pair(new_ids, q);
        proof {
            lemma_pair_count_nonneg(ms[w as int].0, q);
            lemma_pair_count_nonneg(new_ids@, q);
            lemma_wcount_nonneg(ms, q);
            lemma_wcount_nonneg(ms2, q);
            lemma_wcount_le_total(ms2, q);
            lemma_wcount_update(ms, w as int, (new_ids@, freq), q);
        }
        match find_entry(&self.entries, q) {
            None => {
                proof {
                    // no entry tracks q, so its weighted count is zero and the
                    // old word cannot contain it
                    assert(wcount(ms, q) == 0);
                    lemma_wcount_ge_term(ms, w as int, q);
                    assert(pair_count(ms[w as int].0, q) == 0) by (nonlinear_arith)
                        requires
                            ms[w as int].1 >= 1,
                            pair_count(ms[w as int].0, q) >= 0,
                            ms[w as int].1 * pair_count(ms[w as int].0, q) <= 0,
                    ;
                }
                if pc_new > 0 {
                    proof {
                        assert(wcount(ms2, q) == freq * pair_count(new_ids@, q));
                    }
                    let cnt = freq * pc_new;
                    let mut owners: Vec<usize> = Vec::new();
                    owners.push(w);
                    let ghost es0 = self.entries@;
                    self.entries.push(PairEntry { pair: q, count: cnt, words: owners });
                    proof {
                        let es2 = self.entries@;
                        assert(cnt > 0) by (nonlinear_arith)
                            requires
                                cnt == freq * pair_count(new_ids@, q),
                                freq >= 1,
                                pair_count(new_ids@, q) >= 1,
                        ;
                        let e = es2.last();
                        assert forall|v: int|
                            0 <= v < ms2.len() && #[trigger] pair_count(ms2[v].0, e.pair) > 0
                                implies e.words@.contains(v as usize) by {
                            if v != w {
                                lemma_wcount_ge_term(ms, v, q);
                                assert(ms[v].1 * pair_count(ms[v].0, q) > 0) by (nonlinear_arith)
                                    requires
                                        ms[v].1 >= 1,
                                        pair_count(ms[v].0, q) >= 1,
                                ;
                            } else {
                                assert(e.words@[0] == w);
                            }
                        }
                        assert(entry_ok(es2.last(), ms2));
                        assert forall|i: int|
                            0 <= i < es2.len() && (#[trigger] es2[i]).pair == q implies entry_ok(
                            es2[i],
                            ms2,
                        ) by {
                            assert(i == es2.len() - 1);
                        }
                        assert(has_pair(es2, q));
                        assert forall|xs: Seq<WordM>, p: Pair|
                            p != q && #[trigger] pair_slice_ok(es0, xs, p) implies pair_slice_ok(
                            es2,
                            xs,
                            p,
                        ) by {
                            assert forall|i: int|
                                0 <= i < es2.len() && (#[trigger] es2[i]).pair == p implies
                                entry_ok(es2[i], xs) by {
                                assert(i < es0.len() && es2[i] == es0[i]);
                            }
                            if wcount(xs, p) > 0 {
                                let j = choose|j: int| 0 <= j < es0.len() && (#[trigger] es0[j]).pair == p;
                                assert(es2[j].pair == p);
                            }
                        }
                    }
                } else {
                    proof {
                        assert(wcount(ms2, q) == 0);
                        assert(pair_slice_ok(self.entries@, ms2, q));
                    }
                }
            },
            Some(ix) => {
                let ghost es0 = self.entries@;
                let mut e = self.entries.swap_remove(ix);
                proof {
                    assert(entry_ok(es0[ix as int], ms));
                    assert(e.count == wcount(ms, q));
                    let a = pair_count(new_ids@, q);
                    let b = pair_count(ms[w as int].0, q);
                    assert((freq as int) * a - (freq as int) * b == (freq as int) * (a - b))
                        by (nonlinear_arith);
                    assert(wcount(ms2, q) == e.count + freq * net);
                    assert(-(u64::MAX as int) <= freq * net <= u64::MAX as int);
                    assert((net as int) * (freq as int) == (freq as int) * (net as int))
                        by (nonlinear_arith);
                }
                let adj: i128 = (net) * (freq as i128);
                let newcnt: i128 = (e.count as i128) + adj;
                proof {
                    assert(newcnt == wcount(ms2, q));
                }
                let ghost es1 = self.entries@;
                proof {
                    // entries other than the removed one keep their values,
                    // only positions change
                    assert forall|i: int| 0 <= i < es1.len() implies (#[trigger] es1[i]) == (if i
                        == ix {
                        es0.last()
                    } else {
                        es0[i]
                    }) by {}
                    assert(distinct_pairs(es1));
                    assert forall|i: int|
                        0 <= i < es1.len() implies (#[trigger] es1[i]).pair != q by {
                        if i == ix && ix < es0.len() - 1 {
                            assert(es1[i] == es0[es0.len() - 1]);
                        }
                    }
                }
                if newcnt == 0 {
                    proof {
                        assert(!has_pair(es1, q));
                        assert(pair_slice_ok(es1, ms2, q));
                        assert forall|xs: Seq<WordM>, p: Pair|
                            p != q && #[trigger] pair_slice_ok(es0, xs, p) implies pair_slice_ok(
                            es1,
                            xs,
                            p,
                        ) by {
                            assert forall|i: int|
                                0 <= i < es1.len() && (#[trigger] es1[i]).pair == p implies
                                entry_ok(es1[i], xs) by {
                                if i == ix {
                                    assert(es1[i] == es0[es0.len() - 1]);
                                }
                            }
                            if wcount(xs, p) > 0 {
                                let j = choose|j: int|
                                    0 <= j < es0.len() && (#[trigger] es0[j]).pair == p;
                                if j == es0.len() - 1 {
                                    assert(es1[ix as int].pair == p);
                                } else {
                                    assert(es1[j].pair == p);
                                }
                            }
                        }
                    }
                } else {
                    e.count = newcnt as u64;
                    let ghost ws0 = e.words@;
                    match find_pos(&e.words, w) {
                        Some(pos) => {
                            e.words.swap_remove(pos);
                            proof {
                                let ws1 = e.words@;
                                assert forall|k: int|
                                    0 <= k < ws1.len() implies (#[trigger] ws1[k]) == (if k
                                    == pos {
                                    ws0.last()
                                } else {
                                    ws0[k]
                                }) by {}
                                assert(ws1.no_duplicates());
                                assert forall|v: usize|
                                    ws0.contains(v) && v != w implies #[trigger] ws1.contains(
                                    v,
                                ) by {
                                    let j = choose|j: int| 0 <= j < ws0.len() && ws0[j] == v;
                                    assert(j != pos);
                                    if j == ws0.len() - 1 {
                                        assert(ws1[pos as int] == v);
                                    } else {
                                        assert(ws1[j] == v);
                                    }
                                }
                                assert(!ws1.contains(w));
                            }
                        },
                        None => {},
                    }
                    let ghost wsr = e.words@;
                    proof {
                        assert(wsr.no_duplicates());
                        assert(!wsr.contains(w));
                        assert(forall|v: usize|
                            #[trigger] wsr.contains(v) ==> ws0.contains(v) && v != w);
                        assert(forall|v: usize|
                            ws0.contains(v) && v != w ==> #[trigger] wsr.contains(v));
                    }
                    if pc_new > 0 {
                        e.words.push(w);
                        proof {
                            assert(e.words@.last() == w);
                            assert forall|v: usize|
                                wsr.contains(v) implies #[trigger] e.words@.contains(v) by {
                                let j = choose|j: int| 0 <= j < wsr.len() && wsr[j] == v;
                                assert(e.words@[j] == v);
                            }
                            assert(e.words@.no_duplicates());
                        }
                    }
                    let ghost efin = e;
                    self.entries.push(e);
                    proof {
                        let es2 = self.entries@;
                        assert(es2.last() == efin);
                        assert(efin.pair == q);
                        assert forall|k: int|
                            0 <= k < efin.words@.len() implies (#[trigger] efin.words@[k])
                                < ms2.len() && pair_count(
                                ms2[efin.words@[k] as int].0,
                                q,
                            ) > 0 by {
                            let v = efin.words@[k];
                            if v != w {
                                assert(wsr.contains(v));
                                assert(ws0.contains(v));
                                assert(pair_count(ms[v as int].0, q) > 0);
                                assert(ms2[v as int] == ms[v as int]);
                            }
                        }
                        assert forall|v: int|
                            0 <= v < ms2.len() && #[trigger] pair_count(ms2[v].0, q) > 0 implies
                            efin.words@.contains(v as usize) by {
                            if v != w {
                                assert(pair_count(ms[v].0, q) > 0);
                                assert(ws0.contains(v as usize));
                                assert(wsr.contains(v as usize));
                                if pc_new > 0 {
                                    assert(efin.words@.contains(v as usize));
                                }
                            } else {
                                assert(pair_count(ms2[w as int].0, q) == pc_new);
                                assert(efin.words@.last() == w);
                            }
                        }
                        assert(entry_ok(efin, ms2));
                        assert(distinct_pairs(es2));
                        assert forall|i: int|
                            0 <= i < es2.len() && (#[trigger] es2[i]).pair == q implies entry_ok(
                            es2[i],
                            ms2,
                        ) by {
                            assert(i == es2.len() - 1);
                        }
                        assert(has_pair(es2, q));
                        assert(pair_slice_ok(es2, ms2, q));
                        assert forall|xs: Seq<WordM>, p: Pair|
                            p != q && #[trigger] pair_slice_ok(es0, xs, p) implies pair_slice_ok(
                            es2,
                            xs,
                            p,
                        ) by {
                            assert forall|i: int|
                                0 <= i < es2.len() && (#[trigger] es2[i]).pair == p implies
                                entry_ok(es2[i], xs) by {
                                assert(i < es1.len());
                                if i == ix {
                                    assert(es1[i] == es0[es0.len() - 1]);
                                }
                            }
                            if wcount(xs, p) > 0 {
                                let j = choose|j: int|
                                    0 <= j < es0.len() && (#[trigger] es0[j]).pair == p;
                                if j == es0.len() - 1 && ix < es0.len() - 1 {
                                    assert(es2[ix as int].pair == p);
                                } else {
                                    assert(es2[j].pair == p);
                                }
                            }
                        }
                    }
                }
            },
        }
    }

    /// Applies the signed pair-count adjustments induced by the word `w`
    /// changing from its sequence in `ms` to `new_ids`: every touched pair's
    /// stored count is adjusted, an entry whose count reaches zero is removed,
    /// and `w`'s membership in each touched pair's owner set is brought in
    /// line. Only the pairs named in `deltas` are visited.
    #[verifier::loop_isolation(false)]
    pub fn apply_deltas(
        &mut self,
        Ghost(ms): Ghost<Seq<WordM>>,
        w: usize,
        freq: u64,
        new_ids: &Vec<u32>,
        deltas: &Vec<(Pair, i64)>,
    )
        requires
            old(self).consistent(ms),
            wf_words(ms),
            ms.len() <= usize::MAX,
            w < ms.len(),
            ms[w as int].1 == freq,
            forall|q: Pair| #[trigger]
                delta_sum(deltas@, q) == pair_count(new_ids@, q) - pair_count(ms[w as int].0, q),
            total_weight(ms.update(w as int, (new_ids@, freq))) <= u64::MAX,
        ensures
            final(self).consistent(ms.update(w as int, (new_ids@, freq))),
    {
        let ghost ms2 = ms.update(w as int, (new_ids@, freq));
        let nets = aggregate(deltas);
        let n = nets.len();
        let mut k: usize = 0;
        while k < n
            invariant
                k <= n,
                distinct_pairs(self.entries@),
                forall|j: int|
                    0 <= j < k ==> pair_slice_ok(self.entries@, ms2, (#[trigger] nets@[j]).0),
                forall|q: Pair|
                    (forall|j: int| 0 <= j < k ==> (#[trigger] nets@[j]).0 != q) ==> #[trigger]
                        pair_slice_ok(self.entries@, ms, q),
            decreases n - k,
        {
            let pn = nets[k];
            proof {
                assert(pair_slice_ok(self.entries@, ms, pn.0));
                assert(pn.1 == delta_sum(deltas@, pn.0));
            }
            let ghost es_before = self.entries@;
            self.apply_one(Ghost(ms), w, freq, new_ids, pn.0, pn.1);
            proof {
                assert forall|j: int|
                    0 <= j < k + 1 implies pair_slice_ok(
                    self.entries@,
                    ms2,
                    (#[trigger] nets@[j]).0,
                ) by {
                    if j < k && nets@[j].0 != pn.0 {
                        assert(pair_slice_ok(es_before, ms2, nets@[j].0));
                    }
                }
                assert forall|q: Pair|
                    (forall|j: int| 0 <= j < k + 1 ==> (#[trigger] nets@[j]).0 != q) implies
                    #[trigger] pair_slice_ok(self.entries@, ms, q) by {
                    assert(pair_slice_ok(es_before, ms, q));
                    assert(q != pn.0);
                }
            }
            k = k + 1;
        }
        proof {
            assert forall|q: Pair| #[trigger] pair_slice_ok(self.entries@, ms2, q) by {
                if net_has(nets@, q) {
                    let j = choose|j: int| 0 <= j < nets@.len() && (#[trigger] nets@[j]).0 == q;
                } else {
                    assert forall|j: int| 0 <= j < n implies (#[trigger] nets@[j]).0 != q by {}
                    assert(pair_slice_ok(self.entries@, ms, q));
                    assert(delta_sum(deltas@, q) == 0);
                    lemma_slice_untouched(self.entries@, ms, w as int, (new_ids@, freq), q);
                }
            }
        }
    }

    /// The pair with the highest weighted count, ties broken toward the
    /// numerically smallest pair; nothing exactly when the index is empty.
    pub fn top(&self) -> (r: Option<Pair>)
        ensures
            r is None <==> self.entries@.len() == 0,
            r matches Some(p) ==> exists|i: int|
                0 <= i < self.entries@.len() && (#[trigger] self.entries@[i]).pair == p && forall|
                    j: int,
                |
                    0 <= j < self.entries@.len() ==> (#[trigger] self.entries@[j]).count
                        < self.entries@[i].count || (self.entries@[j].count
                        == self.entries@[i].count && pair_le(p, self.entries@[j].pair)),
    {
        let n = self.entries.len();
        if n == 0 {
            return None;
        }
        let mut best: usize = 0;
        let mut i: usize = 1;
        while i < n
            invariant
                1 <= i <= n,
                n == self.entries@.len(),
                best < i,
                forall|j: int|
                    0 <= j < i ==> (#[trigger] self.entries@[j]).count
                        < self.entries@[best as int].count || (self.entries@[j].count
                        == self.entries@[best as int].count && pair_le(
                        self.entries@[best as int].pair,
                        self.entries@[j].pair,
                    )),
            decreases n - i,
        {
            let cand = (self.entries[i].count, self.entries[i].pair);
            let cur = (self.entries[best].count, self.entries[best].pair);
            if cand.0 > cur.0 || (cand.0 == cur.0 && (cand.1.0 < cur.1.0 || (cand.1.0 == cur.1.0
                && cand.1.1 < cur.1.1))) {
                best = i;
            }
            i = i + 1;
        }
        Some(self.entries[best].pair)
    }

    /// A copy of the owner set of `q`: the handles of every word in which `q`
    /// currently occurs; empty when no entry tracks `q`.
    pub fn owners_of(&self, q: Pair) -> (r: Vec<usize>)
        ensures
            has_pair(self.entries@, q) ==> exists|i: int|
                0 <= i < self.entries@.len() && (#[trigger] self.entries@[i]).pair == q && r@
                    == self.entries@[i].words@,
            !has_pair(self.entries@, q) ==> r@.len() == 0,
    {
        match find_entry(&self.entries, q) {
            Some(ix) => {
                let src = &self.entries[ix].words;
                let m = src.len();
                let mut r: Vec<usize> = Vec::new();
                let mut i: usize = 0;
                while i < m
                    invariant
                        i <= m,
                        m == src@.len(),
                        r@ == src@.take(i as int),
                    decreases m - i,
                {
                    r.push(src[i]);
                    proof {
                        assert(r@ =~= src@.take(i as int + 1));
                    }
                    i = i + 1;
                }
                proof {
                    assert(src@.take(m as int) =~= src@);
                }
                r
            },
            None => Vec::new(),
        }
    }

}

/// The index-consistency invariant, read off for one entry: in a consistent
/// index, every stored count equals the frequency-weighted brute-force rescan
/// count of its pair over all current words, and this holds after every
/// incremental update, since every operation above ensures `consistent`.
pub proof fn lemma_index_counts_are_rescan_counts(idx: PairIndex, ms: Seq<WordM>, i: int)
    requires
        idx.consistent(ms),
        0 <= i < idx.entries@.len(),
    ensures
        idx.entries@[i].count == wcount(ms, idx.entries@[i].pair),
{
    assert(pair_slice_ok(idx.entries@, ms, idx.entries@[i].pair));
}

/// The one-sided delta list of a fresh word: one positive adjustment per
/// adjacent position, the scan that seeds the index from the word table.
#[verifier::loop_isolation(false)]
pub fn pair_deltas(ids: &Vec<u32>) -> (ds: Vec<(Pair, i64)>)
    ensures
        forall|q: Pair| #[trigger] delta_sum(ds@, q) == pair_count(ids@, q),
{
    let n = ids.len();
    let mut ds: Vec<(Pair, i64)> = Vec::new();
    if n < 2 {
        proof {
            assert forall|q: Pair| #[trigger] delta_sum(ds@, q) == pair_count(ids@, q) by {
                lemma_pair_count_le_len(ids@, q);
                lemma_pair_count_nonneg(ids@, q);
            }
        }
        return ds;
    }
    let mut j: usize = 1;
    while j < n
        invariant
            1 <= j <= n,
            forall|q: Pair| #[trigger] delta_sum(ds@, q) == pair_count(ids@.take(j as int), q),
        decreases n - j,
    {
        let ghost ds0 = ds@;
        ds.push(((ids[j - 1], ids[j]), 1));
        proof {
            crate::model::lemma_delta_sum_push(ds0, ((ids@[j - 1], ids@[j as int]), 1i64));
            assert forall|q: Pair| #[trigger] delta_sum(ds@, q) == pair_count(
                ids@.take(j as int + 1),
                q,
            ) by {
                crate::model::lemma_pair_count_concat(
                    ids@.take(j as int),
                    seq![ids@[j as int]],
                    q,
                );
                crate::model::lemma_pair_count_singleton(ids@[j as int], q);
                assert(ids@.take(j as int).last() == ids@[j - 1]);
                assert(ids@.take(j as int + 1) =~= ids@.take(j as int) + seq![ids@[j as int]]);
            }
        }
        j = j + 1;
    }
    proof {
        assert(ids@.take(n as int) =~= ids@);
    }
    ds
}

/// The word-table model whose first `k` words are as in `ms` and whose rest
/// are still empty: the intermediate states of seeding the index.
pub open spec fn emptied(ms: Seq<WordM>, k: int) -> Seq<WordM> {
    Seq::new(ms.len(), |i: int| if i < k {
        ms[i]
    } else {
        (Seq::<u32>::empty(), ms[i].1)
    })
}

/// Emptying words can only lower the weighted total symbol count.
pub proof fn lemma_tw_emptied(ms: Seq<WordM>, k: int)
    ensures
        total_weight(emptied(ms, k)) <= total_weight(ms),
    decreases ms.len(),
{
    if ms.len() > 0 {
        assert(emptied(ms, k).drop_last() =~= emptied(ms.drop_last(), k));
        lemma_tw_emptied(ms.drop_last(), k);
        if ms.len() - 1 < k {
            assert(emptied(ms, k).last() == ms.last());
        } else {
            assert(emptied(ms, k).last().0.len() == 0);
            lemma_mul_nonnegative(ms.last().1 as int, ms.last().0.len() as int);
        }
    }
}

/// A table of pairless words has weighted count zero for every pair.
pub proof fn lemma_wcount_no_pairs(ms: Seq<WordM>, q: Pair)
    requires
        forall|i: int| 0 <= i < ms.len() ==> (#[trigger] ms[i]).0.len() < 2,
    ensures
        wcount(ms, q) == 0,
    decreases ms.len(),
{
    if ms.len() > 0 {
        lemma_wcount_no_pairs(ms.drop_last(), q);
        assert(pair_count(ms.last().0, q) == 0);
    }
}

impl PairIndex {
    /// Builds the index from the initial word table by scanning every
    /// adjacent symbol pair of every word and accumulating the weighted
    /// counts and the owner sets.
    #[verifier::loop_isolation(false)]
    pub fn from_words(words: &Vec<Word>) -> (r: PairIndex)
        requires
            wf_words(models(words@)),
            total_weight(models(words@)) <= u64::MAX,
        ensures
            r.consistent(models(words@)),
    {
        let ghost full = models(words@);
        let mut idx = PairIndex::new();
        let n = words.len();
        proof {
            assert(full.len() == n);
            assert forall|q: Pair| #[trigger] pair_slice_ok(idx.entries@, emptied(full, 0), q) by {
                lemma_wcount_no_pairs(emptied(full, 0), q);
            }
        }
        let mut k: usize = 0;
        while k < n
            invariant
                k <= n,
                idx.consistent(emptied(full, k as int)),
            decreases n - k,
        {
            let ds = pair_deltas(&words[k].ids);
            let freq = words[k].freq;
            let ghost mk = emptied(full, k as int);
            proof {
                assert(mk[k as int].0.len() == 0);
                assert(mk[k as int].1 == freq);
                assert forall|i: int| 0 <= i < mk.len() implies (#[trigger] mk[i]).1 >= 1 by {
                    assert(full[i].1 >= 1);
                }
                assert(mk.update(k as int, (words@[k as int].ids@, freq)) =~= emptied(full, k as int + 1));
                lemma_tw_emptied(full, k as int + 1);
            }
            idx.apply_deltas(Ghost(mk), k, freq, &words[k].ids, &ds);
            k = k + 1;
        }
        proof {
            assert(emptied(full, n as int) =~= full);
        }
        idx
    }
}

} // verus!
