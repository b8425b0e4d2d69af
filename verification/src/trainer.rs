//! The merge driver and the training entry point: the greedy loop that
//! repeatedly picks the most frequent adjacent pair, allocates the next
//! symbol id, rewrites the owning words through incremental deltas, and
//! records the merge, until the target vocabulary size is reached or no pair
//! remains. The whole run is pinned to a functional model of itself, so two
//! runs on identical input yield identical merge lists.

use vstd::prelude::*;
use vstd::arithmetic::mul::{lemma_mul_nonnegative, lemma_mul_inequality};
use vstd::string::StrSliceExecFns;
use vstd::utf8::encode_utf8;
use crate::model::{pair_count, merged, Pair, lemma_pair_count_nonneg, lemma_merged_len};
use crate::word::{Word, merge_ids};
use crate::index::{
    PairIndex, WordM, models, wcount, total_weight, wf_words, pair_le, entry_ok, has_pair,
    lemma_wcount_nonneg, lemma_total_weight_update, lemma_total_weight_nonneg,
};
use crate::splitter::{regex_valid, regex_pattern, split_of, str_views, compile_pattern, par_split};
use crate::counter::{FreqCounter, count_occ, firsts, keys_of, lemma_count_occ_grows,
    lemma_count_absent};
use crate::{TrainError, TrainOutcome};
use vstd::pervasive::VecAdditionalExecFns;

verus! {

/// Ids `0 .. 256` denote the raw byte values; merges allocate ids above.
pub const BASE_VOCAB_SIZE: u32 = 256;

/// One learned merge: the pair replaced and the symbol id assigned to it;
/// its ordinal position is its index in the merge list.
#[derive(Debug, Clone, Copy, PartialEq, Eq)]
pub struct MergeRecord {
    pub pair: Pair,
    pub new_id: u32,
}

/// The model of a merge list.
pub open spec fn recs_model(rs: Seq<MergeRecord>) -> Seq<(Pair, int)> {
    rs.map(|i: int, r: MergeRecord| (r.pair, r.new_id as int))
}

/// How many merges a target vocabulary size asks for.
pub open spec fn target_merges(vocab_size: u32) -> nat {
    if vocab_size > 256 {
        (vocab_size - 256) as nat
    } else {
        0
    }
}

/// `p` is the pair the driver must pick: its weighted count is positive and
/// every other positive pair either counts strictly less or ties and orders
/// at or after `p` numerically.
pub open spec fn is_best(ms: Seq<WordM>, p: Pair) -> bool {
    &&& wcount(ms, p) > 0
    &&& forall|q: Pair| #[trigger]
        wcount(ms, q) > 0 ==> wcount(ms, q) < wcount(ms, p) || (wcount(ms, q) == wcount(ms, p)
            && pair_le(p, q))
}

/// The pair the driver picks from this word table, if any pair remains.
pub open spec fn best_of(ms: Seq<WordM>) -> Option<Pair> {
    if exists|p: Pair| is_best(ms, p) {
        Some(choose|p: Pair| is_best(ms, p))
    } else {
        None
    }
}

/// At most one pair is best: the tie-break is a total order.
pub proof fn lemma_best_unique(ms: Seq<WordM>, p: Pair, q: Pair)
    requires
        is_best(ms, p),
        is_best(ms, q),
    ensures
        p == q,
{
    assert(wcount(ms, p) > 0);
    assert(wcount(ms, q) > 0);
}

/// The word table after one merge step: every word containing `p` is
/// rewritten, all others are untouched; order and frequencies are kept.
pub open spec fn step_words(ms: Seq<WordM>, p: Pair, nid: int) -> Seq<WordM> {
    Seq::new(ms.len(), |i: int| if pair_count(ms[i].0, p) > 0 {
        (merged(ms[i].0, p, nid as u32), ms[i].1)
    } else {
        ms[i]
    })
}

/// The word table with only the first `t` listed owners rewritten: the
/// intermediate states of one merge step.
pub open spec fn step_upto(ms: Seq<WordM>, p: Pair, nid: int, owners: Seq<usize>, t: int) -> Seq<
    WordM,
> {
    Seq::new(ms.len(), |i: int| if owners.take(t).contains(i as usize) {
        (merged(ms[i].0, p, nid as u32), ms[i].1)
    } else {
        ms[i]
    })
}

/// The functional model of the merge driver: the merge list that greedy
/// training produces from this word table, next id, and remaining budget.
pub open spec fn run_merges(ms: Seq<WordM>, next_id: int, budget: nat) -> Seq<(Pair, int)>
    decreases budget,
{
    if budget == 0 {
        Seq::<(Pair, int)>::empty()
    } else {
        match best_of(ms) {
            Option::None => Seq::<(Pair, int)>::empty(),
            Option::Some(p) => seq![(p, next_id)] + run_merges(
                step_words(ms, p, next_id),
                next_id + 1,
                (budget - 1) as nat,
            ),
        }
    }
}

/// The total symbol count across all words.
pub open spec fn total_syms(ms: Seq<WordM>) -> int
    decreases ms.len(),
{
    if ms.len() == 0 {
        0
    } else {
        total_syms(ms.drop_last()) + ms.last().0.len()
    }
}

/// The replaced occurrences of `p` across all words.
pub open spec fn total_occurrences(ms: Seq<WordM>, p: Pair) -> int
    decreases ms.len(),
{
    if ms.len() == 0 {
        0
    } else {
        total_occurrences(ms.drop_last(), p) + crate::model::occurrences(ms.last().0, p)
    }
}

/// One merge step shrinks the total symbol count across all words by exactly
/// the number of replaced occurrences of the merged pair — strictly, whenever
/// the pair occurs at all — while word order, every frequency, and every word
/// not containing the pair are unchanged.
pub proof fn lemma_merge_step_shrinks(ms: Seq<WordM>, p: Pair, nid: int)
    ensures
        step_words(ms, p, nid).len() == ms.len(),
        total_occurrences(ms, p) >= 0,
        total_syms(step_words(ms, p, nid)) == total_syms(ms) - total_occurrences(ms, p),
        wcount(ms, p) > 0 ==> total_occurrences(ms, p) > 0,
        forall|i: int| 0 <= i < ms.len() ==> (#[trigger] step_words(ms, p, nid)[i]).1 == ms[i].1,
        forall|i: int|
            0 <= i < ms.len() && pair_count(ms[i].0, p) <= 0 ==> (#[trigger] step_words(
                ms,
                p,
                nid,
            )[i]) == ms[i],
    decreases ms.len(),
{
    let sw = step_words(ms, p, nid);
    if ms.len() > 0 {
        lemma_merge_step_shrinks(ms.drop_last(), p, nid);
        assert(sw.drop_last() =~= step_words(ms.drop_last(), p, nid));
        lemma_merged_len(ms.last().0, p, nid as u32);
        crate::model::lemma_occurrences_pos(ms.last().0, p);
        lemma_pair_count_nonneg(ms.last().0, p);
        if pair_count(ms.last().0, p) > 0 {
            assert(sw.last() == (merged(ms.last().0, p, nid as u32), ms.last().1));
        } else {
            assert(sw.last() == ms.last());
            assert(crate::model::occurrences(ms.last().0, p) == 0);
        }
        if wcount(ms, p) > 0 {
            lemma_wcount_nonneg(ms.drop_last(), p);
            if wcount(ms.drop_last(), p) <= 0 {
                assert(ms.last().1 * pair_count(ms.last().0, p) > 0);
                assert(pair_count(ms.last().0, p) > 0) by {
                    if pair_count(ms.last().0, p) == 0 {
                        assert(ms.last().1 * pair_count(ms.last().0, p) == 0);
                    }
                }
            }
        }
    }
}

/// A word table in which no pair occurs at all yields no merges: training on
/// it records nothing and goes straight to exhaustion whenever merges were
/// asked for.
pub proof fn lemma_no_pairs_no_merges(ms: Seq<WordM>, next_id: int, budget: nat)
    requires
        forall|q: Pair| #[trigger] wcount(ms, q) <= 0,
    ensures
        run_merges(ms, next_id, budget) == Seq::<(Pair, int)>::empty(),
{
    if budget > 0 {
        if best_of(ms) is Some {
            let p = choose|p: Pair| is_best(ms, p);
            assert(is_best(ms, p));
            assert(wcount(ms, p) > 0);
        }
    }
}

/// The base symbol sequence of a pretoken: one id per UTF-8 byte.
pub open spec fn syms_of(k: Seq<char>) -> Seq<u32> {
    encode_utf8(k).map(|i: int, b: u8| b as u32)
}

/// The word table a piece list gives rise to: one word per distinct
/// pretoken in first-seen order, weighted by its occurrence count.
pub open spec fn table_model(ps: Seq<Seq<char>>) -> Seq<WordM> {
    firsts(ps).map(|i: int, k: Seq<char>| (syms_of(k), count_occ(ps, k) as u64))
}

/// Every pretoken's occurrence count fits the counters.
pub open spec fn counts_ok(ps: Seq<Seq<char>>) -> bool {
    forall|k: Seq<char>| #[trigger] count_occ(ps, k) <= u64::MAX
}

/// The weighted total symbol count of the word table fits the counters.
pub open spec fn weight_ok(ps: Seq<Seq<char>>) -> bool {
    total_weight(table_model(ps)) <= u64::MAX
}

/// The pieces of a chunk list, in order, or nothing when the match engine
/// gives up on some chunk.
pub open spec fn all_pieces(pat: Seq<char>, cs: Seq<Seq<char>>) -> Option<Seq<Seq<char>>>
    decreases cs.len(),
{
    if cs.len() == 0 {
        Some(Seq::<Seq<char>>::empty())
    } else {
        if all_pieces(pat, cs.drop_last()) is Some && split_of(pat, cs.last()) is Some {
            Some(all_pieces(pat, cs.drop_last()).unwrap() + split_of(pat, cs.last()).unwrap())
        } else {
            None
        }
    }
}

/// One failing chunk fails the whole scan.
pub proof fn lemma_all_pieces_none(pat: Seq<char>, cs: Seq<Seq<char>>, i: int)
    requires
        0 <= i < cs.len(),
        split_of(pat, cs[i]) is None,
    ensures
        all_pieces(pat, cs) is None,
    decreases cs.len(),
{
    if i < cs.len() - 1 {
        assert(cs.drop_last()[i] == cs[i]);
        lemma_all_pieces_none(pat, cs.drop_last(), i);
    }
}

/// The pieces of a chunk prefix are a prefix of the pieces of the whole.
pub proof fn lemma_all_pieces_prefix(pat: Seq<char>, cs: Seq<Seq<char>>, k: int)
    requires
        0 <= k <= cs.len(),
        all_pieces(pat, cs) is Some,
    ensures
        all_pieces(pat, cs.take(k)) is Some,
        all_pieces(pat, cs.take(k)).unwrap().len() <= all_pieces(pat, cs).unwrap().len(),
        all_pieces(pat, cs.take(k)).unwrap() == all_pieces(pat, cs).unwrap().take(
            all_pieces(pat, cs.take(k)).unwrap().len() as int,
        ),
    decreases cs.len() - k,
{
    let full = all_pieces(pat, cs).unwrap();
    if k == cs.len() {
        assert(cs.take(k) =~= cs);
        assert(full.take(full.len() as int) =~= full);
    } else {
        let csd = cs.drop_last();
        let apd = all_pieces(pat, csd).unwrap();
        assert(apd == full.take(apd.len() as int)) by {
            assert(full == apd + split_of(pat, cs.last()).unwrap());
            assert(full.take(apd.len() as int) =~= apd);
        }
        assert(cs.take(k) =~= csd.take(k));
        lemma_all_pieces_prefix(pat, csd, k);
        let pp = all_pieces(pat, cs.take(k)).unwrap();
        assert(pp == apd.take(pp.len() as int));
        assert(full.take(apd.len() as int).take(pp.len() as int) =~= full.take(pp.len() as int));
    }
}

/// A prefix of a word table weighs no more than the whole.
pub proof fn lemma_tw_prefix(ms: Seq<WordM>, k: int)
    requires
        0 <= k <= ms.len(),
    ensures
        total_weight(ms.take(k)) <= total_weight(ms),
    decreases ms.len(),
{
    if k == ms.len() {
        assert(ms.take(k) =~= ms);
    } else {
        assert(ms.drop_last().take(k) =~= ms.take(k));
        lemma_tw_prefix(ms.drop_last(), k);
        lemma_mul_nonnegative(ms.last().1 as int, ms.last().0.len() as int);
    }
}

/// Counts the pretokens of the whole corpus: batches of at most
/// `buffer_size` chunks go through the parallel splitter, and each batch's
/// pieces are folded into the running table before the next batch starts.
#[verifier::loop_isolation(false)]
fn count_corpus(re: &fancy_regex::Regex, corpus: &Vec<String>, buffer_size: usize) -> (r: Result<
    FreqCounter,
    TrainError,
>)
    requires
        buffer_size >= 1,
    ensures
        r matches Ok(fc) ==> fc.wf() && Some(fc.pieces@) == all_pieces(
            regex_pattern(*re),
            str_views(corpus@),
        ),
        r is Ok <==> (all_pieces(regex_pattern(*re), str_views(corpus@)) matches Some(ps)
            && counts_ok(ps)),
        r == Err::<FreqCounter, TrainError>(TrainError::MatchEngineError) ==> all_pieces(
            regex_pattern(*re),
            str_views(corpus@),
        ) is None,
        r matches Err(e) ==> e == TrainError::MatchEngineError || e == TrainError::CorpusTooLarge,
{
    let ghost pat = regex_pattern(*re);
    let ghost full_cs = str_views(corpus@);
    let mut fc = FreqCounter::new();
    let n = corpus.len();
    let mut c: usize = 0;
    proof {
        assert(str_views(corpus@.take(0)) =~= Seq::<Seq<char>>::empty());
    }
    while c < n
        invariant
            c <= n,
            fc.wf(),
            Some(fc.pieces@) == all_pieces(pat, str_views(corpus@.take(c as int))),
        decreases n - c,
    {
        let rem = n - c;
        let bs = if rem < buffer_size {
            rem
        } else {
            buffer_size
        };
        let mut batch: Vec<String> = Vec::new();
        let mut t: usize = 0;
        while t < bs
            invariant
                t <= bs,
                bs >= 1,
                c + bs <= n,
                batch@.len() == t,
                forall|j: int| 0 <= j < t ==> (#[trigger] batch@[j])@ == corpus@[c + j]@,
            decreases bs - t,
        {
            batch.push(corpus[c + t].clone());
            t = t + 1;
        }
        match par_split(re, batch.as_slice()) {
            Result::Err(_) => {
                proof {
                    let i = choose|i: int|
                        0 <= i < batch@.len() && !((#[trigger] split_of(pat, batch@[i]@)) is Some);
                    assert(split_of(pat, full_cs[c + i]) is None);
                    lemma_all_pieces_none(pat, full_cs, c + i);
                }
                return Err(TrainError::MatchEngineError);
            },
            Result::Ok(per_chunk) => {
                let m = per_chunk.len();
                let mut t2: usize = 0;
                while t2 < m
                    invariant
                        t2 <= m,
                        m == bs,
                        fc.wf(),
                        Some(fc.pieces@) == all_pieces(pat, str_views(corpus@.take(c + t2))),
                        forall|i: int|
                            0 <= i < m ==> Some(str_views((#[trigger] per_chunk@[i])@)) == split_of(
                                pat,
                                batch@[i]@,
                            ),
                    decreases m - t2,
                {
                    let pieces = &per_chunk[t2];
                    let k = pieces.len();
                    let ghost base = fc.pieces@;
                    let mut u: usize = 0;
                    while u < k
                        invariant
                            u <= k,
                            fc.wf(),
                            k == pieces@.len(),
                            fc.pieces@ == base + str_views(pieces@).take(u as int),
                        decreases k - u,
                    {
                        let ghost before = fc.pieces@;
                        match fc.add_piece(&pieces[u]) {
                            Result::Ok(()) => {},
                            Result::Err(e) => {
                                proof {
                                    // the overflowing prefix sits inside the
                                    // whole corpus's pieces, whose count can
                                    // then only be larger
                                    let s = pieces@[u as int]@;
                                    if all_pieces(pat, full_cs) is Some && counts_ok(
                                        all_pieces(pat, full_cs).unwrap(),
                                    ) {
                                        let ps = all_pieces(pat, full_cs).unwrap();
                                        assert(str_views(pieces@).take(u as int).push(s)
                                            =~= str_views(pieces@).take(u as int + 1));
                                        let pfx = before.push(s);
                                        assert(pfx == base + str_views(pieces@).take(u as int + 1));
                                        let csk = corpus@.take(c + t2 + 1);
                                        assert(str_views(csk).drop_last() =~= str_views(
                                            corpus@.take(c + t2),
                                        ));
                                        assert(str_views(csk).last() == corpus@[c + t2]@);
                                        assert(str_views(csk) =~= full_cs.take(c + t2 + 1));
                                        assert(all_pieces(pat, str_views(csk)) == Some(
                                            base + str_views(pieces@),
                                        ));
                                        lemma_all_pieces_prefix(pat, full_cs, c + t2 + 1);
                                        let whole = base + str_views(pieces@);
                                        assert(whole == ps.take(whole.len() as int));
                                        assert(pfx =~= whole.take(pfx.len() as int));
                                        assert(ps.take(whole.len() as int).take(pfx.len() as int)
                                            =~= ps.take(pfx.len() as int));
                                        lemma_count_occ_grows(pfx, ps, s);
                                        assert(count_occ(ps, s) > u64::MAX);
                                        assert(false);
                                    }
                                }
                                return Err(e);
                            },
                        }
                        proof {
                            assert(str_views(pieces@).take(u as int).push(pieces@[u as int]@)
                                =~= str_views(pieces@).take(u as int + 1));
                        }
                        u = u + 1;
                    }
                    proof {
                        assert(str_views(pieces@).take(k as int) =~= str_views(pieces@));
                        let csk = corpus@.take(c + t2 + 1);
                        assert(str_views(csk).drop_last() =~= str_views(corpus@.take(c + t2)));
                        assert(str_views(csk).last() == corpus@[c + t2]@);
                        assert(batch@[t2 as int]@ == corpus@[c + t2]@);
                        assert(Some(fc.pieces@) == all_pieces(pat, str_views(csk)));
                    }
                    t2 = t2 + 1;
                }
                c = c + bs;
            },
        }
    }
    proof {
        assert(corpus@.take(n as int) =~= corpus@);
        assert forall|k: Seq<char>| #[trigger] count_occ(fc.pieces@, k) <= u64::MAX by {
            if firsts(fc.pieces@).contains(k) {
                let j = choose|j: int|
                    0 <= j < firsts(fc.pieces@).len() && firsts(fc.pieces@)[j] == k;
                assert(keys_of(fc.counts@)[j] == k);
                assert(fc.counts@[j].1 == count_occ(fc.pieces@, fc.counts@[j].0@));
            } else {
                lemma_count_absent(fc.pieces@, k);
            }
        }
    }
    Ok(fc)
}

/// Turns the finished pretoken-frequency table into the word table: one word
/// per distinct pretoken, its symbols the pretoken's UTF-8 bytes, its weight
/// the occurrence count. Fails only when the weighted total symbol count no
/// longer fits in 64 bits.
#[verifier::loop_isolation(false)]
fn build_words(fc: &FreqCounter) -> (r: Result<Vec<Word>, TrainError>)
    requires
        fc.wf(),
    ensures
        r matches Ok(words) ==> models(words@) == table_model(fc.pieces@) && wf_words(
            models(words@),
        ) && total_weight(models(words@)) <= u64::MAX,
        r is Ok <==> weight_ok(fc.pieces@),
        r matches Err(e) ==> e == TrainError::CorpusTooLarge,
{
    let ghost ps = fc.pieces@;
    let ghost tm = table_model(ps);
    let n = fc.counts.len();
    let mut words: Vec<Word> = Vec::new();
    let mut tot: u64 = 0;
    let mut i: usize = 0;
    proof {
        assert(tm.len() == n);
        assert(models(words@) =~= tm.take(0));
    }
    while i < n
        invariant
            i <= n,
            words@.len() == i,
            models(words@) == tm.take(i as int),
            tot == total_weight(tm.take(i as int)),
        decreases n - i,
    {
        let s = &fc.counts[i].0;
        let freq = fc.counts[i].1;
        let b = s.as_str().as_bytes_vec();
        let bl = b.len();
        let mut ids: Vec<u32> = Vec::new();
        let mut j: usize = 0;
        while j < bl
            invariant
                j <= bl,
                bl == b@.len(),
                ids@.len() == j,
                forall|x: int| 0 <= x < j ==> (#[trigger] ids@[x]) == b@[x] as u32,
            decreases bl - j,
        {
            ids.push(b[j] as u32);
            j = j + 1;
        }
        proof {
            assert(ids@ =~= syms_of(s@));
            assert(firsts(ps)[i as int] == keys_of(fc.counts@)[i as int]);
            assert(tm[i as int] == (syms_of(s@), count_occ(ps, s@) as u64));
            assert(count_occ(ps, s@) == freq);
            assert(tm.take(i as int + 1).drop_last() =~= tm.take(i as int));
            assert(tm.take(i as int + 1).last() == tm[i as int]);
        }
        let wlen = ids.len() as u64;
        let prod = match freq.checked_mul(wlen) {
            Option::Some(p) => p,
            Option::None => {
                proof {
                    lemma_tw_prefix(tm, i as int + 1);
                    lemma_total_weight_nonneg(tm.take(i as int));
                }
                return Err(TrainError::CorpusTooLarge);
            },
        };
        let ntot = match tot.checked_add(prod) {
            Option::Some(v) => v,
            Option::None => {
                proof {
                    lemma_tw_prefix(tm, i as int + 1);
                }
                return Err(TrainError::CorpusTooLarge);
            },
        };
        tot = ntot;
        words.push(Word { ids, freq });
        proof {
            assert(models(words@) =~= tm.take(i as int + 1));
        }
        i = i + 1;
    }
    proof {
        assert(tm.take(n as int) =~= tm);
        assert forall|x: int| 0 <= x < tm.len() implies (#[trigger] tm[x]).1 >= 1 by {
            assert(firsts(ps)[x] == keys_of(fc.counts@)[x]);
            assert(fc.counts@[x].1 == count_occ(ps, fc.counts@[x].0@));
        }
    }
    Ok(words)
}

/// The merge driver: greedily selects the most frequent pair, allocates the
/// next symbol id, rewrites the owning words through their delta lists, and
/// records the merge, until the budget is spent or no pair remains. The
/// produced merge list equals the functional model `run_merges`.
#[verifier::loop_isolation(false)]
#[verifier::rlimit(60)]
fn run_merge_loop(words: &mut Vec<Word>, vocab_size: u32) -> (r: (Vec<MergeRecord>, TrainOutcome))
    requires
        wf_words(models(old(words)@)),
        total_weight(models(old(words)@)) <= u64::MAX,
    ensures
        recs_model(r.0@) == run_merges(models(old(words)@), 256, target_merges(vocab_size)),
        forall|k: int| 0 <= k < r.0@.len() ==> (#[trigger] r.0@[k]).new_id == 256 + k,
        r.0@.len() <= target_merges(vocab_size),
        r.1 == TrainOutcome::Done <==> r.0@.len() == target_merges(vocab_size),
        r.1 == TrainOutcome::Done || r.1 == TrainOutcome::Exhausted,
{
    let ghost m0 = models(old(words)@);
    let ghost target = target_merges(vocab_size);
    let mut recs: Vec<MergeRecord> = Vec::new();
    let mut idx = PairIndex::from_words(words);
    let target_count: u64 = if vocab_size > BASE_VOCAB_SIZE {
        (vocab_size - BASE_VOCAB_SIZE) as u64
    } else {
        0
    };
    let mut next_id: u32 = BASE_VOCAB_SIZE;
    let n_words = words.len();
    let mut merges_done: u64 = 0;
    let mut exhausted = false;
    proof {
        assert(recs_model(recs@) =~= Seq::<(Pair, int)>::empty());
        assert(run_merges(m0, 256, target) == recs_model(recs@) + run_merges(m0, 256, target));
    }
    while !exhausted && merges_done < target_count
        invariant
            words@.len() == n_words,
            idx.consistent(models(words@)),
            wf_words(models(words@)),
            total_weight(models(words@)) <= u64::MAX,
            merges_done == recs@.len(),
            recs@.len() <= target,
            target_count == target,
            next_id as int == 256 + recs@.len(),
            forall|k: int| 0 <= k < recs@.len() ==> (#[trigger] recs@[k]).new_id == 256 + k,
            exhausted ==> recs_model(recs@) == run_merges(m0, 256, target) && recs@.len() < target,
            !exhausted ==> run_merges(m0, 256, target) == recs_model(recs@) + run_merges(
                models(words@),
                next_id as int,
                (target - recs@.len()) as nat,
            ),
        decreases target - recs@.len() + (if exhausted {
            0int
        } else {
            1int
        }),
    {
        let ghost cur = models(words@);
        let ghost budget = (target - recs@.len()) as nat;
        match idx.top() {
            Option::None => {
                proof {
                    assert forall|q: Pair| !(wcount(cur, q) > 0) by {
                        if wcount(cur, q) > 0 {
                            assert(crate::index::pair_slice_ok(idx.entries@, cur, q));
                            assert(has_pair(idx.entries@, q));
                            let i = choose|i: int|
                                0 <= i < idx.entries@.len() && (#[trigger] idx.entries@[i]).pair
                                    == q;
                        }
                    }
                    assert(best_of(cur) is None) by {
                        if best_of(cur) is Some {
                            let p = choose|p: Pair| is_best(cur, p);
                            assert(is_best(cur, p));
                            assert(wcount(cur, p) > 0);
                        }
                    }
                    assert(run_merges(cur, next_id as int, budget) =~= Seq::<(Pair, int)>::empty());
                    assert(recs_model(recs@) + Seq::<(Pair, int)>::empty() =~= recs_model(recs@));
                }
                exhausted = true;
            },
            Option::Some(p) => {
                proof {
                    let es = idx.entries@;
                    let i = choose|i: int|
                        0 <= i < es.len() && (#[trigger] es[i]).pair == p && forall|j: int|
                            0 <= j < es.len() ==> (#[trigger] es[j]).count < es[i].count || (
                            es[j].count == es[i].count && pair_le(p, es[j].pair));
                    assert(crate::index::pair_slice_ok(es, cur, p));
                    assert(entry_ok(es[i], cur));
                    assert(es[i].count == wcount(cur, p));
                    assert forall|q: Pair| #[trigger]
                        wcount(cur, q) > 0 implies wcount(cur, q) < wcount(cur, p) || (wcount(
                        cur,
                        q,
                    ) == wcount(cur, p) && pair_le(p, q)) by {
                        assert(crate::index::pair_slice_ok(es, cur, q));
                        assert(has_pair(es, q));
                        let j = choose|j: int| 0 <= j < es.len() && (#[trigger] es[j]).pair == q;
                        assert(entry_ok(es[j], cur));
                        assert(es[j].count == wcount(cur, q));
                    }
                    assert(is_best(cur, p));
                    assert(best_of(cur) == Some(p)) by {
                        let c = choose|c: Pair| is_best(cur, c);
                        assert(is_best(cur, c));
                        lemma_best_unique(cur, c, p);
                    }
                }
                let owners = idx.owners_of(p);
                proof {
                    assert(has_pair(idx.entries@, p)) by {
                        assert(wcount(cur, p) > 0);
                        assert(crate::index::pair_slice_ok(idx.entries@, cur, p));
                    }
                    let i = choose|i: int|
                        0 <= i < idx.entries@.len() && (#[trigger] idx.entries@[i]).pair == p
                            && owners@ == idx.entries@[i].words@;
                    assert(entry_ok(idx.entries@[i], cur));
                }
                let ghost ms_before = models(words@);
                let nid = next_id;
                let t_max = owners.len();
                let mut t: usize = 0;
                proof {
                    assert(owners@.take(0) =~= Seq::<usize>::empty());
                    assert(models(words@) =~= step_upto(ms_before, p, nid as int, owners@, 0));
                }
                while t < t_max
                    invariant
                        t <= t_max,
                        t_max == owners@.len(),
                        words@.len() == n_words,
                        owners@.no_duplicates(),
                        forall|k: int|
                            0 <= k < owners@.len() ==> (#[trigger] owners@[k]) < n_words
                                && pair_count(ms_before[owners@[k] as int].0, p) > 0,
                        forall|v: int|
                            0 <= v < n_words && #[trigger] pair_count(ms_before[v].0, p) > 0
                                ==> owners@.contains(v as usize),
                        models(words@) == step_upto(ms_before, p, nid as int, owners@, t as int),
                        idx.consistent(models(words@)),
                        wf_words(models(words@)),
                        total_weight(models(words@)) <= u64::MAX,
                    decreases t_max - t,
                {
                    let w = owners[t];
                    let ghost cur_t = models(words@);
                    proof {
                        assert(!owners@.take(t as int).contains(w)) by {
                            if owners@.take(t as int).contains(w) {
                                let j = choose|j: int|
                                    0 <= j < t && #[trigger] owners@.take(t as int)[j] == w;
                                assert(owners@[j] == owners@[t as int]);
                            }
                        }
                        assert(cur_t[w as int] == ms_before[w as int]);
                        assert(models(words@)[w as int] == words@[w as int]@);
                    }
                    let (new_ids, ds) = merge_ids(&words[w].ids, p, nid);
                    let freq = words[w].freq;
                    proof {
                        let nw = (new_ids@, freq);
                        lemma_total_weight_update(cur_t, w as int, nw);
                        lemma_merged_len(ms_before[w as int].0, p, nid);
                        assert(cur_t[w as int].1 == freq);
                        assert(nw.0.len() <= cur_t[w as int].0.len());
                        lemma_mul_inequality(
                            nw.0.len() as int,
                            cur_t[w as int].0.len() as int,
                            freq as int,
                        );
                        assert((freq as int) * (nw.0.len() as int) == (nw.0.len() as int) * (
                        freq as int)) by (nonlinear_arith);
                        assert((freq as int) * (cur_t[w as int].0.len() as int) == (cur_t[w as int].0.len() as int)
                            * (freq as int)) by (nonlinear_arith);
                        assert(nw.1 * nw.0.len() <= cur_t[w as int].1 * cur_t[w as int].0.len());
                        assert(total_weight(cur_t.update(w as int, nw)) <= u64::MAX);
                    }
                    idx.apply_deltas(Ghost(models(words@)), w, freq, &new_ids, &ds);
                    words.set(w, Word { ids: new_ids, freq });
                    proof {
                        assert(models(words@) =~= cur_t.update(
                            w as int,
                            (merged(ms_before[w as int].0, p, nid), freq),
                        ));
                        assert(owners@.take(t as int + 1) =~= owners@.take(t as int).push(w));
                        assert forall|i: int|
                            0 <= i < n_words implies models(words@)[i] == step_upto(
                            ms_before,
                            p,
                            nid as int,
                            owners@,
                            t as int + 1,
                        )[i] by {
                            if i == w {
                                assert(owners@.take(t as int + 1).contains(w)) by {
                                    assert(owners@.take(t as int + 1).last() == w);
                                }
                            } else {
                                assert(owners@.take(t as int + 1).contains(i as usize)
                                    == owners@.take(t as int).contains(i as usize)) by {
                                    if owners@.take(t as int + 1).contains(i as usize) {
                                        let j = choose|j: int|
                                            0 <= j < t + 1 && #[trigger] owners@.take(
                                                t as int + 1,
                                            )[j] == i;
                                        if j < t {
                                            assert(owners@.take(t as int)[j] == i);
                                        }
                                    }
                                    if owners@.take(t as int).contains(i as usize) {
                                        let j = choose|j: int|
                                            0 <= j < t && #[trigger] owners@.take(t as int)[j]
                                                == i;
                                        assert(owners@.take(t as int + 1)[j] == i);
                                    }
                                }
                            }
                        }
                        assert(models(words@) =~= step_upto(
                            ms_before,
                            p,
                            nid as int,
                            owners@,
                            t as int + 1,
                        ));
                        assert forall|i: int|
                            0 <= i < n_words implies (#[trigger] models(words@)[i]).1
                            == ms_before[i].1 >= 1 by {}
                    }
                    t = t + 1;
                }
                proof {
                    assert(owners@.take(t_max as int) =~= owners@);
                    assert forall|i: int|
                        0 <= i < n_words implies models(words@)[i] == step_words(
                        ms_before,
                        p,
                        nid as int,
                    )[i] by {
                        if pair_count(ms_before[i].0, p) > 0 {
                            assert(owners@.contains(i as usize));
                        } else {
                            if owners@.contains(i as usize) {
                                let j = choose|j: int| 0 <= j < owners@.len() && owners@[j] == i;
                            }
                        }
                    }
                    assert(models(words@) =~= step_words(ms_before, p, nid as int));
                    // unfold the functional model by one step
                    assert(run_merges(ms_before, nid as int, budget) == seq![(p, nid as int)]
                        + run_merges(
                        step_words(ms_before, p, nid as int),
                        nid as int + 1,
                        (budget - 1) as nat,
                    ));
                }
                let ghost recs0 = recs@;
                recs.push(MergeRecord { pair: p, new_id: nid });
                proof {
                    assert(recs_model(recs@) =~= recs_model(recs0) + seq![(p, nid as int)]);
                    assert(recs_model(recs0) + (seq![(p, nid as int)] + run_merges(
                        step_words(ms_before, p, nid as int),
                        nid as int + 1,
                        (budget - 1) as nat,
                    )) =~= (recs_model(recs0) + seq![(p, nid as int)]) + run_merges(
                        step_words(ms_before, p, nid as int),
                        nid as int + 1,
                        (budget - 1) as nat,
                    ));
                }
                next_id = next_id + 1;
                merges_done = merges_done + 1;
            },
        }
    }
    proof {
        if !exhausted {
            assert(recs@.len() == target);
            assert(run_merges(models(words@), next_id as int, 0) =~= Seq::<(Pair, int)>::empty());
            assert(recs_model(recs@) + Seq::<(Pair, int)>::empty() =~= recs_model(recs@));
        }
    }
    let outcome = if exhausted {
        TrainOutcome::Exhausted
    } else {
        TrainOutcome::Done
    };
    (recs, outcome)
}

/// The default split pattern: GPT-4-style pretokenization boundaries —
/// contraction suffixes, letter runs, digit runs of at most three, punctuation
/// runs with optional trailing newlines, and whitespace handling.
pub open spec fn default_pattern_view() -> Seq<char> {
    r"'(?i:[sdmt]|ll|ve|re)|[^\r\n\p{L}\p{N}]?+\p{L}+|\p{N}{1,3}| ?[^\s\p{L}\p{N}]++[\r\n]*|\s*[\r\n]|\s+(?!\S)|\s+"@
}

/// The default split pattern as a string.
pub fn default_pattern() -> (r: &'static str)
    ensures
        r@ == default_pattern_view(),
{
    r"'(?i:[sdmt]|ll|ve|re)|[^\r\n\p{L}\p{N}]?+\p{L}+|\p{N}{1,3}| ?[^\s\p{L}\p{N}]++[\r\n]*|\s*[\r\n]|\s+(?!\S)|\s+"
}

/// The pattern a training call runs under: the override if one is given,
/// otherwise the default.
pub open spec fn chosen_pattern(pattern: Option<String>) -> Seq<char> {
    match pattern {
        Option::Some(p) => p@,
        Option::None => default_pattern_view(),
    }
}

/// What a successful training run leaves behind: the tokenizer holds the
/// chosen pattern, and its merge list equals the functional model of greedy
/// training on the word table that the corpus's pieces give rise to. Since
/// that model is a function of the pattern, the corpus, and the target size
/// alone, two runs on identical input in identical order leave identical
/// merge lists.
pub open spec fn train_spec_ok(
    tok: Tokenizer,
    cp: Seq<char>,
    corpus: Seq<String>,
    vocab_size: u32,
    outcome: TrainOutcome,
) -> bool {
    let ps = all_pieces(cp, str_views(corpus)).unwrap();
    let m0 = table_model(ps);
    let target = target_merges(vocab_size);
    &&& tok.pattern@ == cp
    &&& recs_model(tok.merges@) == run_merges(m0, 256, target)
    &&& forall|k: int| 0 <= k < tok.merges@.len() ==> (#[trigger] tok.merges@[k]).new_id == 256 + k
    &&& tok.merges@.len() <= target
    &&& (outcome == TrainOutcome::Done <==> tok.merges@.len() == target)
    &&& (outcome == TrainOutcome::Done || outcome == TrainOutcome::Exhausted)
}

/// Determinism of training: a successful run's merge list is a function of
/// the pattern, the corpus, and the target size alone, so two runs on
/// identical input in identical order leave identical merge lists and end in
/// the same terminal state.
pub proof fn lemma_training_deterministic(
    a: Tokenizer,
    b: Tokenizer,
    cp: Seq<char>,
    corpus: Seq<String>,
    vocab_size: u32,
    oa: TrainOutcome,
    ob: TrainOutcome,
)
    requires
        train_spec_ok(a, cp, corpus, vocab_size, oa),
        train_spec_ok(b, cp, corpus, vocab_size, ob),
    ensures
        a.merges@ == b.merges@,
        oa == ob,
{
    assert(recs_model(a.merges@).len() == a.merges@.len());
    assert(recs_model(b.merges@).len() == b.merges@.len());
    assert forall|k: int| 0 <= k < a.merges@.len() implies a.merges@[k] == b.merges@[k] by {
        assert(recs_model(a.merges@)[k] == recs_model(b.merges@)[k]);
        assert(a.merges@[k].pair == b.merges@[k].pair);
        assert(a.merges@[k].new_id == b.merges@[k].new_id);
    }
    assert(a.merges@ =~= b.merges@);
}

/// The trained artifact: the ordered merge list and the split pattern; all a
/// caller needs to reconstruct an encoder.
#[derive(Debug)]
pub struct Tokenizer {
    pub merges: Vec<MergeRecord>,
    pub pattern: String,
}

impl Tokenizer {
    /// A tokenizer with no merges yet, under the given split pattern; the
    /// pattern is validated eagerly, an invalid one is rejected here and not
    /// during matching.
    pub fn new(pattern: &str) -> (r: Result<Tokenizer, TrainError>)
        ensures
            r is Ok <==> regex_valid(pattern@),
            r matches Ok(t) ==> t.pattern@ == pattern@ && t.merges@.len() == 0,
            r matches Err(e) ==> e == TrainError::ConfigurationError,
    {
        match compile_pattern(pattern) {
            Result::Ok(_) => Result::Ok(
                Tokenizer { merges: Vec::new(), pattern: pattern.to_owned() },
            ),
            Result::Err(_) => Result::Err(TrainError::ConfigurationError),
        }
    }

    /// Trains the tokenizer on the corpus: counts pretokens over batches of
    /// at most `buffer_size` chunks, builds the word table, and runs the
    /// greedy merge driver until `vocab_size` symbols exist or no pair
    /// remains. On success the merge list equals the functional model of the
    /// run; configuration faults are rejected before any corpus work, a match
    /// engine fault aborts the run, and a run whose counts outgrow 64 bits is
    /// refused rather than corrupted.
    pub fn train_from_iterator(
        &mut self,
        corpus: &Vec<String>,
        vocab_size: u32,
        buffer_size: usize,
        pattern: Option<String>,
    ) -> (r: Result<TrainOutcome, TrainError>)
        ensures
            (r == Err::<TrainOutcome, TrainError>(TrainError::ConfigurationError) <==> (vocab_size
                == 0 || buffer_size == 0 || !regex_valid(chosen_pattern(pattern)))),
            r == Err::<TrainOutcome, TrainError>(TrainError::ConfigurationError) ==> final(self).merges@ == old(self).merges@ && final(self).pattern@ == old(self).pattern@,
            r != Err::<TrainOutcome, TrainError>(TrainError::ConfigurationError) ==> final(self).pattern@ == chosen_pattern(pattern),
            (r is Ok <==> vocab_size >= 1 && buffer_size >= 1 && regex_valid(
                chosen_pattern(pattern),
            ) && (all_pieces(chosen_pattern(pattern), str_views(corpus@)) matches Some(ps)
                && counts_ok(ps) && weight_ok(ps))),
            r matches Ok(outcome) ==> train_spec_ok(
                *final(self),
                chosen_pattern(pattern),
                corpus@,
                vocab_size,
                outcome,
            ),
            r == Err::<TrainOutcome, TrainError>(TrainError::MatchEngineError) ==> all_pieces(
                chosen_pattern(pattern),
                str_views(corpus@),
            ) is None,
            r matches Err(e) ==> e == TrainError::ConfigurationError
                || e == TrainError::MatchEngineError || e == TrainError::CorpusTooLarge,
            r is Err && r != Err::<TrainOutcome, TrainError>(TrainError::ConfigurationError)
                ==> final(self).merges@.len() == 0,
    {
        if vocab_size == 0 || buffer_size == 0 {
            return Err(TrainError::ConfigurationError);
        }
        let pat_string: String = match pattern {
            Option::Some(p) => p,
            Option::None => default_pattern().to_owned(),
        };
        let re = match compile_pattern(pat_string.as_str()) {
            Result::Ok(re) => re,
            Result::Err(_) => {
                return Err(TrainError::ConfigurationError);
            },
        };
        proof {
            assert(pat_string@ == chosen_pattern(pattern));
        }
        self.pattern = pat_string;
        self.merges = Vec::new();
        let fc = match count_corpus(&re, corpus, buffer_size) {
            Result::Ok(fc) => fc,
            Result::Err(e) => {
                return Err(e);
            },
        };
        let mut words = match build_words(&fc) {
            Result::Ok(ws) => ws,
            Result::Err(e) => {
                return Err(e);
            },
        };
        let (recs, outcome) = run_merge_loop(&mut words, vocab_size);
        self.merges = recs;
        Ok(outcome)
    }
}

} // verus!
