//! The mathematical model of symbol sequences: adjacent-pair counts, the
//! left-to-right merge of a pair, and the net effect of a delta list.

use vstd::prelude::*;

verus! {

/// An ordered pair of adjacent symbol identifiers.
pub type Pair = (u32, u32);

/// The number of adjacent positions in `s` that hold the pair `p`.
/// Overlapping positions each count: `[7, 7, 7]` holds `(7, 7)` twice.
pub open spec fn pair_count(s: Seq<u32>, p: Pair) -> int
    decreases s.len(),
{
    if s.len() < 2 {
        0
    } else {
        (if s[0] == p.0 && s[1] == p.1 {
            1int
        } else {
            0int
        }) + pair_count(s.skip(1), p)
    }
}

/// 1 when the junction of `u` followed by `v` forms the pair `p`.
pub open spec fn joint(u: Seq<u32>, v: Seq<u32>, p: Pair) -> int {
    if u.len() > 0 && v.len() > 0 && u.last() == p.0 && v[0] == p.1 {
        1
    } else {
        0
    }
}

/// The symbol sequence left after every non-overlapping left-to-right
/// occurrence of `p` in `s` is replaced by the single symbol `nid`.
pub open spec fn merged(s: Seq<u32>, p: Pair, nid: u32) -> Seq<u32>
    decreases s.len(),
{
    if s.len() >= 2 && s[0] == p.0 && s[1] == p.1 {
        seq![nid] + merged(s.skip(2), p, nid)
    } else if s.len() >= 1 {
        seq![s[0]] + merged(s.skip(1), p, nid)
    } else {
        Seq::<u32>::empty()
    }
}

/// How many replacements the left-to-right merge of `p` performs on `s`.
pub open spec fn occurrences(s: Seq<u32>, p: Pair) -> int
    decreases s.len(),
{
    if s.len() >= 2 && s[0] == p.0 && s[1] == p.1 {
        1 + occurrences(s.skip(2), p)
    } else if s.len() >= 1 {
        occurrences(s.skip(1), p)
    } else {
        0
    }
}

/// The net signed adjustment that the delta list `ds` carries for the pair `p`.
pub open spec fn delta_sum(ds: Seq<(Pair, i64)>, p: Pair) -> int
    decreases ds.len(),
{
    if ds.len() == 0 {
        0
    } else {
        delta_sum(ds.drop_last(), p) + (if ds.last().0 == p {
            ds.last().1 as int
        } else {
            0int
        })
    }
}

pub proof fn lemma_pair_count_nonneg(s: Seq<u32>, p: Pair)
    ensures
        pair_count(s, p) >= 0,
    decreases s.len(),
{
    if s.len() >= 2 {
        lemma_pair_count_nonneg(s.skip(1), p);
    }
}

/// A pair occupies two positions, so at most `len - 1` positions hold it.
pub proof fn lemma_pair_count_le_len(s: Seq<u32>, p: Pair)
    ensures
        pair_count(s, p) <= s.len(),
        s.len() >= 1 ==> pair_count(s, p) <= s.len() - 1,
    decreases s.len(),
{
    if s.len() >= 2 {
        lemma_pair_count_le_len(s.skip(1), p);
    }
}

/// Counting pairs distributes over concatenation, up to the junction pair.
pub proof fn lemma_pair_count_concat(u: Seq<u32>, v: Seq<u32>, p: Pair)
    ensures
        pair_count(u + v, p) == pair_count(u, p) + pair_count(v, p) + joint(u, v, p),
    decreases u.len(),
{
    if u.len() == 0 {
        assert(u + v =~= v);
    } else if u.len() == 1 {
        if v.len() == 0 {
            assert(u + v =~= u);
        } else {
            assert((u + v).skip(1) =~= v);
            assert((u + v)[0] == u[0]);
            assert((u + v)[1] == v[0]);
        }
    } else {
        assert((u + v).skip(1) =~= u.skip(1) + v);
        lemma_pair_count_concat(u.skip(1), v, p);
        assert(u.skip(1).last() == u.last());
        assert((u + v)[0] == u[0]);
        assert((u + v)[1] == u[1]);
    }
}

pub proof fn lemma_pair_count_singleton(x: u32, p: Pair)
    ensures
        pair_count(seq![x], p) == 0,
{
}

pub proof fn lemma_pair_count_two(x: u32, y: u32, p: Pair)
    ensures
        pair_count(seq![x, y], p) == (if x == p.0 && y == p.1 {
            1int
        } else {
            0int
        }),
{
    assert(seq![x, y].skip(1) =~= seq![y]);
    lemma_pair_count_singleton(y, p);
}

/// Appending one delta adds its (matched) adjustment to every net sum.
pub proof fn lemma_delta_sum_push(ds: Seq<(Pair, i64)>, e: (Pair, i64))
    ensures
        forall|q: Pair| #[trigger] delta_sum(ds.push(e), q) == delta_sum(ds, q) + (if e.0 == q {
            e.1 as int
        } else {
            0int
        }),
{
    assert forall|q: Pair| #[trigger] delta_sum(ds.push(e), q) == delta_sum(ds, q) + (if e.0 == q {
        e.1 as int
    } else {
        0int
    }) by {
        assert(ds.push(e).drop_last() =~= ds);
        assert(ds.push(e).last() == e);
    }
}

/// Each merge replacement shortens the word by exactly one symbol, so the
/// merged length is the original length less the number of replacements.
pub proof fn lemma_merged_len(s: Seq<u32>, p: Pair, nid: u32)
    ensures
        occurrences(s, p) >= 0,
        merged(s, p, nid).len() == s.len() - occurrences(s, p),
    decreases s.len(),
{
    if s.len() >= 2 && s[0] == p.0 && s[1] == p.1 {
        lemma_merged_len(s.skip(2), p, nid);
    } else if s.len() >= 1 {
        lemma_merged_len(s.skip(1), p, nid);
    }
}

/// The merge replaces something exactly when the pair occurs at all.
pub proof fn lemma_occurrences_pos(s: Seq<u32>, p: Pair)
    ensures
        occurrences(s, p) > 0 <==> pair_count(s, p) > 0,
    decreases s.len(),
{
    lemma_pair_count_nonneg(s, p);
    if s.len() >= 2 && s[0] == p.0 && s[1] == p.1 {
        lemma_merged_len(s.skip(2), p, 0);
        lemma_pair_count_nonneg(s.skip(1), p);
        assert(occurrences(s, p) == 1 + occurrences(s.skip(2), p));
        assert(pair_count(s, p) == 1 + pair_count(s.skip(1), p));
    } else if s.len() >= 1 {
        lemma_occurrences_pos(s.skip(1), p);
        lemma_pair_count_nonneg(s.skip(1), p);
        lemma_pair_count_le_len(s.skip(1), p);
        assert(occurrences(s, p) == occurrences(s.skip(1), p));
    }
}

/// The pair-count change caused by rewriting one merge site: in the context
/// `u ++ [p.0, p.1] ++ w`, replacing the middle by `[nid]` removes the merged
/// pair and the two junction pairs and introduces the two new junction pairs.
pub proof fn lemma_merge_site_deltas(u: Seq<u32>, w: Seq<u32>, p: Pair, nid: u32, q: Pair)
    ensures
        pair_count(u + seq![nid] + w, q) - pair_count(u + seq![p.0, p.1] + w, q) == (if u.len() > 0
            && (u.last(), p.0) == q {
            -1int
        } else {
            0int
        }) + (if u.len() > 0 && (u.last(), nid) == q {
            1int
        } else {
            0int
        }) + (if (p.0, p.1) == q {
            -1int
        } else {
            0int
        }) + (if w.len() > 0 && (p.1, w[0]) == q {
            -1int
        } else {
            0int
        }) + (if w.len() > 0 && (nid, w[0]) == q {
            1int
        } else {
            0int
        }),
{
    lemma_pair_count_concat(u + seq![nid], w, q);
    lemma_pair_count_concat(u, seq![nid], q);
    lemma_pair_count_singleton(nid, q);
    lemma_pair_count_concat(u + seq![p.0, p.1], w, q);
    lemma_pair_count_concat(u, seq![p.0, p.1], q);
    lemma_pair_count_two(p.0, p.1, q);
    assert((u + seq![nid]).len() > 0);
    assert((u + seq![nid]).last() == nid);
    assert((u + seq![p.0, p.1]).last() == p.1);
    assert((u + seq![p.0, p.1])[0] == if u.len() > 0 {
        u[0]
    } else {
        p.0
    });
}

} // verus!
