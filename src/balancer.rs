//! Choice of the peer that runs a request: lowest blend of current load and
//! share of past work.
use crate::messages::NodeId;
use vstd::prelude::*;

verus! {

/// A total of past work beyond which the load term alone decides between
/// two candidates whose loads differ.
pub const LARGE_TOTAL: u128 = 0x40_0000_0000_0000_0000;

/// Sum of the processed counts of the candidates `(id, load, processed)`.
pub open spec fn total_processed(c: Seq<(NodeId, u64, u64)>) -> int
    decreases c.len(),
{
    if c.len() == 0 {
        0
    } else {
        total_processed(c.drop_last()) + c.last().2
    }
}

/// The score `0.7 * load + 0.3 * (processed / total) * 100`, scaled by
/// `10 * total` so that it is an integer with the same order; when no work
/// was ever done (`total == 0`) the score is `0.7 * load`, scaled by 10.
pub open spec fn score_key(c: (NodeId, u64, u64), total: int) -> int {
    if total == 0 {
        7 * c.1
    } else {
        7 * c.1 * total + 300 * c.2
    }
}

/// Candidate `a` scores better than `b`: lower score, or equal score and lower id.
pub open spec fn scores_better(a: (NodeId, u64, u64), b: (NodeId, u64, u64), total: int) -> bool {
    score_key(a, total) < score_key(b, total) || (score_key(a, total) == score_key(b, total) && a.0
        < b.0)
}

/// The best-scoring candidate.
pub open spec fn best_scored(c: Seq<(NodeId, u64, u64)>, total: int) -> (NodeId, u64, u64)
    decreases c.len(),
{
    if c.len() <= 1 {
        c[0]
    } else {
        let rest = best_scored(c.drop_last(), total);
        if scores_better(c.last(), rest, total) {
            c.last()
        } else {
            rest
        }
    }
}

proof fn lemma_processed_within_total(c: Seq<(NodeId, u64, u64)>, i: int)
    requires
        0 <= i < c.len(),
    ensures
        0 <= c[i].2 <= total_processed(c),
    decreases c.len(),
{
    if i < c.len() - 1 {
        lemma_processed_within_total(c.drop_last(), i);
        assert(c.drop_last()[i] == c[i]);
    }
    lemma_total_nonnegative(c.drop_last());
}

proof fn lemma_total_nonnegative(c: Seq<(NodeId, u64, u64)>)
    ensures
        total_processed(c) >= 0,
    decreases c.len(),
{
    if c.len() > 0 {
        lemma_total_nonnegative(c.drop_last());
    }
}

proof fn lemma_best_is_least(c: Seq<(NodeId, u64, u64)>, total: int)
    requires
        c.len() > 0,
    ensures
        c.contains(best_scored(c, total)),
        forall|i: int| 0 <= i < c.len() ==> !scores_better(#[trigger] c[i], best_scored(c, total), total),
    decreases c.len(),
{
    if c.len() > 1 {
        let rest = c.drop_last();
        lemma_best_is_least(rest, total);
        let j = choose|j: int| 0 <= j < rest.len() && rest[j] == best_scored(rest, total);
        assert(c[j] == best_scored(rest, total));
        assert forall|i: int| 0 <= i < c.len() implies !scores_better(
            #[trigger] c[i],
            best_scored(c, total),
            total,
        ) by {
            if i < c.len() - 1 {
                assert(c[i] == rest[i]);
            }
        }
        if scores_better(c.last(), best_scored(rest, total), total) {
            assert(c[c.len() - 1] == best_scored(c, total));
        }
    } else {
        assert(c[0] == best_scored(c, total));
    }
}

/// Whether `a` scores better than `b` when the processed counts of all
/// candidates sum to `total`, decided exactly. Two loads at least 43 apart
/// decide alone, since the share term stays within 0..=30; otherwise the
/// scaled difference of the scores is computed in `i128`, with a total
/// beyond `LARGE_TOTAL` standing for any larger one.
fn scores_better_exec(a: (NodeId, u64, u64), b: (NodeId, u64, u64), total: u128) -> (r: bool)
    requires
        a.2 <= total,
        b.2 <= total,
    ensures
        r == scores_better(a, b, total as int),
{
    let ghost t = total as int;
    let ghost dl = a.1 as int - b.1 as int;
    let ghost dp = a.2 as int - b.2 as int;
    assert(score_key(a, t) - score_key(b, t) == if t == 0 {
        7 * dl
    } else {
        7 * dl * t + 300 * dp
    }) by (nonlinear_arith)
        requires
            dl == a.1 as int - b.1 as int,
            dp == a.2 as int - b.2 as int,
            t == total as int,
    ;
    let (less, equal) = if total == 0 {
        (a.1 < b.1, a.1 == b.1)
    } else if a.1 > b.1 && a.1 - b.1 >= 43 {
        assert(7 * dl * t + 300 * dp > 0) by (nonlinear_arith)
            requires
                dl >= 43,
                dp >= -t,
                t > 0,
        ;
        (false, false)
    } else if b.1 > a.1 && b.1 - a.1 >= 43 {
        assert(7 * dl * t + 300 * dp < 0) by (nonlinear_arith)
            requires
                dl <= -43,
                dp <= t,
                t > 0,
        ;
        (true, false)
    } else {
        let sdl: i128 = a.1 as i128 - b.1 as i128;
        let sdp: i128 = a.2 as i128 - b.2 as i128;
        let tc: i128 = if total > LARGE_TOTAL {
            LARGE_TOTAL as i128
        } else {
            total as i128
        };
        assert(-42 <= sdl <= 42);
        assert(-42 * 0x40_0000_0000_0000_0000 <= sdl * tc <= 42 * 0x40_0000_0000_0000_0000)
            by (nonlinear_arith)
            requires
                -42 <= sdl <= 42,
                0 <= tc <= 0x40_0000_0000_0000_0000,
        ;
        let d: i128 = 7 * (sdl * tc) + 300 * sdp;
        proof {
            let dd = 7 * dl * t + 300 * dp;
            assert(7 * (sdl * tc) == 7 * sdl * tc) by (nonlinear_arith);
            if total > LARGE_TOTAL && sdl != 0 {
                assert(-300 * 0x1_0000_0000_0000_0000 < 300 * dp < 300 * 0x1_0000_0000_0000_0000);
                assert((d < 0) == (dd < 0) && (d == 0) == (dd == 0)) by (nonlinear_arith)
                    requires
                        d == 7 * sdl * tc + 300 * dp,
                        dd == 7 * sdl * t + 300 * dp,
                        tc == 0x40_0000_0000_0000_0000,
                        t > tc,
                        sdl != 0,
                        -300 * 0x1_0000_0000_0000_0000 < 300 * dp < 300 * 0x1_0000_0000_0000_0000,
                ;
            }
        }
        (d < 0, d == 0)
    };
    less || (equal && a.0 < b.0)
}

/// The id of the best-scoring candidate `(id, load, processed)`; no other
/// candidate has a lower score, nor an equal score and a lower id.
pub fn pick_lowest_score(c: &Vec<(NodeId, u64, u64)>) -> (r: NodeId)
    requires
        c@.len() > 0,
    ensures
        r == best_scored(c@, total_processed(c@)).0,
        exists|i: int| 0 <= i < c@.len() && c@[i].0 == r,
        forall|i: int|
            0 <= i < c@.len() ==> !scores_better(
                #[trigger] c@[i],
                best_scored(c@, total_processed(c@)),
                total_processed(c@),
            ),
{
    let mut total: u128 = 0;
    let mut i: usize = 0;
    while i < c.len()
        invariant
            i <= c.len(),
            total == total_processed(c@.subrange(0, i as int)),
            total <= i * (u64::MAX as int),
        decreases c.len() - i,
    {
        assert(c@.subrange(0, i + 1).drop_last() =~= c@.subrange(0, i as int));
        assert(total + c@[i as int].2 <= (i + 1) * (u64::MAX as int)) by (nonlinear_arith)
            requires
                total <= i * (u64::MAX as int),
                c@[i as int].2 <= u64::MAX,
        ;
        assert((i + 1) * (u64::MAX as int) <= (usize::MAX as int) * (u64::MAX as int))
            by (nonlinear_arith)
            requires
                i + 1 <= usize::MAX,
        ;
        assert((usize::MAX as int) * (u64::MAX as int) <= u128::MAX) by (nonlinear_arith)
            requires
                usize::MAX <= u64::MAX,
        ;
        total = total + c[i].2 as u128;
        i += 1;
    }
    assert(c@.subrange(0, c.len() as int) =~= c@);
    let ghost t = total as int;
    proof {
        lemma_best_is_least(c@, t);
    }
    let mut best = c[0];
    let mut k: usize = 1;
    assert(c@.subrange(0, 1) =~= seq![c@[0]]);
    while k < c.len()
        invariant
            1 <= k <= c.len(),
            t == total,
            t == total_processed(c@),
            best == best_scored(c@.subrange(0, k as int), t),
            c@.contains(best),
        decreases c.len() - k,
    {
        let cand = c[k];
        assert(c@.subrange(0, k + 1).drop_last() =~= c@.subrange(0, k as int));
        proof {
            lemma_processed_within_total(c@, k as int);
            let j = choose|j: int| 0 <= j < c@.len() && c@[j] == best;
            lemma_processed_within_total(c@, j);
        }
        if scores_better_exec(cand, best, total) {
            best = cand;
        }
        k += 1;
    }
    assert(c@.subrange(0, c.len() as int) =~= c@);
    best.0
}

} // verus!
