//! Quote candidates on one side of an order book and the volume queued ahead
//! of each of them.
//!
//! A side of the book is a list of rates (as order keys), best first: bids in
//! falling order for the buy side, asks in rising order for the sell side.
//! `tick` is the quoting step, positive on the buy side (a better bid is
//! higher) and negative on the sell side (a better ask is lower).
use vstd::prelude::*;

verus! {

/// A book level at rate `r` sits ahead of, or level with, a quote at `rate`:
/// on the buy side (`tick > 0`) the quote is not above it, on the sell side
/// the quote is not below it.
pub open spec fn level_ahead(tick: int, rate: int, r: int) -> bool {
    if tick > 0 {
        !(rate > r)
    } else {
        !(rate < r)
    }
}

/// The end of the run of levels ahead of a quote at `rate` that starts at
/// level `i`.
pub open spec fn run_end(tick: int, rate: int, rates: Seq<i64>, i: int) -> int
    decreases rates.len() - i,
{
    if 0 <= i < rates.len() && level_ahead(tick, rate, rates[i] as int) {
        run_end(tick, rate, rates, i + 1)
    } else {
        i
    }
}

/// How many leading levels of the book sit ahead of a quote at `rate`.
pub open spec fn depth(tick: int, rate: int, rates: Seq<i64>) -> int {
    run_end(tick, rate, rates, 0)
}

/// On a side in order, the levels ahead of a quote are a prefix: exactly those
/// at a rate at least as good as the quote's.
proof fn lemma_depth_sorted(tick: int, rate: int, rates: Seq<i64>)
    requires
        forall|i: int, j: int|
            0 <= i <= j < rates.len() ==> if tick > 0 {
                rates[j] <= rates[i]
            } else {
                rates[i] <= rates[j]
            },
    ensures
        0 <= depth(tick, rate, rates) <= rates.len(),
        forall|j: int|
            0 <= j < rates.len() ==> (j < depth(tick, rate, rates) <==> if tick > 0 {
                rate <= #[trigger] rates[j]
            } else {
                rates[j] <= rate
            }),
{
    lemma_depth(tick, rate, rates);
    let d = depth(tick, rate, rates);
    assert forall|j: int|
        0 <= j < rates.len() implies (j < d <==> if tick > 0 {
            rate <= #[trigger] rates[j]
        } else {
            rates[j] <= rate
        }) by {
        if j < d {
            assert(level_ahead(tick, rate, rates[j] as int));
        } else {
            assert(!level_ahead(tick, rate, rates[d] as int));
            assert(if tick > 0 { rates[j] <= rates[d] } else { rates[d] <= rates[j] });
        }
    }
}

/// On a side in order, the levels ahead of a quote are exactly those at a rate
/// at least as good for the other side as the quote's: bids at or above a bid,
/// asks at or below an ask.  In particular a quote at the rate of level `i`,
/// when the next level is strictly worse, queues behind levels `0..=i` and so
/// behind the cumulative volume `cum_sum[i]`.
pub proof fn lemma_depth_in_order<T>(tick: int, rate: int, rates: Seq<i64>, cum_sum: Seq<T>, zero: T)
    requires
        forall|i: int, j: int|
            0 <= i <= j < rates.len() ==> if tick > 0 {
                rates[j] <= rates[i]
            } else {
                rates[i] <= rates[j]
            },
    ensures
        forall|j: int|
            0 <= j < rates.len() ==> (j < depth(tick, rate, rates) <==> if tick > 0 {
                rate <= #[trigger] rates[j]
            } else {
                rates[j] <= rate
            }),
        forall|i: int|
            0 <= i < rates.len() && i < cum_sum.len() && rate == rates[i] && (i + 1 < rates.len() ==> rates[i
                + 1] != rates[i]) ==> #[trigger] cum_sum[i] == volume_ahead(tick, rate, rates, cum_sum, zero),
        forall|i: int|
            0 <= i < rates.len() && i < cum_sum.len() && (if tick > 0 {
                rate <= #[trigger] rates[i]
            } else {
                rates[i] <= rate
            }) && (i + 1 < rates.len() ==> if tick > 0 {
                rate > rates[i + 1]
            } else {
                rates[i + 1] > rate
            }) ==> volume_ahead(tick, rate, rates, cum_sum, zero) == cum_sum[i],
        rates.len() == 0 || (if tick > 0 { rate > rates[0] } else { rate < rates[0] }) ==> volume_ahead(
            tick,
            rate,
            rates,
            cum_sum,
            zero,
        ) == zero,
{
    lemma_depth_sorted(tick, rate, rates);
    let d = depth(tick, rate, rates);
    assert forall|i: int|
        0 <= i < rates.len() && i < cum_sum.len() && (if tick > 0 {
            rate <= #[trigger] rates[i]
        } else {
            rates[i] <= rate
        }) && (i + 1 < rates.len() ==> if tick > 0 {
            rate > rates[i + 1]
        } else {
            rates[i + 1] > rate
        }) implies volume_ahead(tick, rate, rates, cum_sum, zero) == cum_sum[i] by {
        assert(i < d);
        if i + 1 < rates.len() {
            assert(!(i + 1 < d));
        }
    }
    assert forall|i: int|
        0 <= i < rates.len() && i < cum_sum.len() && rate == rates[i] && (i + 1 < rates.len() ==> rates[i + 1]
            != rates[i]) implies #[trigger] cum_sum[i] == volume_ahead(tick, rate, rates, cum_sum, zero) by {
        assert(i < d);
        if i + 1 < rates.len() {
            assert(if tick > 0 { rates[i + 1] <= rates[i] } else { rates[i] <= rates[i + 1] });
            assert(!(i + 1 < d));
        }
    }
    if rates.len() > 0 {
        assert(0 < d <==> if tick > 0 {
            rate <= rates[0]
        } else {
            rates[0] <= rate
        });
    }
}

/// The volume queued ahead of a quote at `rate`: the cumulative volume of the
/// levels ahead of it, or `zero` when no level is.
pub open spec fn volume_ahead<T>(tick: int, rate: int, rates: Seq<i64>, cum_sum: Seq<T>, zero: T) -> T {
    let d = depth(tick, rate, rates);
    if d == 0 {
        zero
    } else {
        cum_sum[d - 1]
    }
}

/// A run starting at `i` ends at the first level from `i` on that is not ahead
/// of the quote, or at the end of the book.
pub proof fn lemma_run_end(tick: int, rate: int, rates: Seq<i64>, i: int)
    requires
        0 <= i <= rates.len(),
    ensures
        i <= run_end(tick, rate, rates, i) <= rates.len(),
        forall|j: int|
            i <= j < run_end(tick, rate, rates, i) ==> level_ahead(tick, rate, #[trigger] rates[j] as int),
        run_end(tick, rate, rates, i) < rates.len() ==> !level_ahead(
            tick,
            rate,
            rates[run_end(tick, rate, rates, i)] as int,
        ),
    decreases rates.len() - i,
{
    if i < rates.len() && level_ahead(tick, rate, rates[i] as int) {
        lemma_run_end(tick, rate, rates, i + 1);
    }
}

/// The depth of a quote is the length of the longest prefix of the book whose
/// levels all sit ahead of it.
pub proof fn lemma_depth(tick: int, rate: int, rates: Seq<i64>)
    ensures
        0 <= depth(tick, rate, rates) <= rates.len(),
        forall|j: int| 0 <= j < depth(tick, rate, rates) ==> level_ahead(tick, rate, #[trigger] rates[j] as int),
        depth(tick, rate, rates) < rates.len() ==> !level_ahead(
            tick,
            rate,
            rates[depth(tick, rate, rates)] as int,
        ),
{
    lemma_run_end(tick, rate, rates, 0);
}

/// A more aggressive quote never has more of the book ahead of it: on the buy
/// side a higher bid, on the sell side a lower ask, has at most the depth of
/// the less aggressive one.
pub proof fn lemma_depth_monotone(tick: int, rate1: int, rate2: int, rates: Seq<i64>)
    requires
        rate1 <= rate2,
    ensures
        tick > 0 ==> depth(tick, rate2, rates) <= depth(tick, rate1, rates),
        tick <= 0 ==> depth(tick, rate1, rates) <= depth(tick, rate2, rates),
{
    lemma_depth(tick, rate1, rates);
    lemma_depth(tick, rate2, rates);
    let d1 = depth(tick, rate1, rates);
    let d2 = depth(tick, rate2, rates);
    if tick > 0 && d1 < d2 {
        assert(level_ahead(tick, rate2, rates[d1] as int));
    }
    if tick <= 0 && d2 < d1 {
        assert(level_ahead(tick, rate1, rates[d2] as int));
    }
}

/// The volume queued ahead of a quote at `rate`: the cumulative volume
/// `cum_sum[i]` of the last level `i` of the leading run of levels that sit
/// ahead of the quote, or `zero` when the best level is already behind it.
pub fn preceding_volume<T: Copy>(tick: i64, rate: i64, rates: &Vec<i64>, cum_sum: &Vec<T>, zero: T) -> (volume: T)
    requires
        rates.len() <= cum_sum.len() || depth(tick as int, rate as int, rates@) <= cum_sum.len(),
    ensures
        volume == volume_ahead(tick as int, rate as int, rates@, cum_sum@, zero),
{
    let ghost d = depth(tick as int, rate as int, rates@);
    proof {
        lemma_depth(tick as int, rate as int, rates@);
    }
    let mut volume = zero;
    let mut i: usize = 0;
    while i < rates.len()
        invariant
            0 <= i <= d <= rates.len(),
            d == depth(tick as int, rate as int, rates@),
            d <= cum_sum.len(),
            forall|j: int| 0 <= j < d ==> level_ahead(tick as int, rate as int, #[trigger] rates[j] as int),
            d < rates.len() ==> !level_ahead(tick as int, rate as int, rates[d] as int),
            volume == (if i == 0 { zero } else { cum_sum[i - 1] }),
        ensures
            i == d,
            volume == (if i == 0 { zero } else { cum_sum[i - 1] }),
        decreases rates.len() - i,
    {
        let r = rates[i];
        let ahead = if tick > 0 {
            !(rate > r)
        } else {
            !(rate < r)
        };
        if !ahead {
            assert(i < d ==> level_ahead(tick as int, rate as int, rates[i as int] as int));
            break;
        }
        volume = cum_sum[i];
        i = i + 1;
    }
    volume
}

/// Whether the level `i` yields a quote candidate: always when order
/// conflicts are allowed, otherwise only when its improved rate keeps at least
/// a tick away from the next better level (`distinct[i]`).
pub open spec fn keeps(distinct: Seq<bool>, allow_order_conflicts: bool, i: int) -> bool {
    allow_order_conflicts || distinct[i]
}

/// The candidates that levels `hi - 1` down to `lo` yield, in that order.
pub open spec fn picks<T>(
    shifted: Seq<T>,
    distinct: Seq<bool>,
    allow_order_conflicts: bool,
    hi: int,
    lo: int,
) -> Seq<T>
    decreases hi - lo,
{
    if lo < hi {
        picks(shifted, distinct, allow_order_conflicts, hi, lo + 1) + (if keeps(
            distinct,
            allow_order_conflicts,
            lo,
        ) {
            seq![shifted[lo]]
        } else {
            Seq::empty()
        })
    } else {
        Seq::empty()
    }
}

/// The quote candidates of a book side, worst level first: the improved rate
/// `shifted[i]` of every level `i >= 1` that `keeps`, from the last level up,
/// and then always the improved best rate `shifted[0]`.
pub open spec fn candidates<T>(shifted: Seq<T>, distinct: Seq<bool>, allow_order_conflicts: bool) -> Seq<T> {
    picks(shifted, distinct, allow_order_conflicts, shifted.len() as int, 1).push(shifted[0])
}

/// Appends to `out` the quote candidates of a book side (`candidates`).
/// `shifted[i]` is level `i` improved by one tick and rounded to the price
/// grid; `distinct[i]` tells whether that improved rate stays at least a tick
/// away from level `i - 1`.
pub fn candidate_rates<T: Copy>(
    shifted: &Vec<T>,
    distinct: &Vec<bool>,
    allow_order_conflicts: bool,
    out: &mut Vec<T>,
)
    requires
        shifted.len() >= 1,
        distinct.len() == shifted.len(),
    ensures
        final(out)@ == old(out)@ + candidates(shifted@, distinct@, allow_order_conflicts),
        final(out)@ == old(out)@ + Seq::new((shifted.len() - 1) as nat, |j: int| j + 1).filter(
            |i: int| allow_order_conflicts || distinct[i],
        ).reverse().map_values(|i: int| shifted[i]).push(shifted[0]),
{
    proof {
        lemma_candidates_select(shifted@, distinct@, allow_order_conflicts);
    }
    let n = shifted.len();
    let mut i: usize = n;
    while i > 1
        invariant
            n == shifted.len(),
            distinct.len() == n,
            1 <= i <= n,
            out@ == old(out)@ + picks(shifted@, distinct@, allow_order_conflicts, n as int, i as int),
        decreases i,
    {
        i = i - 1;
        if allow_order_conflicts || distinct[i] {
            out.push(shifted[i]);
        }
    }
    out.push(shifted[0]);
}

/// Every level contributes at most one candidate; with order conflicts allowed
/// every level contributes exactly one, and the candidates are the improved
/// rates from the worst level to the best.
pub proof fn lemma_picks<T>(shifted: Seq<T>, distinct: Seq<bool>, allow_order_conflicts: bool, hi: int, lo: int)
    requires
        0 <= lo <= hi <= shifted.len(),
    ensures
        picks(shifted, distinct, allow_order_conflicts, hi, lo).len() <= hi - lo,
        allow_order_conflicts ==> picks(shifted, distinct, allow_order_conflicts, hi, lo)
            == shifted.subrange(lo, hi).reverse(),
    decreases hi - lo,
{
    if lo < hi {
        lemma_picks(shifted, distinct, allow_order_conflicts, hi, lo + 1);
        if allow_order_conflicts {
            assert(shifted.subrange(lo, hi).reverse() =~= shifted.subrange(lo + 1, hi).reverse()
                + seq![shifted[lo]]);
        }
    } else {
        assert(shifted.subrange(lo, hi).reverse() =~= Seq::<T>::empty());
    }
}

/// Peeling the top level off: levels `hi - 1` down to `lo` yield the
/// candidate of level `hi - 1`, if it keeps, followed by those of the levels
/// below it.
proof fn lemma_picks_top<T>(shifted: Seq<T>, distinct: Seq<bool>, allow_order_conflicts: bool, hi: int, lo: int)
    requires
        lo < hi,
    ensures
        picks(shifted, distinct, allow_order_conflicts, hi, lo) == (if keeps(
            distinct,
            allow_order_conflicts,
            hi - 1,
        ) {
            seq![shifted[hi - 1]]
        } else {
            Seq::empty()
        }) + picks(shifted, distinct, allow_order_conflicts, hi - 1, lo),
    decreases hi - lo,
{
    if lo + 1 < hi {
        lemma_picks_top(shifted, distinct, allow_order_conflicts, hi, lo + 1);
        let top = if keeps(distinct, allow_order_conflicts, hi - 1) {
            seq![shifted[hi - 1]]
        } else {
            Seq::empty()
        };
        let bottom = if keeps(distinct, allow_order_conflicts, lo) {
            seq![shifted[lo]]
        } else {
            Seq::empty()
        };
        assert(top + picks(shifted, distinct, allow_order_conflicts, hi - 1, lo + 1) + bottom =~= top + (
        picks(shifted, distinct, allow_order_conflicts, hi - 1, lo + 1) + bottom));
    } else {
        assert(picks(shifted, distinct, allow_order_conflicts, hi - 1, lo) =~= Seq::<T>::empty());
        assert(picks(shifted, distinct, allow_order_conflicts, hi, lo + 1) =~= Seq::<T>::empty());
    }
}

/// The levels `1..hi` that yield a candidate, in order, are those with a
/// conflict-free improved rate (or all of them when conflicts are allowed);
/// their candidates come worst level first.
proof fn lemma_picks_select<T>(shifted: Seq<T>, distinct: Seq<bool>, allow_order_conflicts: bool, hi: int)
    requires
        1 <= hi <= shifted.len(),
    ensures
        picks(shifted, distinct, allow_order_conflicts, hi, 1) == Seq::new((hi - 1) as nat, |j: int| j + 1).filter(
            |i: int| allow_order_conflicts || distinct[i],
        ).reverse().map_values(|i: int| shifted[i]),
    decreases hi,
{
    reveal_with_fuel(Seq::<_>::filter, 1);
    let p = |i: int| allow_order_conflicts || distinct[i];
    let f = |i: int| shifted[i];
    let levels = Seq::new((hi - 1) as nat, |j: int| j + 1);
    if hi == 1 {
        assert(levels.filter(p) =~= Seq::<int>::empty());
        assert(levels.filter(p).reverse().map_values(f) =~= Seq::<T>::empty());
    } else {
        lemma_picks_select(shifted, distinct, allow_order_conflicts, hi - 1);
        lemma_picks_top(shifted, distinct, allow_order_conflicts, hi, 1);
        let below = Seq::new((hi - 2) as nat, |j: int| j + 1);
        assert(levels.drop_last() =~= below);
        assert(levels.last() == hi - 1);
        let sub = below.filter(p);
        if p(hi - 1) {
            assert(levels.filter(p) == sub.push(hi - 1));
            assert(sub.push(hi - 1).reverse().map_values(f) =~= seq![shifted[hi - 1]] + sub.reverse().map_values(f));
        } else {
            assert(levels.filter(p) == sub);
            assert(sub.reverse().map_values(f) =~= Seq::<T>::empty() + sub.reverse().map_values(f));
        }
    }
}

/// The candidates of a book side of `n` levels: the improved rate of every
/// level `i` in `1..n` whose improved rate keeps a tick away from level
/// `i - 1` (every level, when conflicts are allowed), worst level first, then
/// the improved best rate.  So there is one candidate more than such levels,
/// and when every level keeps its distance the candidates are all the improved
/// rates, worst first.
pub proof fn lemma_candidates_select<T>(shifted: Seq<T>, distinct: Seq<bool>, allow_order_conflicts: bool)
    requires
        shifted.len() >= 1,
    ensures
        candidates(shifted, distinct, allow_order_conflicts) == Seq::new(
            (shifted.len() - 1) as nat,
            |j: int| j + 1,
        ).filter(|i: int| allow_order_conflicts || distinct[i]).reverse().map_values(|i: int| shifted[i]).push(
            shifted[0],
        ),
        candidates(shifted, distinct, allow_order_conflicts).len() == 1 + Seq::new(
            (shifted.len() - 1) as nat,
            |j: int| j + 1,
        ).filter(|i: int| allow_order_conflicts || distinct[i]).len(),
        (forall|i: int| 1 <= i < shifted.len() ==> allow_order_conflicts || #[trigger] distinct[i])
            ==> candidates(shifted, distinct, allow_order_conflicts) == shifted.reverse(),
{
    lemma_picks_select(shifted, distinct, allow_order_conflicts, shifted.len() as int);
    if forall|i: int| 1 <= i < shifted.len() ==> allow_order_conflicts || #[trigger] distinct[i] {
        assert forall|i: int| 1 <= i < shifted.len() implies keeps(distinct, allow_order_conflicts, i) by {
            assert(allow_order_conflicts || distinct[i]);
        }
        lemma_all_kept(shifted, distinct, allow_order_conflicts, shifted.len() as int, 1);
        assert(shifted.subrange(1, shifted.len() as int).reverse().push(shifted[0]) =~= shifted.reverse());
    }
}

/// When every level from `lo` up keeps its candidate, levels `hi - 1` down to
/// `lo` yield exactly their improved rates, top level first.
proof fn lemma_all_kept<T>(shifted: Seq<T>, distinct: Seq<bool>, allow_order_conflicts: bool, hi: int, lo: int)
    requires
        0 <= lo <= hi <= shifted.len(),
        forall|i: int| lo <= i < hi ==> keeps(distinct, allow_order_conflicts, i),
    ensures
        picks(shifted, distinct, allow_order_conflicts, hi, lo) == shifted.subrange(lo, hi).reverse(),
    decreases hi - lo,
{
    if lo < hi {
        lemma_all_kept(shifted, distinct, allow_order_conflicts, hi, lo + 1);
        assert(keeps(distinct, allow_order_conflicts, lo));
        assert(shifted.subrange(lo, hi).reverse() =~= shifted.subrange(lo + 1, hi).reverse() + seq![shifted[lo]]);
    } else {
        assert(shifted.subrange(lo, hi).reverse() =~= Seq::<T>::empty());
    }
}

/// A book side of `n` levels yields between one and `n` candidates, the last
/// of which is always the improved best rate; with order conflicts allowed it
/// yields all `n` improved rates, worst level first.
pub proof fn lemma_candidates<T>(shifted: Seq<T>, distinct: Seq<bool>, allow_order_conflicts: bool)
    requires
        shifted.len() >= 1,
    ensures
        1 <= candidates(shifted, distinct, allow_order_conflicts).len() <= shifted.len(),
        candidates(shifted, distinct, allow_order_conflicts).last() == shifted[0],
        allow_order_conflicts ==> candidates(shifted, distinct, allow_order_conflicts)
            == shifted.reverse(),
{
    lemma_picks(shifted, distinct, allow_order_conflicts, shifted.len() as int, 1);
    if allow_order_conflicts {
        assert(shifted.subrange(1, shifted.len() as int).reverse().push(shifted[0])
            =~= shifted.reverse());
    }
}

/// The candidates a call of `get_pv_and_rates` works on: those already in the
/// list, followed by the new ones.
pub open spec fn all_candidates(
    old_candidates: Seq<i64>,
    shifted: Seq<i64>,
    distinct: Seq<bool>,
    allow_order_conflicts: bool,
) -> Seq<i64> {
    old_candidates + candidates(shifted, distinct, allow_order_conflicts)
}

/// The volumes queued ahead of each of `cands`.
pub open spec fn volumes<T>(tick: int, cands: Seq<i64>, rates: Seq<i64>, cum_sum: Seq<T>, zero: T) -> Seq<T> {
    cands.map_values(|c: i64| volume_ahead(tick, c as int, rates, cum_sum, zero))
}

/// Whether the last candidate must go because it would meet the other side's
/// best rate.
pub open spec fn overlaps(cands: Seq<i64>, opposite_best: int) -> bool {
    cands[cands.len() - 1] == opposite_best
}

/// The last candidate goes exactly when it equals the other side's best rate.
pub proof fn lemma_overlaps(cands: Seq<i64>, opposite_best: int)
    requires
        cands.len() >= 1,
    ensures
        overlaps(cands, opposite_best) <==> cands.last() == opposite_best,
{
}

/// The volumes listed for a run of candidates are, one for one, the volumes
/// queued ahead of them.
pub proof fn lemma_volumes<T>(tick: int, cands: Seq<i64>, rates: Seq<i64>, cum_sum: Seq<T>, zero: T)
    ensures
        volumes(tick, cands, rates, cum_sum, zero).len() == cands.len(),
        forall|k: int|
            0 <= k < cands.len() ==> #[trigger] volumes(tick, cands, rates, cum_sum, zero)[k] == volume_ahead(
                tick,
                cands[k] as int,
                rates,
                cum_sum,
                zero,
            ),
{
}

/// The candidates worked on are those already listed, followed by the new
/// ones.
pub proof fn lemma_all_candidates(
    old_candidates: Seq<i64>,
    shifted: Seq<i64>,
    distinct: Seq<bool>,
    allow_order_conflicts: bool,
)
    ensures
        all_candidates(old_candidates, shifted, distinct, allow_order_conflicts).len() == old_candidates.len()
            + candidates(shifted, distinct, allow_order_conflicts).len(),
        forall|k: int|
            0 <= k < old_candidates.len() ==> #[trigger] all_candidates(
                old_candidates,
                shifted,
                distinct,
                allow_order_conflicts,
            )[k] == old_candidates[k],
        forall|k: int|
            0 <= k < candidates(shifted, distinct, allow_order_conflicts).len() ==> #[trigger] all_candidates(
                old_candidates,
                shifted,
                distinct,
                allow_order_conflicts,
            )[old_candidates.len() + k] == candidates(shifted, distinct, allow_order_conflicts)[k],
{
}

/// Appends the quote candidates of a book side to `candidates` and, for every
/// candidate in the list (old ones included), the volume queued ahead of it to
/// `pv`; then, when the last candidate equals the other side's best rate,
/// removes it, together with the volume at the same position of `pv`.
///
/// `rates` is the side of the book (order keys, best first), `shifted[i]` and
/// `distinct[i]` are as for `candidate_rates`, `cum_sum[i]` is the cumulative
/// volume of levels `0..=i`, and `zero` is the volume ahead of a quote that
/// betters every level.
pub fn get_pv_and_rates<T: Copy>(
    rates: &Vec<i64>,
    shifted: &Vec<i64>,
    distinct: &Vec<bool>,
    cum_sum: &Vec<T>,
    zero: T,
    opposite_best: i64,
    tick: i64,
    allow_order_conflicts: bool,
    candidates: &mut Vec<i64>,
    pv: &mut Vec<T>,
)
    requires
        rates.len() >= 1,
        shifted.len() == rates.len(),
        distinct.len() == rates.len(),
        rates.len() <= cum_sum.len() || forall|k: int|
            0 <= k < all_candidates(old(candidates)@, shifted@, distinct@, allow_order_conflicts).len()
                ==> depth(
                tick as int,
                #[trigger] all_candidates(old(candidates)@, shifted@, distinct@, allow_order_conflicts)[k] as int,
                rates@,
            ) <= cum_sum.len(),
    ensures
        ({
            let all = all_candidates(old(candidates)@, shifted@, distinct@, allow_order_conflicts);
            let pushed = old(pv)@ + volumes(tick as int, all, rates@, cum_sum@, zero);
            if overlaps(all, opposite_best as int) {
                &&& final(candidates)@ == all.drop_last()
                &&& final(pv)@ == pushed.remove(all.len() - 1)
            } else {
                &&& final(candidates)@ == all
                &&& final(pv)@ == pushed
            }
        }),
        ({
            let all = all_candidates(old(candidates)@, shifted@, distinct@, allow_order_conflicts);
            let pushed = old(pv)@ + volumes(tick as int, all, rates@, cum_sum@, zero);
            &&& all.len() >= 1
            &&& all[all.len() - 1] != opposite_best ==> final(candidates)@ == all && final(pv)@ == pushed
            &&& all[all.len() - 1] == opposite_best ==> final(candidates)@ == all.drop_last() && final(pv)@
                == pushed.remove(all.len() - 1)
        }),
{
    let ghost all = all_candidates(old(candidates)@, shifted@, distinct@, allow_order_conflicts);
    let ghost pv0 = old(pv)@;
    assert forall|k: int| 0 <= k < all.len() implies depth(tick as int, #[trigger] all[k] as int, rates@)
        <= cum_sum.len() by {
        lemma_depth(tick as int, all[k] as int, rates@);
    }
    candidate_rates(shifted, distinct, allow_order_conflicts, candidates);
    assert(candidates@ == all);
    let n = candidates.len();
    let mut j: usize = 0;
    while j < n
        invariant
            n == candidates.len(),
            candidates@ == all,
            j <= n,
            forall|k: int|
                0 <= k < all.len() ==> depth(tick as int, #[trigger] all[k] as int, rates@) <= cum_sum.len(),
            pv@ == pv0 + volumes(tick as int, all.take(j as int), rates@, cum_sum@, zero),
        decreases n - j,
    {
        let c = candidates[j];
        let v = preceding_volume(tick, c, rates, cum_sum, zero);
        pv.push(v);
        proof {
            assert(all.take(j + 1) =~= all.take(j as int).push(c));
            assert(volumes(tick as int, all.take(j + 1), rates@, cum_sum@, zero) =~= volumes(
                tick as int,
                all.take(j as int),
                rates@,
                cum_sum@,
                zero,
            ).push(v));
        }
        j = j + 1;
    }
    assert(all.take(n as int) =~= all);
    proof {
        lemma_candidates(shifted@, distinct@, allow_order_conflicts);
    }
    proof {
        lemma_overlaps(all, opposite_best as int);
    }
    let last = candidates.len() - 1;
    if candidates[last] == opposite_best {
        candidates.remove(last);
        pv.remove(last);
        assert(candidates@ =~= all.drop_last());
    }
}

/// Starting from empty lists, `get_pv_and_rates` leaves the candidates and
/// the volumes side by side: as many volumes as candidates, the `k`-th volume
/// being the one queued ahead of the `k`-th candidate.
pub proof fn lemma_rates_and_volumes_paired<T>(
    shifted: Seq<i64>,
    distinct: Seq<bool>,
    allow_order_conflicts: bool,
    rates: Seq<i64>,
    cum_sum: Seq<T>,
    zero: T,
    tick: int,
    opposite_best: int,
)
    requires
        shifted.len() >= 1,
    ensures
        ({
            let all = all_candidates(Seq::empty(), shifted, distinct, allow_order_conflicts);
            let pushed = Seq::<T>::empty() + volumes(tick, all, rates, cum_sum, zero);
            let final_candidates = if overlaps(all, opposite_best) {
                all.drop_last()
            } else {
                all
            };
            let final_pv = if overlaps(all, opposite_best) {
                pushed.remove(all.len() - 1)
            } else {
                pushed
            };
            &&& final_pv.len() == final_candidates.len()
            &&& forall|k: int|
                0 <= k < final_candidates.len() ==> #[trigger] final_pv[k] == volume_ahead(
                    tick,
                    final_candidates[k] as int,
                    rates,
                    cum_sum,
                    zero,
                )
        }),
{
    lemma_candidates(shifted, distinct, allow_order_conflicts);
    let all = all_candidates(Seq::empty(), shifted, distinct, allow_order_conflicts);
    let pushed = Seq::<T>::empty() + volumes(tick, all, rates, cum_sum, zero);
    assert(pushed =~= volumes(tick, all, rates, cum_sum, zero));
    if overlaps(all, opposite_best) {
        assert(pushed.remove(all.len() - 1) =~= volumes(tick, all.drop_last(), rates, cum_sum, zero));
    }
}

} // verus!
