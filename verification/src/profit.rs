//! Choosing the pair of quotes with the highest expected profit.
//!
//! `profits[s][b]` is the order key of the expected profit of quoting the
//! `s`-th sell candidate together with the `b`-th buy candidate.
use vstd::prelude::*;

verus! {

/// `(s, b)` names an entry of the profit table.
pub open spec fn in_table(profits: Seq<Vec<i64>>, s: int, b: int) -> bool {
    0 <= s < profits.len() && 0 <= b < profits[s].len()
}

/// `(s2, b2)` comes before `(s, b)` when the table is read row by row.
pub open spec fn comes_before(s2: int, b2: int, s: int, b: int) -> bool {
    s2 < s || (s2 == s && b2 < b)
}

/// Some pair of quotes has a positive expected profit.
pub open spec fn has_gain(profits: Seq<Vec<i64>>) -> bool {
    exists|s: int, b: int| in_table(profits, s, b) && #[trigger] profits[s][b] > 0
}

/// `(s, b)` is the first entry, read row by row, that holds the highest
/// expected profit of the table, and that profit is positive.
pub open spec fn is_best(profits: Seq<Vec<i64>>, s: int, b: int) -> bool {
    &&& in_table(profits, s, b)
    &&& profits[s][b] > 0
    &&& forall|s2: int, b2: int|
        in_table(profits, s2, b2) ==> #[trigger] profits[s2][b2] <= profits[s][b] && (comes_before(
            s2,
            b2,
            s,
            b,
        ) ==> profits[s2][b2] < profits[s][b])
}

/// What a row-by-row scan that keeps the first strictly higher profit knows
/// once it has read every entry before `(s, b)`: `best` is the entry it keeps
/// and `max` its profit, zero while it keeps none.
pub open spec fn scanned(profits: Seq<Vec<i64>>, s: int, b: int, best: Option<(usize, usize)>, max: int) -> bool {
    match best {
        None => {
            &&& max == 0
            &&& forall|s2: int, b2: int|
                in_table(profits, s2, b2) && comes_before(s2, b2, s, b) ==> #[trigger] profits[s2][b2] <= 0
        },
        Some((bs, bb)) => {
            &&& in_table(profits, bs as int, bb as int)
            &&& comes_before(bs as int, bb as int, s, b)
            &&& max == profits[bs as int][bb as int]
            &&& max > 0
            &&& forall|s2: int, b2: int|
                in_table(profits, s2, b2) && comes_before(s2, b2, s, b) ==> #[trigger] profits[s2][b2]
                    <= max && (comes_before(s2, b2, bs as int, bb as int) ==> profits[s2][b2] < max)
        },
    }
}

/// The best entry is an entry of the table with a positive profit that no
/// entry exceeds and that every entry before it, row by row, falls short of;
/// and the table has a gain exactly when some entry is positive.
pub proof fn lemma_best_meaning(profits: Seq<Vec<i64>>, s: int, b: int)
    ensures
        is_best(profits, s, b) <==> {
            &&& 0 <= s < profits.len()
            &&& 0 <= b < profits[s].len()
            &&& profits[s][b] > 0
            &&& forall|s2: int, b2: int|
                0 <= s2 < profits.len() && 0 <= b2 < profits[s2].len() ==> #[trigger] profits[s2][b2]
                    <= profits[s][b] && ((s2 < s || (s2 == s && b2 < b)) ==> profits[s2][b2] < profits[s][b])
        },
        has_gain(profits) <==> exists|s2: int, b2: int|
            0 <= s2 < profits.len() && 0 <= b2 < profits[s2].len() && #[trigger] profits[s2][b2] > 0,
{
}

/// There is at most one best entry.
pub proof fn lemma_best_unique(profits: Seq<Vec<i64>>, s: int, b: int, s2: int, b2: int)
    requires
        is_best(profits, s, b),
        is_best(profits, s2, b2),
    ensures
        s == s2 && b == b2,
{
    assert(profits[s2][b2] <= profits[s][b]);
    assert(profits[s][b] <= profits[s2][b2]);
}

/// The buy and sell rates of the pair of quotes with the highest positive
/// expected profit, the first such pair read row by row; `(zero, zero)` when
/// no pair has a positive expected profit.  The result is
/// `(buy_rates[b], sell_rates[s])` for the best entry `profits[s][b]`.
pub fn maximize_profit<T: Copy>(profits: &Vec<Vec<i64>>, sell_rates: &Vec<T>, buy_rates: &Vec<T>, zero: T) -> (r: (T, T))
    requires
        profits.len() <= sell_rates.len(),
        forall|s: int| 0 <= s < profits.len() ==> #[trigger] profits[s].len() <= buy_rates.len(),
    ensures
        !has_gain(profits@) ==> r == (zero, zero),
        has_gain(profits@) ==> exists|s: int, b: int|
            is_best(profits@, s, b) && r == (buy_rates[b], sell_rates[s]),
{
    let mut best: Option<(usize, usize)> = None;
    let mut max: i64 = 0;
    let mut s: usize = 0;
    while s < profits.len()
        invariant
            s <= profits.len(),
            scanned(profits@, s as int, 0, best, max as int),
        decreases profits.len() - s,
    {
        let row = &profits[s];
        let mut b: usize = 0;
        while b < row.len()
            invariant
                s < profits.len(),
                row == profits[s as int],
                b <= row.len(),
                scanned(profits@, s as int, b as int, best, max as int),
            decreases row.len() - b,
        {
            let p = row[b];
            if p > max {
                max = p;
                best = Some((s, b));
            }
            b = b + 1;
        }
        s = s + 1;
    }
    match best {
        None => {
            assert(!has_gain(profits@));
            (zero, zero)
        },
        Some((bs, bb)) => {
            assert(is_best(profits@, bs as int, bb as int));
            assert(has_gain(profits@));
            (buy_rates[bb], sell_rates[bs])
        },
    }
}

} // verus!
