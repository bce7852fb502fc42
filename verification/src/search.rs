//! Locating a value among the knots of a piecewise-linear curve.
use vstd::prelude::*;

verus! {

/// The index `first <= i < last` that bisection settles on when it looks for
/// `value` between `x[first]` and `x[last]`: it halves the range until it
/// meets a knot `i` with `x[i] <= value < x[i + 1]`.
pub open spec fn bisect(x: Seq<i64>, value: int, first: int, last: int) -> int
    decreases last - first,
{
    if first < last {
        let mid = (first + last) / 2;
        if x[mid] <= value && value < x[mid + 1] {
            mid
        } else if value < x[mid] {
            bisect(x, value, first, mid)
        } else {
            bisect(x, value, mid + 1, last)
        }
    } else {
        first
    }
}

/// The left end of the knot segment that serves `value`: the first segment
/// for values below the first knot, the last segment for values at or above
/// the last knot, and otherwise the segment found by bisection.
pub open spec fn bracket(x: Seq<i64>, value: int) -> int {
    let last = x.len() - 1;
    if value < x[0] {
        0
    } else if x[last] <= value {
        last - 1
    } else {
        bisect(x, value, 0, last)
    }
}

/// Knots in non-decreasing order.
pub open spec fn is_sorted(x: Seq<i64>) -> bool {
    forall|i: int, j: int| 0 <= i <= j < x.len() ==> x[i] <= x[j]
}

/// Bisection between two knots that enclose `value` stops on a segment that
/// encloses it too.
pub proof fn lemma_bisect_encloses(x: Seq<i64>, value: int, first: int, last: int)
    requires
        0 <= first < last < x.len(),
        x[first] <= value < x[last],
    ensures
        first <= bisect(x, value, first, last) < last,
        x[bisect(x, value, first, last)] <= value < x[bisect(x, value, first, last) + 1],
    decreases last - first,
{
    let mid = (first + last) / 2;
    if x[mid] <= value && value < x[mid + 1] {
    } else if value < x[mid] {
        lemma_bisect_encloses(x, value, first, mid);
    } else {
        lemma_bisect_encloses(x, value, mid + 1, last);
    }
}

/// The segment chosen for a value is a segment of the curve, and when the value
/// lies within the knots' span (below the last knot) the segment encloses it.
pub proof fn lemma_bracket_encloses(x: Seq<i64>, value: int)
    requires
        x.len() >= 2,
    ensures
        0 <= bracket(x, value) < x.len() - 1,
        x[0] <= value < x[x.len() - 1] ==> x[bracket(x, value)] <= value < x[bracket(x, value) + 1],
{
    let last = x.len() - 1;
    if x[0] <= value < x[last] {
        lemma_bisect_encloses(x, value, 0, last);
    }
}

/// A value below the first knot is served by the first segment, and a value
/// that is neither below the first knot nor below the last one is served by
/// the last segment.
pub proof fn lemma_bracket_ends(x: Seq<i64>, value: int)
    requires
        x.len() >= 2,
    ensures
        value < x[0] ==> bracket(x, value) == 0,
        x[0] <= value && x[x.len() - 1] <= value ==> bracket(x, value) == x.len() - 2,
{
}

/// With knots in order, the enclosing segment is the only one: bisection finds
/// the one `i` with `x[i] <= value < x[i + 1]`.
pub proof fn lemma_bracket_unique(x: Seq<i64>, value: int, i: int)
    requires
        x.len() >= 2,
        forall|a: int, b: int| 0 <= a <= b < x.len() ==> x[a] <= x[b],
        0 <= i < x.len() - 1,
        x[i] <= value < x[i + 1],
    ensures
        bracket(x, value) == i,
{
    let last = x.len() - 1;
    assert(x[0] <= x[i]);
    assert(x[i + 1] <= x[last]);
    lemma_bracket_encloses(x, value);
    let b = bracket(x, value);
    if b < i {
        assert(x[b + 1] <= x[i]);
    } else if b > i {
        assert(x[i + 1] <= x[b]);
    }
}

/// The index of the left end of the segment that serves `value`.
fn bracket_index(x: &Vec<i64>, value: i64) -> (r: usize)
    requires
        x.len() >= 2,
    ensures
        r == bracket(x@, value as int),
        r + 1 < x.len(),
{
    proof {
        lemma_bracket_encloses(x@, value as int);
    }
    let mut first: usize = 0;
    let mut last: usize = x.len() - 1;
    if value < x[first] {
        return 0;
    }
    if x[last] <= value {
        return last - 1;
    }
    let ghost top: int = last as int;
    loop
        invariant
            x.len() >= 2,
            top == x.len() - 1,
            0 <= first < last <= top,
            x[first as int] <= value < x[last as int],
            bisect(x@, value as int, first as int, last as int) == bracket(x@, value as int),
        decreases last - first,
    {
        let mid: usize = first + (last - first) / 2;
        assert(mid == (first + last) / 2);
        if x[mid] <= value && value < x[mid + 1] {
            return mid;
        } else if value < x[mid] {
            last = mid;
        } else {
            first = mid + 1;
        }
    }
}

/// The two knots around `value` and the curve's values at them:
/// `((x[i], x[i + 1]), (y[i], y[i + 1]))` with `i == bracket(x, value)`.
pub fn binary_search<T: Copy>(x: &Vec<i64>, y: &Vec<T>, value: i64) -> (r: ((i64, i64), (T, T)))
    requires
        x.len() >= 2,
        bracket(x@, value as int) + 1 < y.len(),
    ensures
        r == ({
            let i = bracket(x@, value as int);
            ((x[i], x[i + 1]), (y[i], y[i + 1]))
        }),
        x[0] <= value < x[x.len() - 1] ==> r.0.0 <= value < r.0.1,
        exists|i: int|
            0 <= i < x.len() - 1 && r == ((#[trigger] x[i], x[i + 1]), (y[i], y[i + 1])),
        value < x[0] ==> r == ((x[0], x[1]), (y[0], y[1])),
        x[0] <= value && x[x.len() - 1] <= value ==> r == (
            (x[x.len() - 2], x[x.len() - 1]),
            (y[x.len() - 2], y[x.len() - 1]),
        ),
{
    proof {
        lemma_bracket_encloses(x@, value as int);
        lemma_bracket_ends(x@, value as int);
    }
    let i = bracket_index(x, value);
    ((x[i], x[i + 1]), (y[i], y[i + 1]))
}

/// Where a point falls on a piecewise-linear curve.
#[derive(PartialEq, Eq, Structural, Debug, Clone, Copy)]
pub enum Segment {
    /// Below the first knot: the curve's value there is its first value.
    Before,
    /// Above the last knot: the curve's value there is its last value.
    After,
    /// Interpolated on the segment from knot `i` to knot `i + 1`.
    Within(usize),
}

/// The segment that serves point `p` of a curve with knots `x`.
pub open spec fn segment_of(x: Seq<i64>, p: int) -> Segment {
    if p < x[0] {
        Segment::Before
    } else if x[x.len() - 1] < p {
        Segment::After
    } else {
        Segment::Within(bracket(x, p) as usize)
    }
}

/// A point that is neither below the first knot nor above the last one.
pub open spec fn within_span(x: Seq<i64>, p: int) -> bool {
    x[0] <= p <= x[x.len() - 1]
}

/// A point takes the curve's first value exactly when it lies below the first
/// knot, its last value exactly when it lies above the last knot (and not
/// below the first), and otherwise it is interpolated on a segment whose knots
/// enclose it; with knots in order, `x[i] <= p <= x[i + 1]`.
pub proof fn lemma_segment_of(x: Seq<i64>, p: int)
    requires
        1 <= x.len() <= usize::MAX,
        within_span(x, p) ==> x.len() >= 2,
    ensures
        (segment_of(x, p) == Segment::Before) <==> p < x[0],
        (segment_of(x, p) == Segment::After) <==> (x[0] <= p && x[x.len() - 1] < p),
        x[0] <= p <= x[x.len() - 1] ==> (segment_of(x, p) matches Segment::Within(i) && i + 1 < x.len()
            && (p < x[x.len() - 1] ==> x[i as int] <= p < x[i + 1]) && (p == x[x.len() - 1] ==> i == x.len()
            - 2)),
        x[0] <= p <= x[x.len() - 1] && (forall|a: int, b: int| 0 <= a <= b < x.len() ==> x[a] <= x[b]) ==> (segment_of(x, p) matches Segment::Within(i) && x[i as int]
            <= p <= x[i + 1]),
{
    if x[0] <= p <= x[x.len() - 1] {
        lemma_bracket_encloses(x, p);
        lemma_bracket_ends(x, p);
        let i = bracket(x, p);
        assert((i as usize) as int == i);
        assert(segment_of(x, p) == Segment::Within(i as usize));
        if (forall|a: int, b: int| 0 <= a <= b < x.len() ==> x[a] <= x[b]) && p == x[x.len() - 1] {
            assert(x[i] <= x[i + 1]);
        }
    }
}

/// For each point of `pv`, in order, the segment of the curve with knots `x`
/// that gives its interpolated value.
pub fn interpolate(pv: &Vec<i64>, x: &Vec<i64>) -> (out: Vec<Segment>)
    requires
        x.len() >= 1,
        forall|k: int| 0 <= k < pv.len() && within_span(x@, pv[k] as int) ==> x.len() >= 2,
    ensures
        out.len() == pv.len(),
        forall|k: int| 0 <= k < pv.len() ==> out[k] == segment_of(x@, pv[k] as int),
        forall|k: int|
            0 <= k < pv.len() ==> (#[trigger] out[k] matches Segment::Within(i) ==> i + 1 < x.len()),
        forall|k: int| 0 <= k < pv.len() ==> ((#[trigger] out[k] == Segment::Before) <==> pv[k] < x[0]),
        forall|k: int|
            0 <= k < pv.len() ==> ((#[trigger] out[k] == Segment::After) <==> (x[0] <= pv[k] && x[x.len()
                - 1] < pv[k])),
        forall|k: int|
            0 <= k < pv.len() && x[0] <= pv[k] && pv[k] <= x[x.len() - 1] ==> (#[trigger] out[k] matches Segment::Within(i)
                && i + 1 < x.len() && (pv[k] < x[x.len() - 1] ==> x[i as int] <= pv[k] < x[i + 1]) && (pv[k]
                == x[x.len() - 1] ==> i == x.len() - 2)),
{
    let mut out: Vec<Segment> = Vec::new();
    let last = x.len() - 1;
    let mut k: usize = 0;
    while k < pv.len()
        invariant
            x.len() >= 1,
            last == x.len() - 1,
            forall|j: int| 0 <= j < pv.len() && within_span(x@, pv[j] as int) ==> x.len() >= 2,
            k <= pv.len(),
            out.len() == k,
            forall|j: int| 0 <= j < k ==> out[j] == segment_of(x@, pv[j] as int),
            forall|j: int| 0 <= j < k ==> (#[trigger] out[j] matches Segment::Within(i) ==> i + 1 < x.len()),
        decreases pv.len() - k,
    {
        let p = pv[k];
        if p < x[0] {
            out.push(Segment::Before);
        } else if x[last] < p {
            out.push(Segment::After);
        } else {
            assert(within_span(x@, pv[k as int] as int));
            let i = bracket_index(x, p);
            out.push(Segment::Within(i));
        }
        proof {
            lemma_segment_of(x@, p as int);
        }
        k = k + 1;
    }
    proof {
        assert forall|k: int| 0 <= k < pv.len() implies ((#[trigger] out[k] == Segment::Before) <==> pv[k]
            < x[0]) by {
            lemma_segment_of(x@, pv[k] as int);
        }
        assert forall|k: int|
            0 <= k < pv.len() implies ((#[trigger] out[k] == Segment::After) <==> (x[0] <= pv[k] && x[x.len()
                - 1] < pv[k])) by {
            lemma_segment_of(x@, pv[k] as int);
        }
        assert forall|k: int|
            0 <= k < pv.len() && x[0] <= pv[k] && pv[k] <= x[x.len() - 1] implies (#[trigger] out[k] matches Segment::Within(i)
                && i + 1 < x.len() && (pv[k] < x[x.len() - 1] ==> x[i as int] <= pv[k] < x[i + 1]) && (pv[k]
                == x[x.len() - 1] ==> i == x.len() - 2)) by {
            lemma_segment_of(x@, pv[k] as int);
        }
    }
    out
}

} // verus!
