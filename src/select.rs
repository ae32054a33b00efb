//! The two tie-break strategies used to pick an arm from per-arm values.
use vstd::prelude::*;
use crate::estimate::{Estimate, frac_lt, frac_eq};

verus! {

/// `x < y` as fractions.
pub open spec fn est_lt(x: Estimate, y: Estimate) -> bool {
    frac_lt(x.num as int, x.den as int, y.num as int, y.den as int)
}

/// The index kept by a left-to-right scan of `v[0..n]` that replaces the
/// incumbent only by a strictly greater value.
pub open spec fn lowest_max_index(v: Seq<Estimate>, n: int) -> int
    decreases n,
{
    if n <= 1 {
        0
    } else {
        let r = lowest_max_index(v, n - 1);
        if est_lt(v[r], v[n - 1]) {
            n - 1
        } else {
            r
        }
    }
}

/// The (index, value) kept by a left-to-right scan of `s[0..n]` that starts
/// from index 0 with the value 0 and replaces them only by a strictly
/// greater score.
pub open spec fn zero_floor_pick(s: Seq<i128>, n: int) -> (int, int)
    decreases n,
{
    if n <= 0 {
        (0, 0)
    } else {
        let p = zero_floor_pick(s, n - 1);
        if s[n - 1] > p.1 {
            (n - 1, s[n - 1] as int)
        } else {
            p
        }
    }
}

proof fn lemma_frac_lt_trans(a: int, b: int, c: int, d: int, e: int, f: int)
    requires
        b > 0,
        d > 0,
        f > 0,
        !frac_lt(c, d, a, b),
        frac_lt(c, d, e, f),
    ensures
        frac_lt(a, b, e, f),
{
    assert(a * f < e * b) by (nonlinear_arith)
        requires
            b > 0,
            d > 0,
            f > 0,
            c * b >= a * d,
            c * f < e * d,
    {
        assert(a * d * f <= c * b * f);
        assert(c * f * b < e * d * b);
        assert(a * f * d < e * b * d);
    }
}

/// Index of a maximal estimate; on a tie the lowest index wins.
pub fn argmax(v: &Vec<Estimate>) -> (r: usize)
    requires
        v.len() >= 1,
        forall|i: int| 0 <= i < v.len() ==> (#[trigger] v[i]).wf(),
    ensures
        r == lowest_max_index(v@, v.len() as int),
        r < v.len(),
        forall|j: int| 0 <= j < v.len() ==> !est_lt(v[r as int], #[trigger] v[j]),
        forall|j: int| 0 <= j < r ==> est_lt(#[trigger] v[j], v[r as int]),
        (forall|j: int|
            0 <= j < v.len() ==> frac_eq(
                (#[trigger] v[j]).num as int,
                v[j].den as int,
                v[0].num as int,
                v[0].den as int,
            )) ==> r == 0,
{
    let mut res: usize = 0;
    let mut i: usize = 1;
    while i < v.len()
        invariant
            1 <= i <= v.len(),
            forall|j: int| 0 <= j < v.len() ==> (#[trigger] v[j]).wf(),
            res < i,
            res == lowest_max_index(v@, i as int),
            forall|j: int| 0 <= j < i ==> !est_lt(v[res as int], #[trigger] v[j]),
            forall|j: int| 0 <= j < res ==> est_lt(#[trigger] v[j], v[res as int]),
        decreases v.len() - i,
    {
        if v[res].less_than(&v[i]) {
            assert forall|j: int| 0 <= j < i implies est_lt(#[trigger] v[j], v[i as int]) by {
                lemma_frac_lt_trans(
                    v[j].num as int,
                    v[j].den as int,
                    v[res as int].num as int,
                    v[res as int].den as int,
                    v[i as int].num as int,
                    v[i as int].den as int,
                );
            }
            res = i;
        }
        i = i + 1;
    }
    proof {
        if res > 0 && forall|j: int|
            0 <= j < v.len() ==> frac_eq(
                (#[trigger] v[j]).num as int,
                v[j].den as int,
                v[0].num as int,
                v[0].den as int,
            ) {
            assert(est_lt(v[0], v[res as int]));
        }
    }
    res
}

/// Index of the greatest score above a floor of zero: the scan starts from
/// index 0 with the value 0, and a score replaces the incumbent only when it
/// is strictly greater.
pub fn argmax_zero_floor(scores: &Vec<i128>) -> (r: usize)
    ensures
        r as int == zero_floor_pick(scores@, scores.len() as int).0,
        (forall|j: int| 0 <= j < scores.len() ==> #[trigger] scores[j] <= 0) ==> r == 0,
        (exists|j: int| 0 <= j < scores.len() && #[trigger] scores[j] > 0) ==> {
            &&& r < scores.len()
            &&& forall|j: int| 0 <= j < scores.len() ==> #[trigger] scores[j] <= scores[r as int]
            &&& forall|j: int| 0 <= j < r ==> #[trigger] scores[j] < scores[r as int]
        },
{
    let mut res: usize = 0;
    let mut max_val: i128 = 0;
    let mut i: usize = 0;
    while i < scores.len()
        invariant
            i <= scores.len(),
            (res as int, max_val as int) == zero_floor_pick(scores@, i as int),
            max_val >= 0,
            max_val == 0 ==> res == 0,
            max_val > 0 ==> res < i && scores[res as int] == max_val,
            forall|j: int| 0 <= j < i ==> #[trigger] scores[j] <= max_val,
            forall|j: int| 0 <= j < res ==> #[trigger] scores[j] < max_val,
        decreases scores.len() - i,
    {
        if scores[i] > max_val {
            res = i;
            max_val = scores[i];
        }
        i = i + 1;
    }
    res
}

} // verus!
