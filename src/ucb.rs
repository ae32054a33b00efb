//! UCB1: an arm's score is its estimate plus the exploration bonus
//! `sqrt(2 ln(games) / (pulls + 1e-4))`, in fixed point.
use vstd::prelude::*;
use crate::SCALE;
use crate::estimate::Estimate;
use crate::environment::{MultiArmBandit, ints};
use crate::fixed::{isqrt, isqrt_spec, is_isqrt, lemma_isqrt_exists};
use crate::select::{argmax_zero_floor, zero_floor_pick};

verus! {

/// The term added to a pull count before dividing is `1 / EPS_INV`.
pub const EPS_INV: u64 = 10000;

/// `num / den` in fixed point, rounded down.
pub open spec fn fixed_value(e: Estimate) -> int {
    (e.num as int * SCALE as int) / (e.den as int)
}

/// The exploration bonus `sqrt(2 ln(games) / (n + 1 / EPS_INV))` in fixed
/// point, where `ln_g` is `ln(games)` in fixed point.
pub open spec fn ucb_bonus(ln_g: int, n: int) -> int {
    isqrt_spec((2 * ln_g * SCALE * EPS_INV) / (EPS_INV * n + 1))
}

/// Each arm's UCB1 score: its estimate plus its exploration bonus.
pub open spec fn ucb_scores(v: Seq<Estimate>, counts: Seq<int>, ln_g: int) -> Seq<i128> {
    Seq::new(v.len(), |i: int| (fixed_value(v[i]) + ucb_bonus(ln_g, counts[i])) as i128)
}

/// The arm UCB1 plays. With no game played, `ln(0)` leaves every score
/// undefined and none beats the zero floor, so arm 0 is played.
pub open spec fn ucb1_pick(v: Seq<Estimate>, counts: Seq<int>, games: int, ln_g: int) -> int {
    if games == 0 {
        0
    } else {
        zero_floor_pick(ucb_scores(v, counts, ln_g), v.len() as int).0
    }
}

/// With `ln(games) > 0` (at least two games played), the bonus of an arm
/// never pulled is strictly larger than that of any pulled arm.
pub proof fn lemma_unpulled_bonus_dominates(ln_g: int, n: int)
    requires
        ln_g >= 1,
        n >= 1,
    ensures
        ucb_bonus(ln_g, 0) > ucb_bonus(ln_g, n),
{
    let x0 = 2 * ln_g * SCALE * EPS_INV;
    let d = EPS_INV * n + 1;
    let xn = x0 / d;
    assert(EPS_INV * 0 + 1 == 1);
    assert(x0 / 1 == x0);
    assert(x0 >= 10001) by (nonlinear_arith)
        requires
            ln_g >= 1,
            x0 == 2 * ln_g * SCALE * EPS_INV,
    ;
    assert(d >= 10001) by (nonlinear_arith)
        requires
            n >= 1,
            d == EPS_INV * n + 1,
    ;
    assert(xn >= 0 && xn * 10001 <= x0) by (nonlinear_arith)
        requires
            d >= 10001,
            x0 >= 0,
            xn == x0 / d,
    {
        assert(xn * d <= x0);
        assert(xn * 10001 <= xn * d);
    }
    lemma_isqrt_exists(x0);
    lemma_isqrt_exists(xn);
    let r0 = isqrt_spec(x0);
    let rn = isqrt_spec(xn);
    assert((rn + 1) * (rn + 1) <= 4 * xn + 1) by (nonlinear_arith)
        requires
            is_isqrt(xn, rn),
    ;
    assert(4 * xn + 1 <= x0);
    if r0 <= rn {
        assert((r0 + 1) * (r0 + 1) <= (rn + 1) * (rn + 1)) by (nonlinear_arith)
            requires
                0 <= r0 <= rn,
        ;
    }
}

/// [`ucb_bonus`] for a pull count `n`.
pub fn ucb_bonus_fixed(ln_g: u64, n: u64) -> (r: u64)
    ensures
        r as int == ucb_bonus(ln_g as int, n as int),
        r < 0x100_0000_0000_0000,
{
    let a = ln_g as u128;
    assert(2 * a * (SCALE as u128) * (EPS_INV as u128) < 0x1_0000_0000_0000_0000_0000_0000_0000)
        by (nonlinear_arith)
        requires
            a <= 0xffff_ffff_ffff_ffff,
    ;
    assert(2 * a * (SCALE as u128) <= 2 * a * (SCALE as u128) * (EPS_INV as u128)) by (nonlinear_arith)
        requires
            a >= 0,
    ;
    let num: u128 = 2 * a * (SCALE as u128) * (EPS_INV as u128);
    let den: u128 = (EPS_INV as u128) * (n as u128) + 1;
    let r = isqrt(num / den);
    assert(r < 0x100_0000_0000_0000) by (nonlinear_arith)
        requires
            r * r <= num / den,
            num / den <= num,
            num < 0x1_0000_0000_0000_0000_0000_0000_0000,
    ;
    r
}

/// Each arm's UCB1 score for the given estimates, pull counts and `ln(games)`.
pub fn ucb1_scores(v: &Vec<Estimate>, counts: &Vec<u64>, ln_g: u64) -> (r: Vec<i128>)
    requires
        v.len() == counts.len(),
        forall|i: int| 0 <= i < v.len() ==> (#[trigger] v[i]).wf(),
    ensures
        r@ == ucb_scores(v@, ints(counts@), ln_g as int),
{
    let mut r: Vec<i128> = Vec::with_capacity(v.len());
    let mut i: usize = 0;
    while i < v.len()
        invariant
            i <= v.len(),
            v.len() == counts.len(),
            forall|j: int| 0 <= j < v.len() ==> (#[trigger] v[j]).wf(),
            r.len() == i,
            forall|j: int| 0 <= j < i ==> #[trigger] r[j] == ucb_scores(v@, ints(counts@), ln_g as int)[j],
        decreases v.len() - i,
    {
        let e = v[i];
        assert((e.num as u128) * (SCALE as u128) < 0x1_0000_0000_0000_0000_0000_0000) by (nonlinear_arith)
            requires
                e.num <= 0xffff_ffff_ffff_ffff,
        ;
        let est: u128 = (e.num as u128) * (SCALE as u128) / (e.den as u128);
        assert(est <= (e.num as int) * (SCALE as int)) by (nonlinear_arith)
            requires
                e.den >= 1,
                est == ((e.num as int) * (SCALE as int)) / (e.den as int),
                e.num >= 0,
        ;
        let bonus = ucb_bonus_fixed(ln_g, counts[i]);
        r.push((est as i128) + (bonus as i128));
        i = i + 1;
    }
    assert(r@ =~= ucb_scores(v@, ints(counts@), ln_g as int));
    r
}

/// The arm UCB1 plays, given `ln(games)` in fixed point.
pub fn ucb1_choice(v: &Vec<Estimate>, counts: &Vec<u64>, games: u64, ln_g: u64) -> (r: usize)
    requires
        v.len() == counts.len(),
        forall|i: int| 0 <= i < v.len() ==> (#[trigger] v[i]).wf(),
    ensures
        r as int == ucb1_pick(v@, ints(counts@), games as int, ln_g as int),
        v.len() >= 1 ==> r < v.len(),
{
    if games == 0 {
        0
    } else {
        let scores = ucb1_scores(v, counts, ln_g);
        argmax_zero_floor(&scores)
    }
}

/// The arm UCB1 plays on `mab`, where `ln_fixed(g)` is `ln(g)` in fixed point.
pub fn argmax_ucb1<L: Fn(u64) -> u64>(v: &Vec<Estimate>, mab: &MultiArmBandit, ln_fixed: &L) -> (r: usize)
    requires
        mab.wf(),
        v.len() == mab.k,
        forall|i: int| 0 <= i < v.len() ==> (#[trigger] v[i]).wf(),
        forall|g: u64| ln_fixed.requires((g,)),
    ensures
        exists|ln_g: u64|
            (mab.games > 0 ==> ln_fixed.ensures((mab.games,), ln_g)) && r as int == ucb1_pick(
                v@,
                ints(mab.games_arr@),
                mab.games as int,
                ln_g as int,
            ),
        v.len() >= 1 ==> r < v.len(),
{
    let ln_g = if mab.games == 0 {
        0
    } else {
        ln_fixed(mab.games)
    };
    ucb1_choice(v, &mab.games_arr, mab.games, ln_g)
}

} // verus!
