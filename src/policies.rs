//! The simulation loops of the four policies, the trial harness and the
//! comparison of the policies.
use vstd::prelude::*;
use crate::SCALE;
use crate::draw::uniform_below;
use crate::environment::{
    MultiArmBandit, fresh_state, pulls_state, wins_on, ints, total, lemma_pulls_step, lemma_pulls_bounds,
};
use crate::estimate::Estimate;
use crate::select::{argmax, lowest_max_index};
use crate::select::zero_floor_pick;
use crate::thompson::{BayeArm, thompson_choice, thompson_samples};
use crate::ucb::{ucb1_choice, ucb1_pick};

verus! {

/// Epsilon-greedy explores at round `t` (from 1) iff the uniform draw
/// `u / SCALE` is below `1 / t`.
pub open spec fn explores(t: int, u: int) -> bool {
    u * t < SCALE
}

/// Whether epsilon-greedy explores at round `t` on the draw `u / SCALE`.
pub fn explores_at(t: u64, u: u64) -> (r: bool)
    requires
        u < SCALE,
    ensures
        r == explores(t as int, u as int),
{
    assert((u as u128) * (t as u128) < 0x1_0000_0000 * 0x1_0000_0000_0000_0000) by (nonlinear_arith)
        requires
            u < 0x1_0000_0000u64,
            t <= 0xffff_ffff_ffff_ffffu64,
    ;
    (u as u128) * (t as u128) < (SCALE as u128)
}

/// The arm epsilon-greedy plays at round `t` on the draw `u / SCALE`: the
/// uniformly drawn arm `pick` when exploring, else the lowest index of a
/// maximal estimate.
pub fn egreedy_choice(estims: &Vec<Estimate>, t: u64, u: u64, pick: usize) -> (r: usize)
    requires
        estims.len() >= 1,
        forall|i: int| 0 <= i < estims.len() ==> (#[trigger] estims[i]).wf(),
        u < SCALE,
        pick < estims.len(),
    ensures
        r as int == if explores(t as int, u as int) {
            pick as int
        } else {
            lowest_max_index(estims@, estims.len() as int)
        },
        r < estims.len(),
{
    if explores_at(t, u) {
        pick
    } else {
        argmax(estims)
    }
}

/// The running estimate of an arm pulled `c` times with `w` wins: the
/// starting estimate `init` while unpulled, then the mean `w / c`.
pub open spec fn mean_of(init: Estimate, c: int, w: int) -> Estimate {
    if c == 0 {
        init
    } else {
        Estimate { num: w as u64, den: c as u64 }
    }
}

/// Each arm's running estimate after the arms `picks` were pulled in turn on
/// a new environment with the draws `ws`.
pub open spec fn means(init: Estimate, arms: Seq<int>, picks: Seq<int>, ws: Seq<int>) -> Seq<Estimate> {
    Seq::new(
        arms.len(),
        |i: int| mean_of(init, pulls_state(fresh_state(arms), picks, ws).counts[i], wins_on(arms, picks, ws, i)),
    )
}

/// Each arm's posterior after the arms `picks` were pulled in turn on a new
/// environment with the draws `ws`: precision `1 + pulls`, sum of the wins.
pub open spec fn posteriors(arms: Seq<int>, picks: Seq<int>, ws: Seq<int>) -> Seq<BayeArm> {
    Seq::new(
        arms.len(),
        |i: int|
            BayeArm {
                lambda: (pulls_state(fresh_state(arms), picks, ws).counts[i] + 1) as u64,
                sum_x: wins_on(arms, picks, ws, i) as u64,
            },
    )
}

/// Epsilon-greedy's starting estimate, 0.
pub open spec fn zero_start() -> Estimate {
    Estimate { num: 0, den: 1 }
}

/// The optimistic starting estimate, 2.
pub open spec fn two_start() -> Estimate {
    Estimate { num: 2, den: 1 }
}

/// The arms epsilon-greedy pulls in its first `t` rounds: in round `t`, the
/// arm `rnd[t - 1]` if it explores on the draw `us[t - 1]`, else the lowest
/// index of a maximal estimate; `ws` are the pulls' draws.
pub open spec fn egreedy_picks(arms: Seq<int>, us: Seq<int>, rnd: Seq<int>, ws: Seq<int>, t: nat) -> Seq<int>
    decreases t,
{
    if t == 0 {
        seq![]
    } else {
        let p = egreedy_picks(arms, us, rnd, ws, (t - 1) as nat);
        p.push(
            if explores(t as int, us[t - 1]) {
                rnd[t - 1]
            } else {
                lowest_max_index(means(zero_start(), arms, p, ws), arms.len() as int)
            },
        )
    }
}

/// The arms the optimistic-initial-value policy pulls in its first `t` rounds.
pub open spec fn oiv_picks(arms: Seq<int>, ws: Seq<int>, t: nat) -> Seq<int>
    decreases t,
{
    if t == 0 {
        seq![]
    } else {
        let p = oiv_picks(arms, ws, (t - 1) as nat);
        p.push(lowest_max_index(means(two_start(), arms, p, ws), arms.len() as int))
    }
}

/// The arms UCB1 pulls in its first `t` rounds, where `lns[g]` is `ln(g)`
/// in fixed point.
pub open spec fn ucb1_picks(arms: Seq<int>, lns: Seq<int>, ws: Seq<int>, t: nat) -> Seq<int>
    decreases t,
{
    if t == 0 {
        seq![]
    } else {
        let p = ucb1_picks(arms, lns, ws, (t - 1) as nat);
        p.push(
            ucb1_pick(
                means(two_start(), arms, p, ws),
                pulls_state(fresh_state(arms), p, ws).counts,
                t - 1,
                lns[t - 1],
            ),
        )
    }
}

/// The arms Thompson sampling pulls in its first `t` rounds, where `zs[r]`
/// holds round `r + 1`'s standard normal draws, one per arm.
pub open spec fn thompson_picks(arms: Seq<int>, zs: Seq<Seq<i64>>, ws: Seq<int>, t: nat) -> Seq<int>
    decreases t,
{
    if t == 0 {
        seq![]
    } else {
        let p = thompson_picks(arms, zs, ws, (t - 1) as nat);
        p.push(
            zero_floor_pick(thompson_samples(posteriors(arms, p, ws), zs[t - 1]), arms.len() as int).0,
        )
    }
}

/// Every value of `s` lies in `[0, bound)`.
pub open spec fn below(s: Seq<int>, bound: int) -> bool {
    forall|i: int| 0 <= i < s.len() ==> 0 <= #[trigger] s[i] < bound
}

/// `arms` is a valid list of probabilities for `k` arms.
pub open spec fn valid_arms(arms: Seq<int>, k: int) -> bool {
    arms.len() == k && below(arms, SCALE as int)
}

/// A possible result of one epsilon-greedy run of `n` pulls on `k` arms.
pub open spec fn egreedy_result(k: int, n: nat, r: int) -> bool {
    exists|arms: Seq<int>, us: Seq<int>, rnd: Seq<int>, ws: Seq<int>|
        valid_arms(arms, k) && us.len() == n && rnd.len() == n && ws.len() == n && below(us, SCALE as int)
            && below(rnd, k) && below(ws, SCALE as int) && r == #[trigger] pulls_state(
            fresh_state(arms),
            egreedy_picks(arms, us, rnd, ws, n),
            ws,
        ).wins
}

/// A possible result of one optimistic-initial-value run of `n` pulls on `k` arms.
pub open spec fn oiv_result(k: int, n: nat, r: int) -> bool {
    exists|arms: Seq<int>, ws: Seq<int>|
        valid_arms(arms, k) && ws.len() == n && below(ws, SCALE as int) && r == #[trigger] pulls_state(
            fresh_state(arms),
            oiv_picks(arms, ws, n),
            ws,
        ).wins
}

/// A possible result of one UCB1 run of `n` pulls on `k` arms.
pub open spec fn ucb1_result(k: int, n: nat, r: int) -> bool {
    exists|arms: Seq<int>, lns: Seq<int>, ws: Seq<int>|
        valid_arms(arms, k) && lns.len() == n && ws.len() == n && below(ws, SCALE as int) && r
            == #[trigger] pulls_state(fresh_state(arms), ucb1_picks(arms, lns, ws, n), ws).wins
}

/// A possible result of one Thompson-sampling run of `n` pulls on `k` arms.
pub open spec fn thompson_result(k: int, n: nat, r: int) -> bool {
    exists|arms: Seq<int>, zs: Seq<Seq<i64>>, ws: Seq<int>|
        valid_arms(arms, k) && zs.len() == n && ws.len() == n && below(ws, SCALE as int) && r
            == #[trigger] pulls_state(fresh_state(arms), thompson_picks(arms, zs, ws, n), ws).wins
}

/// `k` copies of `init`.
fn fill_estimates(k: usize, init: Estimate) -> (r: Vec<Estimate>)
    ensures
        r.len() == k,
        forall|i: int| 0 <= i < k ==> #[trigger] r[i] == init,
{
    let mut r: Vec<Estimate> = Vec::with_capacity(k);
    let mut i: usize = 0;
    while i < k
        invariant
            i <= k,
            r.len() == i,
            forall|j: int| 0 <= j < i ==> #[trigger] r[j] == init,
        decreases k - i,
    {
        r.push(init);
        i = i + 1;
    }
    r
}

/// `n` uniform draws from `[0, bound)`.
fn draws_below(n: u64, bound: u64) -> (r: Vec<u64>)
    requires
        bound > 0,
    ensures
        r.len() == n,
        below(ints(r@), bound as int),
{
    let mut r: Vec<u64> = Vec::new();
    let mut i: u64 = 0;
    while i < n
        invariant
            i <= n,
            r.len() == i,
            bound > 0,
            forall|j: int| 0 <= j < r.len() ==> #[trigger] r[j] < bound,
        decreases n - i,
    {
        r.push(uniform_below(bound));
        i = i + 1;
    }
    assert forall|j: int| 0 <= j < ints(r@).len() implies 0 <= #[trigger] ints(r@)[j] < bound by {
        assert(ints(r@)[j] == r[j] as int);
    }
    r
}

/// The running estimates of a new environment's arms, all `init`.
fn fresh_means(mab: &MultiArmBandit, init: Estimate) -> (r: Vec<Estimate>)
    requires
        mab.wf(),
        mab@ == fresh_state(mab@.arms),
    ensures
        forall|ws: Seq<int>| r@ == #[trigger] means(init, mab@.arms, seq![], ws),
{
    let r = fill_estimates(mab.k, init);
    assert forall|ws: Seq<int>| r@ == #[trigger] means(init, mab@.arms, seq![], ws) by {
        assert(r@ =~= means(init, mab@.arms, seq![], ws));
    }
    r
}

/// Pulls `arm` with the draw `ws[picks.len()]` and folds the reward into the
/// arm's running estimate.
fn mean_round(
    mab: &mut MultiArmBandit,
    estims: &mut Vec<Estimate>,
    arm: usize,
    w: u64,
    init: Ghost<Estimate>,
    arms: Ghost<Seq<int>>,
    picks: Ghost<Seq<int>>,
    ws: Ghost<Seq<int>>,
)
    requires
        old(mab).wf(),
        arm < old(mab).k,
        arms@ == old(mab)@.arms,
        old(mab)@ == pulls_state(fresh_state(arms@), picks@, ws@),
        below(picks@, arms@.len() as int),
        picks@.len() < ws@.len(),
        picks@.len() < u64::MAX,
        ws@[picks@.len() as int] == w,
        init@.den == 1,
        old(estims)@ == means(init@, arms@, picks@, ws@),
    ensures
        final(mab).wf(),
        final(mab).k == old(mab).k,
        final(mab)@ == pulls_state(fresh_state(arms@), picks@.push(arm as int), ws@),
        final(mab)@.arms == arms@,
        final(mab).games == old(mab).games + 1,
        final(estims)@ == means(init@, arms@, picks@.push(arm as int), ws@),
{
    let ghost q = picks@.push(arm as int);
    proof {
        lemma_pulls_bounds(arms@, picks@, ws@);
        lemma_pulls_step(fresh_state(arms@), arms@, picks@, ws@, arm as int);
        assert(mab.arms.len() == arms@.len());
    }
    let won = mab.pull_with_draw(arm, w);
    let rew: u64 = if won {
        1
    } else {
        0
    };
    let n = mab.games_arr[arm];
    let mut e = estims[arm];
    proof {
        let c = old(mab)@.counts[arm as int];
        let wn = wins_on(arms@, picks@, ws@, arm as int);
        assert(0 <= wn <= c <= picks@.len());
        assert(e == old(estims)@[arm as int]);
        assert(e == mean_of(init@, c, wn));
        assert(mab@.counts[arm as int] == c + 1);
        assert(mab@.counts[arm as int] == n as int);
    }
    e.update(rew, n);
    estims.set(arm, e);
    proof {
        let c = old(mab)@.counts[arm as int];
        assert(mab@.counts[arm as int] == c + 1);
        assert(wins_on(arms@, q, ws@, arm as int) == wins_on(arms@, picks@, ws@, arm as int) + rew);
        assert(estims@ =~= means(init@, arms@, q, ws@)) by {
            assert forall|i: int| 0 <= i < arms@.len() implies estims@[i] == means(init@, arms@, q, ws@)[i] by {
                assert(wins_on(arms@, q, ws@, i) == wins_on(arms@, picks@, ws@, i) + if i == arm
                    && ws@[picks@.len() as int] < arms@[i] {
                    1int
                } else {
                    0int
                });
            }
        }
    }
}

/// Plays epsilon-greedy on a new environment with every round's draws given:
/// round `t` explores on `us[t - 1]`, picks `rnd[t - 1]` when it does, and
/// pulls with the draw `ws[t - 1]`. Returns the final estimates.
pub fn play_egreedy_with(mab: &mut MultiArmBandit, us: &Vec<u64>, rnd: &Vec<u64>, ws: &Vec<u64>) -> (estims: Vec<Estimate>)
    requires
        old(mab).wf(),
        old(mab)@ == fresh_state(old(mab)@.arms),
        old(mab).k >= 1 || ws.len() == 0,
        us.len() == ws.len(),
        rnd.len() == ws.len(),
        below(ints(us@), SCALE as int),
        below(ints(rnd@), old(mab).k as int),
    ensures
        final(mab).wf(),
        final(mab).k == old(mab).k,
        egreedy_picks(old(mab)@.arms, ints(us@), ints(rnd@), ints(ws@), ws.len() as nat).len() == ws.len(),
        below(egreedy_picks(old(mab)@.arms, ints(us@), ints(rnd@), ints(ws@), ws.len() as nat), old(mab).k as int),
        final(mab).games == ws.len(),
        final(mab)@ == pulls_state(
            fresh_state(old(mab)@.arms),
            egreedy_picks(old(mab)@.arms, ints(us@), ints(rnd@), ints(ws@), ws.len() as nat),
            ints(ws@),
        ),
        estims@ == means(
            zero_start(),
            old(mab)@.arms,
            egreedy_picks(old(mab)@.arms, ints(us@), ints(rnd@), ints(ws@), ws.len() as nat),
            ints(ws@),
        ),
{
    let ghost arms = mab@.arms;
    let ghost w = ints(ws@);
    let init = Estimate::new(0, 1);
    let mut estims = fresh_means(mab, init);
    let mut t: usize = 0;
    while t < ws.len()
        invariant
            mab.wf(),
            mab.k == old(mab).k,
            arms == old(mab)@.arms,
            mab@.arms == arms,
            mab.games == t,
            arms.len() == mab.k,
            mab.k >= 1 || ws.len() == 0,
            us.len() == ws.len(),
            rnd.len() == ws.len(),
            below(ints(us@), SCALE as int),
            below(ints(rnd@), mab.k as int),
            w == ints(ws@),
            init == zero_start(),
            t <= ws.len(),
            egreedy_picks(arms, ints(us@), ints(rnd@), w, t as nat).len() == t,
            below(egreedy_picks(arms, ints(us@), ints(rnd@), w, t as nat), arms.len() as int),
            mab@ == pulls_state(fresh_state(arms), egreedy_picks(arms, ints(us@), ints(rnd@), w, t as nat), w),
            estims@ == means(init, arms, egreedy_picks(arms, ints(us@), ints(rnd@), w, t as nat), w),
        decreases ws.len() - t,
    {
        let ghost p = egreedy_picks(arms, ints(us@), ints(rnd@), w, t as nat);
        assert(t < u64::MAX);
        assert(ints(us@)[t as int] == us[t as int] as int);
        assert(ints(rnd@)[t as int] == rnd[t as int] as int);
        let arm = egreedy_choice(&estims, (t as u64) + 1, us[t], rnd[t] as usize);
        assert(egreedy_picks(arms, ints(us@), ints(rnd@), w, (t + 1) as nat) == p.push(arm as int));
        mean_round(mab, &mut estims, arm, ws[t], Ghost(init), Ghost(arms), Ghost(p), Ghost(w));
        proof {
            let q = p.push(arm as int);
            assert forall|j: int| 0 <= j < q.len() implies 0 <= #[trigger] q[j] < arms.len() by {
                if j < p.len() {
                    assert(q[j] == p[j]);
                }
            }
        }
        t = t + 1;
    }
    estims
}

/// Plays `npulls` rounds of epsilon-greedy (exploration `1 / t`, estimates
/// starting at 0) on a new environment with fresh uniform draws.
pub fn play_egreedy(mab: &mut MultiArmBandit, npulls: u64) -> (estims: Vec<Estimate>)
    requires
        old(mab).wf(),
        old(mab)@ == fresh_state(old(mab)@.arms),
        old(mab).k >= 1 || npulls == 0,
    ensures
        final(mab).wf(),
        final(mab).k == old(mab).k,
        final(mab).games == npulls,
        exists|us: Seq<int>, rnd: Seq<int>, ws: Seq<int>|
            egreedy_picks(old(mab)@.arms, us, rnd, ws, npulls as nat).len() == npulls && below(egreedy_picks(old(mab)@.arms, us, rnd, ws, npulls as nat), old(mab).k as int) &&
            us.len() == npulls && rnd.len() == npulls && ws.len() == npulls && below(us, SCALE as int)
                && below(rnd, old(mab).k as int) && below(ws, SCALE as int) && final(mab)@ == #[trigger] pulls_state(
                fresh_state(old(mab)@.arms),
                egreedy_picks(old(mab)@.arms, us, rnd, ws, npulls as nat),
                ws,
            ) && estims@ == means(
                zero_start(),
                old(mab)@.arms,
                egreedy_picks(old(mab)@.arms, us, rnd, ws, npulls as nat),
                ws,
            ),
{
    let us = draws_below(npulls, SCALE);
    let rnd = if mab.k >= 1 {
        draws_below(npulls, mab.k as u64)
    } else {
        Vec::new()
    };
    let ws = draws_below(npulls, SCALE);
    play_egreedy_with(mab, &us, &rnd, &ws)
}

/// Plays the optimistic-initial-value policy (greedy, estimates starting at
/// 2) on a new environment, round `t` pulling with the draw `ws[t - 1]`.
/// Returns the final estimates.
pub fn play_oiv_with(mab: &mut MultiArmBandit, ws: &Vec<u64>) -> (estims: Vec<Estimate>)
    requires
        old(mab).wf(),
        old(mab)@ == fresh_state(old(mab)@.arms),
        old(mab).k >= 1 || ws.len() == 0,
    ensures
        final(mab).wf(),
        final(mab).k == old(mab).k,
        oiv_picks(old(mab)@.arms, ints(ws@), ws.len() as nat).len() == ws.len(),
        below(oiv_picks(old(mab)@.arms, ints(ws@), ws.len() as nat), old(mab).k as int),
        final(mab).games == ws.len(),
        final(mab)@ == pulls_state(
            fresh_state(old(mab)@.arms),
            oiv_picks(old(mab)@.arms, ints(ws@), ws.len() as nat),
            ints(ws@),
        ),
        estims@ == means(two_start(), old(mab)@.arms, oiv_picks(old(mab)@.arms, ints(ws@), ws.len() as nat), ints(ws@)),
{
    let ghost arms = mab@.arms;
    let ghost w = ints(ws@);
    let init = Estimate::new(2, 1);
    let mut estims = fresh_means(mab, init);
    let mut t: usize = 0;
    while t < ws.len()
        invariant
            mab.wf(),
            mab.k == old(mab).k,
            arms == old(mab)@.arms,
            mab@.arms == arms,
            mab.games == t,
            arms.len() == mab.k,
            mab.k >= 1 || ws.len() == 0,
            w == ints(ws@),
            init == two_start(),
            t <= ws.len(),
            oiv_picks(arms, w, t as nat).len() == t,
            below(oiv_picks(arms, w, t as nat), arms.len() as int),
            mab@ == pulls_state(fresh_state(arms), oiv_picks(arms, w, t as nat), w),
            estims@ == means(init, arms, oiv_picks(arms, w, t as nat), w),
        decreases ws.len() - t,
    {
        let ghost p = oiv_picks(arms, w, t as nat);
        assert(t < u64::MAX);
        proof {
            assert forall|i: int| 0 <= i < estims.len() implies (#[trigger] estims[i]).wf() by {}
        }
        let arm = argmax(&estims);
        assert(oiv_picks(arms, w, (t + 1) as nat) == p.push(arm as int));
        mean_round(mab, &mut estims, arm, ws[t], Ghost(init), Ghost(arms), Ghost(p), Ghost(w));
        proof {
            let q = p.push(arm as int);
            assert forall|j: int| 0 <= j < q.len() implies 0 <= #[trigger] q[j] < arms.len() by {
                if j < p.len() {
                    assert(q[j] == p[j]);
                }
            }
        }
        t = t + 1;
    }
    estims
}

/// Plays `npulls` rounds of the optimistic-initial-value policy on a new
/// environment with fresh uniform draws.
pub fn play_oiv(mab: &mut MultiArmBandit, npulls: u64) -> (estims: Vec<Estimate>)
    requires
        old(mab).wf(),
        old(mab)@ == fresh_state(old(mab)@.arms),
        old(mab).k >= 1 || npulls == 0,
    ensures
        final(mab).wf(),
        final(mab).k == old(mab).k,
        final(mab).games == npulls,
        exists|ws: Seq<int>|
            oiv_picks(old(mab)@.arms, ws, npulls as nat).len() == npulls && below(oiv_picks(old(mab)@.arms, ws, npulls as nat), old(mab).k as int) &&
            ws.len() == npulls && below(ws, SCALE as int) && final(mab)@ == #[trigger] pulls_state(
                fresh_state(old(mab)@.arms),
                oiv_picks(old(mab)@.arms, ws, npulls as nat),
                ws,
            ) && estims@ == means(two_start(), old(mab)@.arms, oiv_picks(old(mab)@.arms, ws, npulls as nat), ws),
{
    let ws = draws_below(npulls, SCALE);
    play_oiv_with(mab, &ws)
}

/// The rows of a table as sequences.
pub open spec fn rows(zs: Seq<Vec<i64>>) -> Seq<Seq<i64>> {
    zs.map_values(|v: Vec<i64>| v@)
}

/// Plays UCB1 (estimates starting at 2) on a new environment, round `t`
/// taking `lns[t - 1]` for `ln(t - 1)` in fixed point (unused in round 1) and
/// pulling with the draw `ws[t - 1]`. Returns the final estimates.
pub fn play_ucb1_with(mab: &mut MultiArmBandit, lns: &Vec<u64>, ws: &Vec<u64>) -> (estims: Vec<Estimate>)
    requires
        old(mab).wf(),
        old(mab)@ == fresh_state(old(mab)@.arms),
        old(mab).k >= 1 || ws.len() == 0,
        lns.len() == ws.len(),
    ensures
        final(mab).wf(),
        final(mab).k == old(mab).k,
        ucb1_picks(old(mab)@.arms, ints(lns@), ints(ws@), ws.len() as nat).len() == ws.len(),
        below(ucb1_picks(old(mab)@.arms, ints(lns@), ints(ws@), ws.len() as nat), old(mab).k as int),
        final(mab).games == ws.len(),
        final(mab)@ == pulls_state(
            fresh_state(old(mab)@.arms),
            ucb1_picks(old(mab)@.arms, ints(lns@), ints(ws@), ws.len() as nat),
            ints(ws@),
        ),
        estims@ == means(
            two_start(),
            old(mab)@.arms,
            ucb1_picks(old(mab)@.arms, ints(lns@), ints(ws@), ws.len() as nat),
            ints(ws@),
        ),
{
    let ghost arms = mab@.arms;
    let ghost w = ints(ws@);
    let ghost l = ints(lns@);
    let init = Estimate::new(2, 1);
    let mut estims = fresh_means(mab, init);
    let mut t: usize = 0;
    while t < ws.len()
        invariant
            mab.wf(),
            mab.k == old(mab).k,
            arms == old(mab)@.arms,
            mab@.arms == arms,
            mab.games == t,
            arms.len() == mab.k,
            mab.k >= 1 || ws.len() == 0,
            lns.len() == ws.len(),
            w == ints(ws@),
            l == ints(lns@),
            init == two_start(),
            t <= ws.len(),
            ucb1_picks(arms, l, w, t as nat).len() == t,
            below(ucb1_picks(arms, l, w, t as nat), arms.len() as int),
            mab@ == pulls_state(fresh_state(arms), ucb1_picks(arms, l, w, t as nat), w),
            estims@ == means(init, arms, ucb1_picks(arms, l, w, t as nat), w),
        decreases ws.len() - t,
    {
        let ghost p = ucb1_picks(arms, l, w, t as nat);
        assert(t < u64::MAX);
        proof {
            assert forall|i: int| 0 <= i < estims.len() implies (#[trigger] estims[i]).wf() by {}
        }
        assert(l[t as int] == lns[t as int] as int);
        let arm = ucb1_choice(&estims, &mab.games_arr, t as u64, lns[t]);
        assert(ucb1_picks(arms, l, w, (t + 1) as nat) == p.push(arm as int));
        mean_round(mab, &mut estims, arm, ws[t], Ghost(init), Ghost(arms), Ghost(p), Ghost(w));
        proof {
            let q = p.push(arm as int);
            assert forall|j: int| 0 <= j < q.len() implies 0 <= #[trigger] q[j] < arms.len() by {
                if j < p.len() {
                    assert(q[j] == p[j]);
                }
            }
        }
        t = t + 1;
    }
    estims
}

/// Plays `npulls` rounds of UCB1 on a new environment with fresh uniform
/// draws, where `ln_fixed(g)` is `ln(g)` in fixed point.
pub fn play_ucb1<L: Fn(u64) -> u64>(mab: &mut MultiArmBandit, npulls: u64, ln_fixed: &L) -> (estims: Vec<Estimate>)
    requires
        old(mab).wf(),
        old(mab)@ == fresh_state(old(mab)@.arms),
        old(mab).k >= 1 || npulls == 0,
        forall|g: u64| ln_fixed.requires((g,)),
    ensures
        final(mab).wf(),
        final(mab).k == old(mab).k,
        final(mab).games == npulls,
        exists|lns: Seq<int>, ws: Seq<int>|
            ucb1_picks(old(mab)@.arms, lns, ws, npulls as nat).len() == npulls && below(ucb1_picks(old(mab)@.arms, lns, ws, npulls as nat), old(mab).k as int) &&
            lns.len() == npulls && ws.len() == npulls && below(ws, SCALE as int) && (forall|g: int|
                1 <= g < npulls ==> ln_fixed.ensures((g as u64,), #[trigger] lns[g] as u64)) && final(mab)@
                == #[trigger] pulls_state(
                fresh_state(old(mab)@.arms),
                ucb1_picks(old(mab)@.arms, lns, ws, npulls as nat),
                ws,
            ) && estims@ == means(two_start(), old(mab)@.arms, ucb1_picks(old(mab)@.arms, lns, ws, npulls as nat), ws),
{
    let mut lns: Vec<u64> = Vec::new();
    let mut g: u64 = 0;
    while g < npulls
        invariant
            g <= npulls,
            lns.len() == g,
            forall|h: u64| ln_fixed.requires((h,)),
            forall|h: int| 1 <= h < g ==> ln_fixed.ensures((h as u64,), #[trigger] lns[h]),
        decreases npulls - g,
    {
        let v = if g == 0 {
            0
        } else {
            ln_fixed(g)
        };
        lns.push(v);
        g = g + 1;
    }
    let ws = draws_below(npulls, SCALE);
    let estims = play_ucb1_with(mab, &lns, &ws);
    assert forall|h: int| 1 <= h < npulls implies ln_fixed.ensures((h as u64,), #[trigger] ints(lns@)[h] as u64) by {
        assert(ints(lns@)[h] as u64 == lns[h]);
    }
    estims
}

/// Pulls `arm` with the draw `ws[picks.len()]` and folds the reward into the
/// arm's posterior.
fn posterior_round(
    mab: &mut MultiArmBandit,
    post: &mut Vec<BayeArm>,
    arm: usize,
    w: u64,
    arms: Ghost<Seq<int>>,
    picks: Ghost<Seq<int>>,
    ws: Ghost<Seq<int>>,
)
    requires
        old(mab).wf(),
        arm < old(mab).k,
        arms@ == old(mab)@.arms,
        old(mab)@ == pulls_state(fresh_state(arms@), picks@, ws@),
        below(picks@, arms@.len() as int),
        picks@.len() < ws@.len(),
        ws@.len() < u64::MAX,
        ws@[picks@.len() as int] == w,
        old(post)@ == posteriors(arms@, picks@, ws@),
    ensures
        final(mab).wf(),
        final(mab).k == old(mab).k,
        final(mab)@ == pulls_state(fresh_state(arms@), picks@.push(arm as int), ws@),
        final(mab)@.arms == arms@,
        final(mab).games == old(mab).games + 1,
        final(post)@ == posteriors(arms@, picks@.push(arm as int), ws@),
{
    let ghost q = picks@.push(arm as int);
    proof {
        lemma_pulls_bounds(arms@, picks@, ws@);
        lemma_pulls_step(fresh_state(arms@), arms@, picks@, ws@, arm as int);
        assert(mab.arms.len() == arms@.len());
    }
    let won = mab.pull_with_draw(arm, w);
    let rew: u64 = if won {
        1
    } else {
        0
    };
    let mut a = post[arm];
    proof {
        let c = old(mab)@.counts[arm as int];
        let wn = wins_on(arms@, picks@, ws@, arm as int);
        assert(0 <= wn <= c <= picks@.len());
        assert(a == old(post)@[arm as int]);
        assert(a.lambda == c + 1 && a.sum_x == wn);
    }
    a.update(rew);
    post.set(arm, a);
    proof {
        assert(post@ =~= posteriors(arms@, q, ws@)) by {
            assert forall|i: int| 0 <= i < arms@.len() implies post@[i] == posteriors(arms@, q, ws@)[i] by {
                assert(wins_on(arms@, q, ws@, i) == wins_on(arms@, picks@, ws@, i) + if i == arm
                    && ws@[picks@.len() as int] < arms@[i] {
                    1int
                } else {
                    0int
                });
            }
        }
    }
}

/// Plays Thompson sampling on a new environment, round `t` taking the
/// standard normal draws `zs[t - 1]` (one per arm, in fixed point) and
/// pulling with the draw `ws[t - 1]`. Returns the final posteriors.
pub fn play_thompson_with(mab: &mut MultiArmBandit, zs: &Vec<Vec<i64>>, ws: &Vec<u64>) -> (post: Vec<BayeArm>)
    requires
        old(mab).wf(),
        old(mab)@ == fresh_state(old(mab)@.arms),
        old(mab).k >= 1 || ws.len() == 0,
        zs.len() == ws.len(),
        ws.len() < u64::MAX,
        forall|t: int| 0 <= t < zs.len() ==> (#[trigger] zs[t]).len() == old(mab).k,
    ensures
        final(mab).wf(),
        final(mab).k == old(mab).k,
        thompson_picks(old(mab)@.arms, rows(zs@), ints(ws@), ws.len() as nat).len() == ws.len(),
        below(thompson_picks(old(mab)@.arms, rows(zs@), ints(ws@), ws.len() as nat), old(mab).k as int),
        final(mab).games == ws.len(),
        final(mab)@ == pulls_state(
            fresh_state(old(mab)@.arms),
            thompson_picks(old(mab)@.arms, rows(zs@), ints(ws@), ws.len() as nat),
            ints(ws@),
        ),
        post@ == posteriors(old(mab)@.arms, thompson_picks(old(mab)@.arms, rows(zs@), ints(ws@), ws.len() as nat), ints(ws@)),
{
    let ghost arms = mab@.arms;
    let ghost w = ints(ws@);
    let ghost z = rows(zs@);
    let k = mab.k;
    let mut post: Vec<BayeArm> = Vec::with_capacity(k);
    let mut i: usize = 0;
    while i < k
        invariant
            i <= k,
            post.len() == i,
            forall|j: int| 0 <= j < i ==> #[trigger] post[j] == (BayeArm { lambda: 1, sum_x: 0 }),
        decreases k - i,
    {
        post.push(BayeArm::new());
        i = i + 1;
    }
    proof {
        assert(post@ =~= posteriors(arms, seq![], w));
    }
    let mut t: usize = 0;
    while t < ws.len()
        invariant
            mab.wf(),
            mab.k == old(mab).k,
            k == mab.k,
            arms == old(mab)@.arms,
            mab@.arms == arms,
            mab.games == t,
            arms.len() == mab.k,
            mab.k >= 1 || ws.len() == 0,
            zs.len() == ws.len(),
            ws.len() < u64::MAX,
            forall|r: int| 0 <= r < zs.len() ==> (#[trigger] zs[r]).len() == k,
            w == ints(ws@),
            z == rows(zs@),
            t <= ws.len(),
            thompson_picks(arms, z, w, t as nat).len() == t,
            below(thompson_picks(arms, z, w, t as nat), arms.len() as int),
            mab@ == pulls_state(fresh_state(arms), thompson_picks(arms, z, w, t as nat), w),
            post@ == posteriors(arms, thompson_picks(arms, z, w, t as nat), w),
        decreases ws.len() - t,
    {
        let ghost p = thompson_picks(arms, z, w, t as nat);
        proof {
            lemma_pulls_bounds(arms, p, w);
            assert forall|i: int| 0 <= i < post.len() implies (#[trigger] post[i]).wf() by {
                assert(post[i] == posteriors(arms, p, w)[i]);
            }
        }
        assert(z[t as int] == zs[t as int]@);
        let arm = thompson_choice(&post, &zs[t]);
        assert(thompson_picks(arms, z, w, (t + 1) as nat) == p.push(arm as int));
        posterior_round(mab, &mut post, arm, ws[t], Ghost(arms), Ghost(p), Ghost(w));
        proof {
            let q = p.push(arm as int);
            assert forall|j: int| 0 <= j < q.len() implies 0 <= #[trigger] q[j] < arms.len() by {
                if j < p.len() {
                    assert(q[j] == p[j]);
                }
            }
        }
        t = t + 1;
    }
    post
}

/// Plays `npulls` rounds of Thompson sampling on a new environment with fresh
/// uniform draws, where `standard_normal()` draws a standard normal value in
/// fixed point.
pub fn play_thompson<N: Fn() -> i64>(mab: &mut MultiArmBandit, npulls: u64, standard_normal: &N) -> (post: Vec<BayeArm>)
    requires
        old(mab).wf(),
        old(mab)@ == fresh_state(old(mab)@.arms),
        old(mab).k >= 1 || npulls == 0,
        npulls < u64::MAX,
        standard_normal.requires(()),
    ensures
        final(mab).wf(),
        final(mab).k == old(mab).k,
        final(mab).games == npulls,
        exists|zs: Seq<Seq<i64>>, ws: Seq<int>|
            thompson_picks(old(mab)@.arms, zs, ws, npulls as nat).len() == npulls && below(thompson_picks(old(mab)@.arms, zs, ws, npulls as nat), old(mab).k as int) &&
            zs.len() == npulls && ws.len() == npulls && below(ws, SCALE as int) && final(mab)@ == #[trigger] pulls_state(
                fresh_state(old(mab)@.arms),
                thompson_picks(old(mab)@.arms, zs, ws, npulls as nat),
                ws,
            ) && post@ == posteriors(old(mab)@.arms, thompson_picks(old(mab)@.arms, zs, ws, npulls as nat), ws),
{
    let k = mab.k;
    let mut zs: Vec<Vec<i64>> = Vec::new();
    let mut t: u64 = 0;
    while t < npulls
        invariant
            t <= npulls,
            zs.len() == t,
            forall|r: int| 0 <= r < zs.len() ==> (#[trigger] zs[r]).len() == k,
            standard_normal.requires(()),
        decreases npulls - t,
    {
        let mut row: Vec<i64> = Vec::with_capacity(k);
        let mut j: usize = 0;
        while j < k
            invariant
                j <= k,
                row.len() == j,
                standard_normal.requires(()),
            decreases k - j,
        {
            row.push(standard_normal());
            j = j + 1;
        }
        zs.push(row);
        t = t + 1;
    }
    let ws = draws_below(npulls, SCALE);
    play_thompson_with(mab, &zs, &ws)
}

/// One run of epsilon-greedy on a new environment of `k` arms; returns the wins.
pub fn run_egreedy(k: usize, npulls: u64) -> (r: u64)
    requires
        k >= 1 || npulls == 0,
    ensures
        r <= npulls,
        egreedy_result(k as int, npulls as nat, r as int),
{
    let mut mab = MultiArmBandit::new(k);
    let ghost arms0 = mab@.arms;
    let _estims = play_egreedy(&mut mab, npulls);
    proof {
        assert(valid_arms(arms0, k as int));
        let (us, rnd, ws) = choose|us: Seq<int>, rnd: Seq<int>, ws: Seq<int>|
            us.len() == npulls && rnd.len() == npulls && ws.len() == npulls && below(us, SCALE as int)
                && below(rnd, k as int) && below(ws, SCALE as int) && mab@ == #[trigger] pulls_state(
                fresh_state(arms0),
                egreedy_picks(arms0, us, rnd, ws, npulls as nat),
                ws,
            ) && _estims@ == means(zero_start(), arms0, egreedy_picks(arms0, us, rnd, ws, npulls as nat), ws);
        assert(mab.wins as int == pulls_state(fresh_state(arms0), egreedy_picks(arms0, us, rnd, ws, npulls as nat), ws).wins);
    }
    mab.wins
}

/// One run of the optimistic-initial-value policy on a new environment of
/// `k` arms; returns the wins.
pub fn run_oiv(k: usize, npulls: u64) -> (r: u64)
    requires
        k >= 1 || npulls == 0,
    ensures
        r <= npulls,
        oiv_result(k as int, npulls as nat, r as int),
{
    let mut mab = MultiArmBandit::new(k);
    let ghost arms0 = mab@.arms;
    let _estims = play_oiv(&mut mab, npulls);
    proof {
        assert(valid_arms(arms0, k as int));
        let ws = choose|ws: Seq<int>|
            ws.len() == npulls && below(ws, SCALE as int) && mab@ == #[trigger] pulls_state(
                fresh_state(arms0),
                oiv_picks(arms0, ws, npulls as nat),
                ws,
            ) && _estims@ == means(two_start(), arms0, oiv_picks(arms0, ws, npulls as nat), ws);
        assert(mab.wins as int == pulls_state(fresh_state(arms0), oiv_picks(arms0, ws, npulls as nat), ws).wins);
    }
    mab.wins
}

/// One run of UCB1 on a new environment of `k` arms; returns the wins.
pub fn run_ucb1<L: Fn(u64) -> u64>(k: usize, npulls: u64, ln_fixed: &L) -> (r: u64)
    requires
        k >= 1 || npulls == 0,
        forall|g: u64| ln_fixed.requires((g,)),
    ensures
        r <= npulls,
        ucb1_result(k as int, npulls as nat, r as int),
{
    let mut mab = MultiArmBandit::new(k);
    let ghost arms0 = mab@.arms;
    let _estims = play_ucb1(&mut mab, npulls, ln_fixed);
    proof {
        assert(valid_arms(arms0, k as int));
        let (lns, ws) = choose|lns: Seq<int>, ws: Seq<int>|
            lns.len() == npulls && ws.len() == npulls && below(ws, SCALE as int) && (forall|g: int|
                1 <= g < npulls ==> ln_fixed.ensures((g as u64,), #[trigger] lns[g] as u64)) && mab@
                == #[trigger] pulls_state(
                fresh_state(arms0),
                ucb1_picks(arms0, lns, ws, npulls as nat),
                ws,
            ) && _estims@ == means(two_start(), arms0, ucb1_picks(arms0, lns, ws, npulls as nat), ws);
        assert(mab.wins as int == pulls_state(fresh_state(arms0), ucb1_picks(arms0, lns, ws, npulls as nat), ws).wins);
    }
    mab.wins
}

/// One run of Thompson sampling on a new environment of `k` arms; returns
/// the wins.
pub fn run_thompson<N: Fn() -> i64>(k: usize, npulls: u64, standard_normal: &N) -> (r: u64)
    requires
        k >= 1 || npulls == 0,
        npulls < u64::MAX,
        standard_normal.requires(()),
    ensures
        r <= npulls,
        thompson_result(k as int, npulls as nat, r as int),
{
    let mut mab = MultiArmBandit::new(k);
    let ghost arms0 = mab@.arms;
    let _post = play_thompson(&mut mab, npulls, standard_normal);
    proof {
        assert(valid_arms(arms0, k as int));
        let (zs, ws) = choose|zs: Seq<Seq<i64>>, ws: Seq<int>|
            zs.len() == npulls && ws.len() == npulls && below(ws, SCALE as int) && mab@ == #[trigger] pulls_state(
                fresh_state(arms0),
                thompson_picks(arms0, zs, ws, npulls as nat),
                ws,
            ) && _post@ == posteriors(arms0, thompson_picks(arms0, zs, ws, npulls as nat), ws);
        assert(mab.wins as int == pulls_state(fresh_state(arms0), thompson_picks(arms0, zs, ws, npulls as nat), ws).wins);
    }
    mab.wins
}

proof fn lemma_sum_step(sum: int, w: int, i: int, npulls: int, nsimus: int)
    requires
        0 <= sum <= i * npulls,
        0 <= w <= npulls,
        0 <= i < nsimus,
    ensures
        sum + w <= (i + 1) * npulls,
        (i + 1) * npulls <= nsimus * npulls,
        nsimus * npulls == npulls * nsimus,
{
    assert(nsimus * npulls == npulls * nsimus) by (nonlinear_arith);
    assert((i + 1) * npulls == i * npulls + npulls) by (nonlinear_arith);
    assert((i + 1) * npulls <= nsimus * npulls) by (nonlinear_arith)
        requires
            i + 1 <= nsimus,
            npulls >= 0,
    ;
}

/// A possible total of `nsimus` independent epsilon-greedy runs of `n` pulls on `k` arms:
/// the sum of the runs' wins.
pub open spec fn egreedy_total(k: int, n: nat, nsimus: int, r: int) -> bool {
    exists|wr: Seq<int>|
        wr.len() == nsimus && (forall|j: int| 0 <= j < nsimus ==> egreedy_result(k, n, #[trigger] wr[j])) && r
            == total(wr)
}

/// Total wins of `nsimus` independent epsilon-greedy runs.
pub fn simu_egreedy(k: usize, npulls: u64, nsimus: u64) -> (r: u64)
    requires
        k >= 1 || npulls == 0 || nsimus == 0,
        npulls * nsimus <= u64::MAX,
    ensures
        r <= npulls * nsimus,
        egreedy_total(k as int, npulls as nat, nsimus as int, r as int),
{
    let mut sum: u64 = 0;
    let mut i: u64 = 0;
    let ghost mut wr: Seq<int> = seq![];
    while i < nsimus
        invariant
            k >= 1 || npulls == 0 || nsimus == 0,
            i <= nsimus,
            npulls * nsimus <= u64::MAX,
            sum <= i * npulls,
            wr.len() == i,
            sum == total(wr),
            forall|j: int| 0 <= j < i ==> egreedy_result(k as int, npulls as nat, #[trigger] wr[j]),
        decreases nsimus - i,
    {
        let w = run_egreedy(k, npulls);
        proof {
            lemma_sum_step(sum as int, w as int, i as int, npulls as int, nsimus as int);
            assert(wr.push(w as int).drop_last() =~= wr);
            wr = wr.push(w as int);
        }
        sum = sum + w;
        i = i + 1;
    }
    assert(nsimus * npulls == npulls * nsimus) by (nonlinear_arith);
    sum
}

/// A possible total of `nsimus` independent optimistic-initial-value runs of `n` pulls on `k` arms:
/// the sum of the runs' wins.
pub open spec fn oiv_total(k: int, n: nat, nsimus: int, r: int) -> bool {
    exists|wr: Seq<int>|
        wr.len() == nsimus && (forall|j: int| 0 <= j < nsimus ==> oiv_result(k, n, #[trigger] wr[j])) && r
            == total(wr)
}

/// Total wins of `nsimus` independent optimistic-initial-value runs.
pub fn simu_oiv(k: usize, npulls: u64, nsimus: u64) -> (r: u64)
    requires
        k >= 1 || npulls == 0 || nsimus == 0,
        npulls * nsimus <= u64::MAX,
    ensures
        r <= npulls * nsimus,
        oiv_total(k as int, npulls as nat, nsimus as int, r as int),
{
    let mut sum: u64 = 0;
    let mut i: u64 = 0;
    let ghost mut wr: Seq<int> = seq![];
    while i < nsimus
        invariant
            k >= 1 || npulls == 0 || nsimus == 0,
            i <= nsimus,
            npulls * nsimus <= u64::MAX,
            sum <= i * npulls,
            wr.len() == i,
            sum == total(wr),
            forall|j: int| 0 <= j < i ==> oiv_result(k as int, npulls as nat, #[trigger] wr[j]),
        decreases nsimus - i,
    {
        let w = run_oiv(k, npulls);
        proof {
            lemma_sum_step(sum as int, w as int, i as int, npulls as int, nsimus as int);
            assert(wr.push(w as int).drop_last() =~= wr);
            wr = wr.push(w as int);
        }
        sum = sum + w;
        i = i + 1;
    }
    assert(nsimus * npulls == npulls * nsimus) by (nonlinear_arith);
    sum
}

/// A possible total of `nsimus` independent UCB1 runs of `n` pulls on `k` arms:
/// the sum of the runs' wins.
pub open spec fn ucb1_total(k: int, n: nat, nsimus: int, r: int) -> bool {
    exists|wr: Seq<int>|
        wr.len() == nsimus && (forall|j: int| 0 <= j < nsimus ==> ucb1_result(k, n, #[trigger] wr[j])) && r
            == total(wr)
}

/// Total wins of `nsimus` independent UCB1 runs.
pub fn simu_ucb1<L: Fn(u64) -> u64>(k: usize, npulls: u64, nsimus: u64, ln_fixed: &L) -> (r: u64)
    requires
        k >= 1 || npulls == 0 || nsimus == 0,
        npulls * nsimus <= u64::MAX,
        forall|g: u64| ln_fixed.requires((g,)),
    ensures
        r <= npulls * nsimus,
        ucb1_total(k as int, npulls as nat, nsimus as int, r as int),
{
    let mut sum: u64 = 0;
    let mut i: u64 = 0;
    let ghost mut wr: Seq<int> = seq![];
    while i < nsimus
        invariant
            k >= 1 || npulls == 0 || nsimus == 0,
            i <= nsimus,
            npulls * nsimus <= u64::MAX,
            sum <= i * npulls,
            wr.len() == i,
            sum == total(wr),
            forall|j: int| 0 <= j < i ==> ucb1_result(k as int, npulls as nat, #[trigger] wr[j]),
            forall|g: u64| ln_fixed.requires((g,)),
        decreases nsimus - i,
    {
        let w = run_ucb1(k, npulls, ln_fixed);
        proof {
            lemma_sum_step(sum as int, w as int, i as int, npulls as int, nsimus as int);
            assert(wr.push(w as int).drop_last() =~= wr);
            wr = wr.push(w as int);
        }
        sum = sum + w;
        i = i + 1;
    }
    assert(nsimus * npulls == npulls * nsimus) by (nonlinear_arith);
    sum
}

/// A possible total of `nsimus` independent Thompson-sampling runs of `n` pulls on `k` arms:
/// the sum of the runs' wins.
pub open spec fn thompson_total(k: int, n: nat, nsimus: int, r: int) -> bool {
    exists|wr: Seq<int>|
        wr.len() == nsimus && (forall|j: int| 0 <= j < nsimus ==> thompson_result(k, n, #[trigger] wr[j])) && r
            == total(wr)
}

/// Total wins of `nsimus` independent Thompson-sampling runs.
pub fn simu_thompson<N: Fn() -> i64>(k: usize, npulls: u64, nsimus: u64, standard_normal: &N) -> (r: u64)
    requires
        k >= 1 || npulls == 0 || nsimus == 0,
        npulls * nsimus <= u64::MAX,
        npulls < u64::MAX,
        standard_normal.requires(()),
    ensures
        r <= npulls * nsimus,
        thompson_total(k as int, npulls as nat, nsimus as int, r as int),
{
    let mut sum: u64 = 0;
    let mut i: u64 = 0;
    let ghost mut wr: Seq<int> = seq![];
    while i < nsimus
        invariant
            k >= 1 || npulls == 0 || nsimus == 0,
            i <= nsimus,
            npulls * nsimus <= u64::MAX,
            sum <= i * npulls,
            wr.len() == i,
            sum == total(wr),
            forall|j: int| 0 <= j < i ==> thompson_result(k as int, npulls as nat, #[trigger] wr[j]),
            npulls < u64::MAX,
            standard_normal.requires(()),
        decreases nsimus - i,
    {
        let w = run_thompson(k, npulls, standard_normal);
        proof {
            lemma_sum_step(sum as int, w as int, i as int, npulls as int, nsimus as int);
            assert(wr.push(w as int).drop_last() =~= wr);
            wr = wr.push(w as int);
        }
        sum = sum + w;
        i = i + 1;
    }
    assert(nsimus * npulls == npulls * nsimus) by (nonlinear_arith);
    sum
}

/// Total wins of each policy over the same number of arms, pulls and runs.
#[derive(Clone, Copy, Debug)]
pub struct Comparison {
    pub egreedy: u64,
    pub oiv: u64,
    pub ucb1: u64,
    pub thompson: u64,
}

/// Runs the trial harness once per policy with the same parameters.
pub fn cmp_algos<L: Fn(u64) -> u64, N: Fn() -> i64>(
    k: usize,
    npulls: u64,
    nsimus: u64,
    ln_fixed: &L,
    standard_normal: &N,
) -> (r: Comparison)
    requires
        k >= 1 || npulls == 0 || nsimus == 0,
        npulls < u64::MAX,
        npulls * nsimus <= u64::MAX,
        forall|g: u64| ln_fixed.requires((g,)),
        standard_normal.requires(()),
    ensures
        r.egreedy <= npulls * nsimus,
        r.oiv <= npulls * nsimus,
        r.ucb1 <= npulls * nsimus,
        r.thompson <= npulls * nsimus,
        egreedy_total(k as int, npulls as nat, nsimus as int, r.egreedy as int),
        oiv_total(k as int, npulls as nat, nsimus as int, r.oiv as int),
        ucb1_total(k as int, npulls as nat, nsimus as int, r.ucb1 as int),
        thompson_total(k as int, npulls as nat, nsimus as int, r.thompson as int),
{
    let egreedy = simu_egreedy(k, npulls, nsimus);
    let oiv = simu_oiv(k, npulls, nsimus);
    let ucb1 = simu_ucb1(k, npulls, nsimus, ln_fixed);
    let thompson = simu_thompson(k, npulls, nsimus, standard_normal);
    Comparison { egreedy, oiv, ucb1, thompson }
}

} // verus!
