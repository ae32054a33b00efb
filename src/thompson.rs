//! Thompson sampling with a Gaussian posterior per arm: prior mean 0, prior
//! precision 1, and a known observation precision `TAU`.
use vstd::prelude::*;
use crate::SCALE;
use crate::estimate::{Estimate, reward_sum};
use crate::fixed::{isqrt, isqrt_spec, is_isqrt};
use crate::select::{argmax_zero_floor, zero_floor_pick};

verus! {

/// The known precision of one observation.
pub const TAU: u64 = 1;

/// The posterior of one arm: its precision `lambda` and the sum `sum_x` of
/// the rewards observed; the posterior mean is `TAU * sum_x / lambda`.
#[derive(Clone, Copy, Debug)]
pub struct BayeArm {
    pub lambda: u64,
    pub sum_x: u64,
}

/// One posterior update on the observation `x`: `(lambda, sum_x)` becomes
/// `(lambda + TAU, sum_x + x)`.
pub open spec fn bayes_update(p: (int, int), x: int) -> (int, int) {
    (p.0 + TAU, p.1 + x)
}

/// The posterior `(lambda, sum_x)` after observing `rs` in turn from the prior.
pub open spec fn posterior_after(rs: Seq<int>) -> (int, int)
    decreases rs.len(),
{
    if rs.len() == 0 {
        (1, 0)
    } else {
        bayes_update(posterior_after(rs.drop_last()), rs.last())
    }
}

/// Fed `n >= 1` rewards of 0 or 1, the posterior has precision `n + 1`, and
/// its mean differs from the proportion of successes by at most
/// `1 / (n + 1)`: it converges to that proportion as `n` grows.
pub proof fn lemma_posterior_mean_converges(rs: Seq<int>)
    requires
        rs.len() >= 1,
        forall|i: int| 0 <= i < rs.len() ==> 0 <= #[trigger] rs[i] <= 1,
    ensures
        posterior_after(rs).0 == rs.len() + 1,
        posterior_after(rs).1 == reward_sum(rs),
        0 <= reward_sum(rs) * posterior_after(rs).0 - TAU * posterior_after(rs).1 * rs.len(),
        reward_sum(rs) * posterior_after(rs).0 - TAU * posterior_after(rs).1 * rs.len() <= rs.len(),
{
    lemma_posterior_counts(rs);
    let s = reward_sum(rs);
    let n = rs.len() as int;
    assert(s * (n + 1) - 1 * s * n == s) by (nonlinear_arith);
}

proof fn lemma_posterior_counts(rs: Seq<int>)
    requires
        forall|i: int| 0 <= i < rs.len() ==> 0 <= #[trigger] rs[i] <= 1,
    ensures
        posterior_after(rs).0 == rs.len() + 1,
        posterior_after(rs).1 == reward_sum(rs),
        0 <= reward_sum(rs) <= rs.len(),
    decreases rs.len(),
{
    if rs.len() > 0 {
        let pre = rs.drop_last();
        assert forall|i: int| 0 <= i < pre.len() implies 0 <= #[trigger] pre[i] <= 1 by {
            assert(pre[i] == rs[i]);
        }
        lemma_posterior_counts(pre);
        assert(0 <= rs.last() <= 1);
    }
}

/// `z * SCALE / root` rounded toward zero.
pub open spec fn scaled_noise(z: int, root: int) -> int {
    if z >= 0 {
        (z * SCALE) / root
    } else {
        -(((-z) * SCALE) / root)
    }
}

/// The sample `z / sqrt(lambda) + mean` of an arm in fixed point, where `z`
/// is a standard normal draw in fixed point.
pub open spec fn thompson_sample(a: BayeArm, z: int) -> int {
    scaled_noise(z, isqrt_spec(a.lambda * SCALE * SCALE)) + (TAU * a.sum_x * SCALE) / (a.lambda as int)
}

/// The samples of all arms for the draws `zs`.
pub open spec fn thompson_samples(v: Seq<BayeArm>, zs: Seq<i64>) -> Seq<i128> {
    Seq::new(v.len(), |i: int| thompson_sample(v[i], zs[i] as int) as i128)
}

impl BayeArm {
    /// The posterior precision is at least the prior's, and the rewards
    /// observed sum to less than it.
    pub open spec fn wf(&self) -> bool {
        1 <= self.lambda && self.sum_x < self.lambda
    }

    /// The prior: mean 0, precision 1.
    pub fn new() -> (r: BayeArm)
        ensures
            r.wf(),
            r.lambda == 1,
            r.sum_x == 0,
    {
        BayeArm { lambda: 1, sum_x: 0 }
    }

    /// The posterior mean `TAU * sum_x / lambda`.
    pub fn mean(&self) -> (r: Estimate)
        requires
            self.wf(),
        ensures
            r.num == TAU * self.sum_x,
            r.den == self.lambda,
    {
        Estimate::new(TAU * self.sum_x, self.lambda)
    }

    /// Folds the observed reward `x` (0 or 1) into the posterior.
    pub fn update(&mut self, x: u64)
        requires
            old(self).wf(),
            x <= 1,
            old(self).lambda < u64::MAX,
        ensures
            final(self).wf(),
            (final(self).lambda as int, final(self).sum_x as int) == bayes_update(
                (old(self).lambda as int, old(self).sum_x as int),
                x as int,
            ),
    {
        self.lambda = self.lambda + TAU;
        self.sum_x = self.sum_x + x;
    }

    /// This arm's sample for the standard normal draw `z` (in fixed point).
    pub fn sample_with(&self, z: i64) -> (r: i128)
        requires
            self.wf(),
        ensures
            r as int == thompson_sample(*self, z as int),
    {
        let lam = self.lambda as u128;
        assert(lam * (SCALE as u128) <= 0xffff_ffff_ffff_ffff * 0x1_0000_0000 && 1 <= lam * (SCALE as u128) * (SCALE as u128)
            && lam * (SCALE as u128) * (SCALE as u128) <= 0xffff_ffff_ffff_ffff * 0x1_0000_0000_0000_0000)
            by (nonlinear_arith)
            requires
                1 <= lam <= 0xffff_ffff_ffff_ffff,
        ;
        let x = lam * (SCALE as u128) * (SCALE as u128);
        let root = isqrt(x);
        assert(root >= 1) by (nonlinear_arith)
            requires
                is_isqrt(x as int, root as int),
                x >= 1,
        ;
        let zz = z as i128;
        let mag: u128 = if zz < 0 {
            (-zz) as u128
        } else {
            zz as u128
        };
        assert(mag * (SCALE as u128) <= 0x8000_0000_0000_0000 * 0x1_0000_0000) by (nonlinear_arith)
            requires
                mag <= 0x8000_0000_0000_0000,
        ;
        let q = mag * (SCALE as u128) / (root as u128);
        assert(q <= mag * (SCALE as u128)) by (nonlinear_arith)
            requires
                root >= 1,
                q == (mag * (SCALE as u128)) / (root as int),
        ;
        let noise: i128 = if zz < 0 {
            -(q as i128)
        } else {
            q as i128
        };
        assert((self.sum_x as u128) * (SCALE as u128) <= 0xffff_ffff_ffff_ffff * 0x1_0000_0000) by (nonlinear_arith)
            requires
                self.sum_x <= 0xffff_ffff_ffff_ffff,
        ;
        let m = (TAU as u128) * (self.sum_x as u128) * (SCALE as u128) / (self.lambda as u128);
        assert(m <= (self.sum_x as u128) * (SCALE as u128)) by (nonlinear_arith)
            requires
                self.lambda >= 1,
                m == (1 * (self.sum_x as int) * (SCALE as int)) / (self.lambda as int),
                self.sum_x >= 0,
        ;
        noise + (m as i128)
    }
}

/// The arm Thompson sampling plays for the standard normal draws `zs`, one
/// per arm: the greatest sample above the zero floor.
pub fn thompson_choice(v: &Vec<BayeArm>, zs: &Vec<i64>) -> (r: usize)
    requires
        zs.len() == v.len(),
        forall|i: int| 0 <= i < v.len() ==> (#[trigger] v[i]).wf(),
    ensures
        r as int == zero_floor_pick(thompson_samples(v@, zs@), v.len() as int).0,
        v.len() >= 1 ==> r < v.len(),
{
    let mut samples: Vec<i128> = Vec::with_capacity(v.len());
    let mut i: usize = 0;
    while i < v.len()
        invariant
            i <= v.len(),
            zs.len() == v.len(),
            forall|j: int| 0 <= j < v.len() ==> (#[trigger] v[j]).wf(),
            samples.len() == i,
            forall|j: int| 0 <= j < i ==> #[trigger] samples[j] == thompson_samples(v@, zs@)[j],
        decreases v.len() - i,
    {
        let s = v[i].sample_with(zs[i]);
        samples.push(s);
        i = i + 1;
    }
    assert(samples@ =~= thompson_samples(v@, zs@));
    argmax_zero_floor(&samples)
}

/// The arm Thompson sampling plays, drawing one standard normal value per arm
/// (in fixed point) from `standard_normal`.
pub fn argmax_thompson<N: Fn() -> i64>(v: &Vec<BayeArm>, standard_normal: &N) -> (r: usize)
    requires
        forall|i: int| 0 <= i < v.len() ==> (#[trigger] v[i]).wf(),
        standard_normal.requires(()),
    ensures
        exists|zs: Seq<i64>|
            zs.len() == v.len() && (forall|i: int| 0 <= i < zs.len() ==> standard_normal.ensures((), #[trigger] zs[i]))
                && r as int == zero_floor_pick(
                #[trigger] thompson_samples(v@, zs),
                v.len() as int,
            ).0,
        v.len() >= 1 ==> r < v.len(),
{
    let mut zs: Vec<i64> = Vec::with_capacity(v.len());
    let mut i: usize = 0;
    while i < v.len()
        invariant
            i <= v.len(),
            zs.len() == i,
            standard_normal.requires(()),
            forall|j: int| 0 <= j < i ==> standard_normal.ensures((), #[trigger] zs[j]),
        decreases v.len() - i,
    {
        zs.push(standard_normal());
        i = i + 1;
    }
    thompson_choice(v, &zs)
}

} // verus!
