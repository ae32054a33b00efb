//! Running estimates of an arm's reward, kept as exact fractions.
use vstd::prelude::*;

verus! {

/// An estimate `num / den` of an arm's mean reward (`den > 0`).
#[derive(Clone, Copy, Debug)]
pub struct Estimate {
    pub num: u64,
    pub den: u64,
}

/// `a / b < c / d` for positive denominators.
pub open spec fn frac_lt(a: int, b: int, c: int, d: int) -> bool {
    a * d < c * b
}

/// `a / b == c / d` for positive denominators.
pub open spec fn frac_eq(a: int, b: int, c: int, d: int) -> bool {
    a * d == c * b
}

/// The incremental-mean step `e += (x - e) / n` on `e = a / b`,
/// written as the fraction `((n - 1) * a + x * b) / (n * b)`.
pub open spec fn incr_mean(a: int, b: int, x: int, n: int) -> (int, int) {
    ((n - 1) * a + x * b, n * b)
}

/// The sum of a sequence of rewards.
pub open spec fn reward_sum(rs: Seq<int>) -> int
    decreases rs.len(),
{
    if rs.len() == 0 {
        0
    } else {
        reward_sum(rs.drop_last()) + rs.last()
    }
}

/// The estimate reached from `init` by one incremental-mean step per reward,
/// the `i`-th reward being the `i`-th observation of the arm.
pub open spec fn fold_mean(init: (int, int), rs: Seq<int>) -> (int, int)
    decreases rs.len(),
{
    if rs.len() == 0 {
        init
    } else {
        let prev = fold_mean(init, rs.drop_last());
        incr_mean(prev.0, prev.1, rs.last(), rs.len() as int)
    }
}

/// Whatever the starting estimate, the incremental mean over a non-empty
/// sequence of rewards equals the arithmetic mean of those rewards.
pub proof fn lemma_incremental_mean_is_mean(init: (int, int), rs: Seq<int>)
    requires
        init.1 > 0,
        rs.len() >= 1,
    ensures
        fold_mean(init, rs).1 > 0,
        frac_eq(fold_mean(init, rs).0, fold_mean(init, rs).1, reward_sum(rs), rs.len() as int),
    decreases rs.len(),
{
    let n = rs.len() as int;
    let x = rs.last();
    let pre = rs.drop_last();
    if n == 1 {
        let b = init.1;
        assert(pre.len() == 0);
        assert(reward_sum(pre) == 0);
        assert(fold_mean(init, pre) == init);
        assert((1 - 1) * init.0 + x * b == x * b) by (nonlinear_arith);
        assert(1 * b > 0);
    } else {
        lemma_incremental_mean_is_mean(init, pre);
        let p = fold_mean(init, pre).0;
        let q = fold_mean(init, pre).1;
        let s = reward_sum(pre);
        assert(p * (n - 1) == s * q);
        assert(((n - 1) * p + x * q) * n == (s + x) * (n * q)) by (nonlinear_arith)
            requires
                p * (n - 1) == s * q,
        ;
        assert(n * q > 0) by (nonlinear_arith)
            requires
                n > 1,
                q > 0,
        ;
    }
}

impl Estimate {
    pub open spec fn wf(&self) -> bool {
        self.den > 0
    }

    pub fn new(num: u64, den: u64) -> (r: Estimate)
        requires
            den > 0,
        ensures
            r.num == num,
            r.den == den,
    {
        Estimate { num, den }
    }

    /// Folds the `n`-th observation `reward` (0 or 1) of the arm into the
    /// estimate: `e += (reward - e) / n`. When the estimate is already held
    /// over `n - 1`, the result is held over `n`.
    pub fn update(&mut self, reward: u64, n: u64)
        requires
            old(self).wf(),
            reward <= 1,
            n >= 1,
            n == 1 || (old(self).den == n - 1 && old(self).num <= old(self).den) || (
            (n - 1) * old(self).num + reward * old(self).den <= u64::MAX && n * old(self).den
                <= u64::MAX),
        ensures
            final(self).wf(),
            frac_eq(
                final(self).num as int,
                final(self).den as int,
                incr_mean(old(self).num as int, old(self).den as int, reward as int, n as int).0,
                incr_mean(old(self).num as int, old(self).den as int, reward as int, n as int).1,
            ),
            n == 1 ==> final(self).num == reward && final(self).den == 1,
            n > 1 && old(self).den == n - 1 && old(self).num <= old(self).den ==> final(self).num
                == old(self).num + reward && final(self).den == n,
    {
        let ghost a = self.num as int;
        let ghost b = self.den as int;
        if n == 1 {
            self.num = reward;
            self.den = 1;
            assert(reward * (1 * b) == ((1 - 1) * a + reward * b) * 1) by (nonlinear_arith);
        } else if self.den == n - 1 && self.num <= self.den {
            assert((n - 1) * a + reward * b >= a + reward) by (nonlinear_arith)
                requires
                    b == n - 1,
                    n > 1,
                    a >= 0,
                    reward >= 0,
            ;
            assert(a + reward <= n);
            self.num = self.num + reward;
            self.den = n;
            assert((a + reward) * (n * b) == ((n - 1) * a + reward * b) * n) by (nonlinear_arith)
                requires
                    b == n - 1,
            ;
        } else {
            assert(n * b >= 1) by (nonlinear_arith)
                requires
                    n >= 1,
                    b >= 1,
            ;
            self.num = (n - 1) * self.num + reward * self.den;
            self.den = n * self.den;
        }
    }

    /// `self < other` as fractions.
    pub fn less_than(&self, other: &Estimate) -> (r: bool)
        ensures
            r == frac_lt(self.num as int, self.den as int, other.num as int, other.den as int),
    {
        let a = self.num as u128;
        let d = other.den as u128;
        let c = other.num as u128;
        let b = self.den as u128;
        assert(a * d <= 0xffff_ffff_ffff_ffff * 0xffff_ffff_ffff_ffff) by (nonlinear_arith)
            requires
                a <= 0xffff_ffff_ffff_ffff,
                d <= 0xffff_ffff_ffff_ffff,
        ;
        assert(c * b <= 0xffff_ffff_ffff_ffff * 0xffff_ffff_ffff_ffff) by (nonlinear_arith)
            requires
                c <= 0xffff_ffff_ffff_ffff,
                b <= 0xffff_ffff_ffff_ffff,
        ;
        a * d < c * b
    }
}

} // verus!
