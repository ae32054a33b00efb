//! The bandit environment: `k` arms with hidden success probabilities.
use vstd::prelude::*;
use crate::SCALE;
use crate::draw::uniform_below;

verus! {

/// The mathematical state of an environment: the arms' probabilities (in
/// units of `1 / SCALE`), the per-arm pull counts, and the totals.
pub struct BanditState {
    pub arms: Seq<int>,
    pub counts: Seq<int>,
    pub games: int,
    pub wins: int,
}

/// A sequence of machine integers as mathematical integers.
pub open spec fn ints(s: Seq<u64>) -> Seq<int> {
    s.map_values(|x: u64| x as int)
}

/// Sum of a sequence of counts.
pub open spec fn total(s: Seq<int>) -> int
    decreases s.len(),
{
    if s.len() == 0 {
        0
    } else {
        total(s.drop_last()) + s.last()
    }
}

/// A new environment over the given probabilities: nothing pulled yet.
pub open spec fn fresh_state(arms: Seq<int>) -> BanditState {
    BanditState { arms, counts: Seq::new(arms.len(), |i: int| 0int), games: 0, wins: 0 }
}

/// Pulling arm `n` when the uniform draw is `u / SCALE`: a win iff `u < arms[n]`.
pub open spec fn pull_state(s: BanditState, n: int, u: int) -> BanditState {
    BanditState {
        arms: s.arms,
        counts: s.counts.update(n, s.counts[n] + 1),
        games: s.games + 1,
        wins: s.wins + if u < s.arms[n] { 1int } else { 0int },
    }
}

/// Pulling the arms `picks` in turn, with the draws `draws`.
pub open spec fn pulls_state(s: BanditState, picks: Seq<int>, draws: Seq<int>) -> BanditState
    decreases picks.len(),
{
    if picks.len() == 0 {
        s
    } else {
        pull_state(
            pulls_state(s, picks.drop_last(), draws),
            picks.last(),
            draws[picks.len() - 1],
        )
    }
}

/// The wins that arm `i` collected when the arms `picks` were pulled in
/// turn with the draws `draws`.
pub open spec fn wins_on(arms: Seq<int>, picks: Seq<int>, draws: Seq<int>, i: int) -> int
    decreases picks.len(),
{
    if picks.len() == 0 {
        0
    } else {
        wins_on(arms, picks.drop_last(), draws, i) + if picks.last() == i && draws[picks.len() - 1]
            < arms[i] {
            1int
        } else {
            0int
        }
    }
}

/// One more pull of `arm` after `picks`: the state takes one pull step, and
/// only `arm`'s wins may grow, by the outcome of the draw.
pub proof fn lemma_pulls_step(s: BanditState, arms: Seq<int>, picks: Seq<int>, draws: Seq<int>, arm: int)
    ensures
        pulls_state(s, picks.push(arm), draws) == pull_state(
            pulls_state(s, picks, draws),
            arm,
            draws[picks.len() as int],
        ),
        forall|i: int|
            #[trigger] wins_on(arms, picks.push(arm), draws, i) == wins_on(arms, picks, draws, i) + if i
                == arm && draws[picks.len() as int] < arms[i] {
                1int
            } else {
                0int
            },
{
    assert(picks.push(arm).drop_last() =~= picks);
}

/// After pulls from a new environment, each arm's count is bounded by the
/// number of pulls, its wins by its count, and the arms are unchanged.
pub proof fn lemma_pulls_bounds(arms: Seq<int>, picks: Seq<int>, draws: Seq<int>)
    requires
        forall|j: int| 0 <= j < picks.len() ==> 0 <= #[trigger] picks[j] < arms.len(),
    ensures
        pulls_state(fresh_state(arms), picks, draws).arms == arms,
        pulls_state(fresh_state(arms), picks, draws).counts.len() == arms.len(),
        pulls_state(fresh_state(arms), picks, draws).games == picks.len(),
        forall|i: int|
            0 <= i < arms.len() ==> 0 <= #[trigger] wins_on(arms, picks, draws, i) <= pulls_state(
                fresh_state(arms),
                picks,
                draws,
            ).counts[i] <= picks.len(),
    decreases picks.len(),
{
    if picks.len() > 0 {
        let pre = picks.drop_last();
        lemma_pulls_bounds(arms, pre, draws);
        lemma_pulls_step(fresh_state(arms), arms, pre, draws, picks.last());
        assert(pre.push(picks.last()) =~= picks);
    }
}

proof fn lemma_total_update(s: Seq<int>, n: int)
    requires
        0 <= n < s.len(),
    ensures
        total(s.update(n, s[n] + 1)) == total(s) + 1,
    decreases s.len(),
{
    let t = s.update(n, s[n] + 1);
    if n == s.len() - 1 {
        assert(t.drop_last() =~= s.drop_last());
    } else {
        lemma_total_update(s.drop_last(), n);
        assert(t.drop_last() =~= s.drop_last().update(n, s[n] + 1));
    }
}

/// No count exceeds the total of non-negative counts.
pub proof fn lemma_total_bounds(s: Seq<int>, n: int)
    requires
        0 <= n < s.len(),
        forall|i: int| 0 <= i < s.len() ==> #[trigger] s[i] >= 0,
    ensures
        s[n] <= total(s),
        total(s) >= 0,
    decreases s.len(),
{
    let pre = s.drop_last();
    assert forall|i: int| 0 <= i < pre.len() implies #[trigger] pre[i] >= 0 by {
        assert(pre[i] == s[i]);
    }
    assert(s.last() >= 0);
    if n < s.len() - 1 {
        lemma_total_bounds(pre, n);
    } else if s.len() > 1 {
        lemma_total_bounds(pre, 0);
    } else {
        assert(total(pre) == 0);
    }
}

proof fn lemma_total_zeros(k: int)
    requires
        k >= 0,
    ensures
        total(Seq::new(k as nat, |i: int| 0int)) == 0,
    decreases k,
{
    if k > 0 {
        lemma_total_zeros(k - 1);
        assert(Seq::new(k as nat, |i: int| 0int).drop_last() =~= Seq::new((k - 1) as nat, |i: int| 0int));
    }
}

/// After `n` pulls on a new environment, `n` games were played, the per-arm
/// counts sum to `n`, and at most `n` of the games were won.
pub proof fn lemma_pull_totals(arms: Seq<int>, picks: Seq<int>, draws: Seq<int>)
    requires
        draws.len() == picks.len(),
        forall|i: int| 0 <= i < picks.len() ==> 0 <= #[trigger] picks[i] < arms.len(),
    ensures
        pulls_state(fresh_state(arms), picks, draws).games == picks.len(),
        total(pulls_state(fresh_state(arms), picks, draws).counts) == picks.len(),
        pulls_state(fresh_state(arms), picks, draws).wins <= picks.len(),
        pulls_state(fresh_state(arms), picks, draws).counts.len() == arms.len(),
    decreases picks.len(),
{
    if picks.len() == 0 {
        lemma_total_zeros(arms.len() as int);
    } else {
        let pre = picks.drop_last();
        lemma_pull_totals(arms, pre, draws.take(pre.len() as int));
        assert(pulls_state(fresh_state(arms), pre, draws) == pulls_state(
            fresh_state(arms),
            pre,
            draws.take(pre.len() as int),
        )) by {
            lemma_pulls_prefix(fresh_state(arms), pre, draws, draws.take(pre.len() as int));
        }
        let s = pulls_state(fresh_state(arms), pre, draws);
        lemma_total_update(s.counts, picks.last());
    }
}

/// How many of the first `n` draws fall below the probability `p`: the
/// successes that a single arm of probability `p` yields on them.
pub open spec fn successes(draws: Seq<int>, p: int, n: int) -> int
    decreases n,
{
    if n <= 0 {
        0
    } else {
        successes(draws, p, n - 1) + if draws[n - 1] < p { 1int } else { 0int }
    }
}

/// With a single arm every pull is of arm 0, every pull is counted on it,
/// and the wins are the successes of that arm on the draws.
pub proof fn lemma_single_arm(p: int, picks: Seq<int>, draws: Seq<int>)
    requires
        draws.len() == picks.len(),
        forall|i: int| 0 <= i < picks.len() ==> 0 <= #[trigger] picks[i] < 1,
    ensures
        forall|i: int| 0 <= i < picks.len() ==> #[trigger] picks[i] == 0,
        pulls_state(fresh_state(seq![p]), picks, draws).counts == seq![picks.len() as int],
        pulls_state(fresh_state(seq![p]), picks, draws).wins == successes(draws, p, picks.len() as int),
    decreases picks.len(),
{
    if picks.len() == 0 {
        assert(fresh_state(seq![p]).counts =~= seq![0int]);
    } else {
        let pre = picks.drop_last();
        let d = draws.take(pre.len() as int);
        lemma_single_arm(p, pre, d);
        lemma_pulls_prefix(fresh_state(seq![p]), pre, draws, d);
        assert(successes(draws, p, pre.len() as int) == successes(d, p, pre.len() as int)) by {
            lemma_successes_prefix(draws, d, p, pre.len() as int);
        }
        let s = pulls_state(fresh_state(seq![p]), pre, draws);
        assert(s.arms == seq![p]) by {
            lemma_pulls_keep_arms(fresh_state(seq![p]), pre, draws);
        }
        assert(pulls_state(fresh_state(seq![p]), picks, draws).counts =~= seq![picks.len() as int]);
    }
}

proof fn lemma_successes_prefix(d1: Seq<int>, d2: Seq<int>, p: int, n: int)
    requires
        0 <= n <= d1.len(),
        n <= d2.len(),
        forall|i: int| 0 <= i < n ==> d1[i] == d2[i],
    ensures
        successes(d1, p, n) == successes(d2, p, n),
    decreases n,
{
    if n > 0 {
        lemma_successes_prefix(d1, d2, p, n - 1);
    }
}

proof fn lemma_pulls_keep_arms(s: BanditState, picks: Seq<int>, draws: Seq<int>)
    ensures
        pulls_state(s, picks, draws).arms == s.arms,
    decreases picks.len(),
{
    if picks.len() > 0 {
        lemma_pulls_keep_arms(s, picks.drop_last(), draws);
    }
}

proof fn lemma_pulls_prefix(s: BanditState, picks: Seq<int>, d1: Seq<int>, d2: Seq<int>)
    requires
        d1.len() >= picks.len(),
        d2.len() >= picks.len(),
        forall|i: int| 0 <= i < picks.len() ==> d1[i] == d2[i],
    ensures
        pulls_state(s, picks, d1) == pulls_state(s, picks, d2),
    decreases picks.len(),
{
    if picks.len() > 0 {
        lemma_pulls_prefix(s, picks.drop_last(), d1, d2);
    }
}

/// A multi-armed bandit; arm `i` wins with probability `arms[i] / SCALE`.
pub struct MultiArmBandit {
    pub k: usize,
    pub arms: Vec<u64>,
    pub games_arr: Vec<u64>,
    pub games: u64,
    pub wins: u64,
}

impl View for MultiArmBandit {
    type V = BanditState;

    open spec fn view(&self) -> BanditState {
        BanditState {
            arms: ints(self.arms@),
            counts: ints(self.games_arr@),
            games: self.games as int,
            wins: self.wins as int,
        }
    }
}

impl MultiArmBandit {
    /// Both vectors have `k` entries, every probability lies in `[0, 1)`,
    /// the per-arm counts sum to the games played, and wins never exceed games.
    pub open spec fn wf(&self) -> bool {
        &&& self.arms.len() == self.k
        &&& self.games_arr.len() == self.k
        &&& forall|i: int| 0 <= i < self.k ==> #[trigger] self.arms[i] < SCALE
        &&& self.games == total(self@.counts)
        &&& self.wins <= self.games
    }

    /// An environment over the given probabilities (in units of `1 / SCALE`).
    pub fn from_probabilities(arms: Vec<u64>) -> (r: MultiArmBandit)
        requires
            forall|i: int| 0 <= i < arms.len() ==> #[trigger] arms[i] < SCALE,
        ensures
            r.wf(),
            r.k == arms.len(),
            r.arms@ == arms@,
            r@ == fresh_state(r@.arms),
    {
        let k = arms.len();
        let mut games_arr: Vec<u64> = Vec::with_capacity(k);
        let mut i: usize = 0;
        while i < k
            invariant
                i <= k,
                games_arr.len() == i,
                forall|j: int| 0 <= j < i ==> #[trigger] games_arr[j] == 0,
            decreases k - i,
        {
            games_arr.push(0);
            i = i + 1;
        }
        let r = MultiArmBandit { k, arms, games_arr, games: 0, wins: 0 };
        proof {
            assert(r@.counts =~= Seq::new(k as nat, |j: int| 0int));
            lemma_total_zeros(k as int);
        }
        r
    }

    /// An environment of `k` arms whose probabilities are drawn uniformly
    /// from `[0, 1)`.
    pub fn new(k: usize) -> (r: MultiArmBandit)
        ensures
            r.wf(),
            r.k == k,
            r@.arms.len() == k,
            forall|i: int| 0 <= i < k ==> 0 <= #[trigger] r@.arms[i] < SCALE,
            r@ == fresh_state(r@.arms),
    {
        let mut arms: Vec<u64> = Vec::with_capacity(k);
        let mut i: usize = 0;
        while i < k
            invariant
                i <= k,
                arms.len() == i,
                forall|j: int| 0 <= j < i ==> #[trigger] arms[j] < SCALE,
            decreases k - i,
        {
            arms.push(uniform_below(SCALE));
            i = i + 1;
        }
        MultiArmBandit::from_probabilities(arms)
    }

    /// Pulls arm `n` with the uniform draw `u / SCALE`: a win iff `u < arms[n]`.
    pub fn pull_with_draw(&mut self, n: usize, u: u64) -> (r: bool)
        requires
            old(self).wf(),
            n < old(self).k,
            old(self).games < u64::MAX,
        ensures
            final(self).wf(),
            final(self).k == old(self).k,
            final(self).arms@ == old(self).arms@,
            final(self)@ == pull_state(old(self)@, n as int, u as int),
            r == (u < old(self).arms[n as int]),
    {
        proof {
            assert forall|i: int| 0 <= i < self@.counts.len() implies #[trigger] self@.counts[i] >= 0 by {}
            lemma_total_bounds(self@.counts, n as int);
            lemma_total_update(self@.counts, n as int);
        }
        let res = u < self.arms[n];
        self.games = self.games + 1;
        let c = self.games_arr[n];
        self.games_arr.set(n, c + 1);
        if res {
            self.wins = self.wins + 1;
        }
        proof {
            assert(self@.counts =~= old(self)@.counts.update(n as int, old(self)@.counts[n as int] + 1));
            assert(self@.arms =~= old(self)@.arms);
        }
        res
    }

    /// Pulls arm `n` with a fresh uniform draw.
    pub fn pull_arm(&mut self, n: usize) -> (r: bool)
        requires
            old(self).wf(),
            n < old(self).k,
            old(self).games < u64::MAX,
        ensures
            final(self).wf(),
            final(self).k == old(self).k,
            final(self).arms@ == old(self).arms@,
            exists|u: int| 0 <= u < SCALE && final(self)@ == pull_state(old(self)@, n as int, u),
            r ==> old(self).arms[n as int] > 0,
            final(self).wins == old(self).wins + if r { 1int } else { 0int },
    {
        let u = uniform_below(SCALE);
        self.pull_with_draw(n, u)
    }
}

} // verus!
