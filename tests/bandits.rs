use bandits::environment::MultiArmBandit;
use bandits::estimate::Estimate;
use bandits::fixed::isqrt;
use bandits::policies::{
    cmp_algos, egreedy_choice, explores_at, play_egreedy, play_egreedy_with, play_oiv, play_oiv_with,
    play_thompson, play_thompson_with, play_ucb1, play_ucb1_with,
    run_egreedy, run_oiv, run_thompson, run_ucb1, simu_egreedy, simu_oiv, simu_thompson,
    simu_ucb1,
};
use bandits::select::{argmax, argmax_zero_floor};
use bandits::thompson::{argmax_thompson, thompson_choice, BayeArm};
use bandits::ucb::{argmax_ucb1, ucb1_choice, ucb1_scores, ucb_bonus_fixed};
use bandits::SCALE;

fn ln_fixed(g: u64) -> u64 {
    ((g as f64).ln() * SCALE as f64) as u64
}

fn zero_normal() -> i64 {
    0
}

fn est(num: u64, den: u64) -> Estimate {
    Estimate::new(num, den)
}

#[test]
fn new_environment_has_probabilities_in_unit_range() {
    for k in 1..20usize {
        let mab = MultiArmBandit::new(k);
        assert_eq!(mab.k, k);
        assert_eq!(mab.arms.len(), k);
        assert_eq!(mab.games_arr, vec![0; k]);
        assert_eq!(mab.games, 0);
        assert_eq!(mab.wins, 0);
        assert!(mab.arms.iter().all(|&p| p < SCALE));
    }
}

#[test]
fn pulls_are_counted() {
    let mut mab = MultiArmBandit::from_probabilities(vec![SCALE / 2, SCALE / 4, 0]);
    let picks = [0usize, 1, 2, 0, 0, 1, 2, 2, 2, 0];
    for (i, &arm) in picks.iter().enumerate() {
        mab.pull_arm(arm);
        assert_eq!(mab.games, i as u64 + 1);
    }
    assert_eq!(mab.games, 10);
    assert_eq!(mab.games_arr, vec![4, 2, 4]);
    assert_eq!(mab.games_arr.iter().sum::<u64>(), 10);
    assert!(mab.wins <= 10);
}

#[test]
fn pull_wins_iff_draw_below_probability() {
    let mut mab = MultiArmBandit::from_probabilities(vec![100, 0]);
    assert!(mab.pull_with_draw(0, 99));
    assert!(!mab.pull_with_draw(0, 100));
    assert!(!mab.pull_with_draw(1, 0));
    assert_eq!(mab.games, 3);
    assert_eq!(mab.wins, 1);
    assert_eq!(mab.games_arr, vec![2, 1]);
}

#[test]
fn arm_of_probability_zero_never_wins() {
    let mut mab = MultiArmBandit::from_probabilities(vec![0]);
    for _ in 0..100 {
        assert!(!mab.pull_arm(0));
    }
    assert_eq!(mab.wins, 0);
}

#[test]
fn incremental_mean_equals_arithmetic_mean() {
    for init in [est(0, 1), est(2, 1)] {
        let rewards = [1u64, 0, 1, 1, 0, 1];
        let mut e = init;
        let mut sum = 0;
        for (i, &r) in rewards.iter().enumerate() {
            e.update(r, i as u64 + 1);
            sum += r;
            assert_eq!(e.num * (i as u64 + 1), sum * e.den);
        }
        assert_eq!((e.num, e.den), (4, 6));
    }
}

#[test]
fn first_observation_replaces_estimate() {
    let mut e = est(2, 1);
    e.update(0, 1);
    assert_eq!((e.num, e.den), (0, 1));
    let mut f = est(2, 1);
    f.update(1, 1);
    assert_eq!((f.num, f.den), (1, 1));
}

#[test]
fn lowest_index_wins_ties() {
    assert_eq!(argmax(&vec![est(1, 2), est(3, 4), est(6, 8), est(1, 4)]), 1);
    assert_eq!(argmax(&vec![est(0, 1), est(0, 1), est(0, 3)]), 0);
    assert_eq!(argmax(&vec![est(1, 3), est(2, 1), est(2, 1)]), 1);
    assert_eq!(argmax(&vec![est(2, 1)]), 0);
    assert_eq!(argmax(&vec![est(1, 3), est(1, 2), est(2, 3)]), 2);
}

#[test]
fn zero_floor_defaults_to_first_index() {
    assert_eq!(argmax_zero_floor(&vec![-5, 0, -1]), 0);
    assert_eq!(argmax_zero_floor(&vec![0, 0, 0]), 0);
    assert_eq!(argmax_zero_floor(&vec![]), 0);
    assert_eq!(argmax_zero_floor(&vec![0, 3, 3, -2]), 1);
    assert_eq!(argmax_zero_floor(&vec![-1, 2, 7]), 2);
}

#[test]
fn posterior_mean_approaches_success_rate() {
    let mut a = BayeArm::new();
    let mut successes = 0u64;
    for i in 0..1000u64 {
        let x = if i % 4 == 0 { 0 } else { 1 };
        successes += x;
        a.update(x);
    }
    assert_eq!(a.lambda, 1001);
    assert_eq!(a.sum_x, successes);
    let m = a.mean();
    assert_eq!((m.num, m.den), (750, 1001));
    let gap = 0.75 - m.num as f64 / m.den as f64;
    assert!(gap >= 0.0 && gap <= 1.0 / 1001.0);
}

#[test]
fn unpulled_arm_has_larger_bonus() {
    let ln2 = ln_fixed(2);
    let fresh = ucb_bonus_fixed(ln2, 0);
    for n in [1u64, 2, 10, 1000] {
        assert!(fresh > ucb_bonus_fixed(ln2, n));
    }
    let ln_g = SCALE;
    let r = ucb_bonus_fixed(ln_g, 1) as u128;
    let x = 2u128 * (ln_g as u128) * (SCALE as u128) * 10000 / 10001;
    assert!(r * r <= x && x < (r + 1) * (r + 1));
    assert_eq!(ucb_bonus_fixed(0, 5), 0);
}

#[test]
fn integer_square_root() {
    assert_eq!(isqrt(0), 0);
    assert_eq!(isqrt(15), 3);
    assert_eq!(isqrt(16), 4);
    assert_eq!(isqrt(1 << 64), 1 << 32);
    assert_eq!(isqrt(u128::MAX), u64::MAX);
}

#[test]
fn epsilon_schedule_decays() {
    assert!(explores_at(1, SCALE - 1));
    assert!(explores_at(2, SCALE / 2 - 1));
    assert!(!explores_at(2, SCALE / 2));
    assert!(!explores_at(1000, SCALE / 1000 + 1));
    let v = vec![est(1, 2), est(3, 4), est(0, 1)];
    assert_eq!(egreedy_choice(&v, 1, SCALE - 1, 2), 2);
    assert_eq!(egreedy_choice(&v, 2, SCALE / 2, 2), 1);
}

#[test]
fn thompson_samples_in_fixed_point() {
    let prior = BayeArm::new();
    assert_eq!(prior.sample_with(SCALE as i64), SCALE as i128);
    assert_eq!(prior.sample_with(-(SCALE as i64)), -(SCALE as i128));
    let a = BayeArm { lambda: 4, sum_x: 2 };
    assert_eq!(a.sample_with(SCALE as i64), SCALE as i128);
    assert_eq!(a.sample_with(0), (SCALE / 2) as i128);
    let arms = vec![prior, a, prior];
    assert_eq!(thompson_choice(&arms, &vec![0, 0, 0]), 1);
    assert_eq!(thompson_choice(&arms, &vec![-1, -(SCALE as i64), -1]), 0);
    assert_eq!(thompson_choice(&arms, &vec![0, 0, 2 * SCALE as i64]), 2);
    assert_eq!(argmax_thompson(&arms, &zero_normal), 1);
}

#[test]
fn ucb1_plays_first_arm_before_any_game() {
    let v = vec![est(2, 1), est(2, 1)];
    assert_eq!(ucb1_choice(&v, &vec![0, 0], 0, 0), 0);
    let mab = MultiArmBandit::from_probabilities(vec![1, 2]);
    assert_eq!(argmax_ucb1(&v, &mab, &ln_fixed), 0);
}

#[test]
fn ucb1_prefers_unpulled_arm() {
    let v = vec![est(1, 1), est(2, 1), est(0, 1)];
    let counts = vec![3, 0, 1];
    let scores = ucb1_scores(&v, &counts, ln_fixed(4));
    assert!(scores[1] > scores[0] && scores[1] > scores[2]);
    assert_eq!(ucb1_choice(&v, &counts, 4, ln_fixed(4)), 1);
    let flat = ucb1_scores(&vec![est(1, 2)], &vec![1], 0);
    assert_eq!(flat, vec![(SCALE / 2) as i128]);
}

#[test]
fn egreedy_end_to_end_finds_better_arm() {
    let p0 = (SCALE as f64 * 0.9) as u64;
    let p1 = (SCALE as f64 * 0.1) as u64;
    let mut wins = 0u64;
    let mut better = 0u64;
    for _ in 0..200 {
        let mut mab = MultiArmBandit::from_probabilities(vec![p0, p1]);
        let e = play_egreedy(&mut mab, 1000);
        assert_eq!(mab.games, 1000);
        if (e[0].num as u128) * (e[1].den as u128) > (e[1].num as u128) * (e[0].den as u128) {
            better += 1;
        }
        wins += mab.wins;
    }
    assert!(better > 150);
    let rate = wins as f64 / 200_000.0;
    assert!((rate - 0.9).abs() < (rate - 0.5).abs());
}

#[test]
fn single_arm_is_always_played() {
    let mut m1 = MultiArmBandit::from_probabilities(vec![0]);
    play_egreedy(&mut m1, 50);
    let mut m2 = MultiArmBandit::from_probabilities(vec![0]);
    play_oiv(&mut m2, 50);
    let mut m3 = MultiArmBandit::from_probabilities(vec![0]);
    play_ucb1(&mut m3, 50, &ln_fixed);
    let mut m4 = MultiArmBandit::from_probabilities(vec![0]);
    play_thompson(&mut m4, 50, &zero_normal);
    for m in [&m1, &m2, &m3, &m4] {
        assert_eq!(m.games_arr, vec![50]);
        assert_eq!(m.wins, 0);
    }
    let mut sure = MultiArmBandit::from_probabilities(vec![SCALE - 1]);
    let e = play_oiv(&mut sure, 200);
    assert_eq!(sure.games_arr, vec![200]);
    assert_eq!((e[0].num, e[0].den), (sure.wins, 200));
}

#[test]
fn runs_and_simulations_stay_within_pulls() {
    assert!(run_egreedy(3, 100) <= 100);
    assert!(run_oiv(3, 100) <= 100);
    assert!(run_ucb1(3, 100, &ln_fixed) <= 100);
    assert!(run_thompson(3, 100, &zero_normal) <= 100);
    assert!(simu_egreedy(2, 50, 4) <= 200);
    assert!(simu_oiv(2, 50, 4) <= 200);
    assert!(simu_ucb1(2, 50, 4, &ln_fixed) <= 200);
    assert!(simu_thompson(2, 50, 4, &zero_normal) <= 200);
    assert_eq!(run_egreedy(2, 0), 0);
    assert_eq!(simu_oiv(2, 10, 0), 0);
}

#[test]
fn comparison_reports_each_policy() {
    let c = cmp_algos(3, 100, 5, &ln_fixed, &zero_normal);
    assert!(c.egreedy <= 500);
    assert!(c.oiv <= 500);
    assert!(c.ucb1 <= 500);
    assert!(c.thompson <= 500);
}

#[test]
fn egreedy_follows_its_draws() {
    let mut mab = MultiArmBandit::from_probabilities(vec![SCALE / 2, SCALE / 4]);
    let e = play_egreedy_with(&mut mab, &vec![0, SCALE - 1], &vec![1, 0], &vec![0, 0]);
    assert_eq!(mab.games_arr, vec![0, 2]);
    assert_eq!(mab.wins, 2);
    assert_eq!((e[0].num, e[0].den), (0, 1));
    assert_eq!((e[1].num, e[1].den), (2, 2));
}

#[test]
fn oiv_tries_arms_in_index_order() {
    let mut mab = MultiArmBandit::from_probabilities(vec![0, 0, 0]);
    let e = play_oiv_with(&mut mab, &vec![5, 5, 5, 5]);
    assert_eq!(mab.games_arr, vec![2, 1, 1]);
    assert_eq!(mab.wins, 0);
    assert_eq!((e[0].num, e[0].den), (0, 2));
    let mut m2 = MultiArmBandit::from_probabilities(vec![0, 0, 0]);
    play_oiv_with(&mut m2, &vec![5, 5]);
    assert_eq!(m2.games_arr, vec![1, 1, 0]);
}

#[test]
fn ucb1_tries_each_arm_once_first() {
    let mut mab = MultiArmBandit::from_probabilities(vec![0, 0, 0]);
    let lns = vec![0, ln_fixed(1), ln_fixed(2)];
    let e = play_ucb1_with(&mut mab, &lns, &vec![7, 7, 7]);
    assert_eq!(mab.games_arr, vec![1, 1, 1]);
    assert!(e.iter().all(|x| (x.num, x.den) == (0, 1)));
}

#[test]
fn thompson_follows_its_samples() {
    let mut mab = MultiArmBandit::from_probabilities(vec![0, SCALE - 1]);
    let zs = vec![vec![0, SCALE as i64], vec![0, 0]];
    let post = play_thompson_with(&mut mab, &zs, &vec![0, 0]);
    assert_eq!(mab.games_arr, vec![0, 2]);
    assert_eq!(mab.wins, 2);
    assert_eq!((post[1].lambda, post[1].sum_x), (3, 2));
    assert_eq!((post[0].lambda, post[0].sum_x), (1, 0));
}

#[test]
fn no_arms_and_no_pulls() {
    assert_eq!(run_egreedy(0, 0), 0);
    assert_eq!(run_oiv(0, 0), 0);
    assert_eq!(simu_egreedy(0, 0, 3), 0);
}

#[test]
fn general_estimate_update() {
    let mut e = est(1, 3);
    e.update(1, 5);
    assert_eq!(e.num * 15, (4 * 1 + 1 * 3) * e.den);
}

#[test]
fn no_arms_and_no_runs() {
    assert_eq!(simu_egreedy(0, 5, 0), 0);
    assert_eq!(simu_oiv(0, 5, 0), 0);
    assert_eq!(simu_ucb1(0, 5, 0, &ln_fixed), 0);
    assert_eq!(simu_thompson(0, 5, 0, &zero_normal), 0);
    let c = cmp_algos(0, 5, 0, &ln_fixed, &zero_normal);
    assert_eq!((c.egreedy, c.oiv, c.ucb1, c.thompson), (0, 0, 0, 0));
}
