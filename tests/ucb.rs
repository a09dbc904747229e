use bandit::pulls::PullCounts;
use bandit::ucb::choose_arm;

const NUM_SELECTS: u32 = 100_000;
const EPSILON: u32 = (NUM_SELECTS as f64 * 0.005) as u32;

/// Each arm's score `mean + sqrt(ln(total) / count)`, as bit patterns.
fn scores(pulls: &PullCounts, rewards: &[f64]) -> Vec<u64> {
    let total = pulls.total() as f64;
    (0..pulls.len())
        .map(|i| {
            let n = pulls.count(i) as f64;
            (rewards[i] / n + (total.ln() / n).sqrt()).to_bits()
        })
        .collect()
}

fn select(pulls: &PullCounts, rewards: &[f64]) -> usize {
    choose_arm(pulls, &scores(pulls, rewards))
}

fn counts_of(pulls: &PullCounts) -> Vec<u64> {
    (0..pulls.len()).map(|i| pulls.count(i)).collect()
}

#[test]
fn select_next_unexplored_arm() {
    let mut bandit = PullCounts::new(4);
    let rewards = vec![0.0; 4];
    assert!(!bandit.all_played());

    let n_arms = 3;
    for _ in 0..=n_arms {
        let arm = select(&bandit, &rewards);
        bandit.update_counts(arm);
    }
    assert!(bandit.all_played());
    assert_eq!(counts_of(&bandit), vec![1, 1, 1, 1]);
}

#[test]
fn exploration_takes_arms_in_list_order() {
    let mut pulls = PullCounts::new(3);
    let rewards = vec![0.0; 3];
    let mut order = Vec::new();
    for _ in 0..3 {
        let arm = select(&pulls, &rewards);
        assert_eq!(pulls.count(arm), 0);
        order.push(arm);
        pulls.update_counts(arm);
    }
    assert_eq!(order, vec![0, 1, 2]);
}

#[test]
fn exploration_ignores_scores() {
    let pulls = PullCounts::from_counts(vec![5, 0, 3, 0]).unwrap();
    assert!(!pulls.all_played());
    let high = vec![1.0f64.to_bits(), 0.0f64.to_bits(), 99.0f64.to_bits(), 0.0f64.to_bits()];
    assert_eq!(choose_arm(&pulls, &high), 1);
}

#[test]
fn exploitation_picks_best_score_first_on_ties() {
    let pulls = PullCounts::from_counts(vec![2, 2, 2]).unwrap();
    let s = vec![3.0f64.to_bits(), 5.0f64.to_bits(), 5.0f64.to_bits()];
    assert_eq!(choose_arm(&pulls, &s), 1);
}

#[test]
fn exploitation_falls_back_to_last_arm_without_scores() {
    let pulls = PullCounts::from_counts(vec![1, 1]).unwrap();
    let s = vec![f64::NAN.to_bits(), f64::NAN.to_bits()];
    assert_eq!(choose_arm(&pulls, &s), 1);
}

#[test]
fn all_played_stays_set() {
    let mut pulls = PullCounts::new(2);
    pulls.update_counts(0);
    assert!(!pulls.all_played());
    pulls.update_counts(1);
    assert!(pulls.all_played());
    pulls.update_counts(1);
    assert!(pulls.all_played());
    assert_eq!(pulls.total(), 3);
}

#[test]
fn ucb_balances_arms_without_rewards() {
    let mut pulls = PullCounts::new(4);
    let rewards = vec![0.0; 4];
    let mut selects = [0u32; 4];
    for _ in 0..NUM_SELECTS {
        let arm = select(&pulls, &rewards);
        selects[arm] += 1;
        pulls.update_counts(arm);
    }
    let expected = (f64::from(NUM_SELECTS) * 0.25) as u32;
    for v in selects {
        assert!(expected - EPSILON < v && v < expected + EPSILON, "got {}", v);
    }
}

#[test]
fn test_moves_towards_arm_with_highest_reward_with_low_alpha() {
    let arm_test_rewards = vec![98.0, 100.0, 99.0, 98.5];
    let mut pulls = PullCounts::new(4);
    let mut rewards = vec![0.0; 4];
    let num_iterations = 500;

    let mut selects = Vec::<[u64; 4]>::with_capacity(num_iterations);
    for _ in 0..num_iterations {
        for i in 0..4 {
            pulls.update_counts(i);
            pulls.update_counts(i);
            rewards[i] += arm_test_rewards[i];
        }

        let mut draws = [0; 4];
        for _ in 0..1000 {
            let selected_arm = select(&pulls, &rewards);
            draws[selected_arm] += 1;
        }
        selects.push(draws);
    }

    assert!(
        selects[num_iterations - 1][1] >= 996,
        "last round should favour highest reward, but did not {}",
        selects[num_iterations - 1][1]
    );
}

#[test]
fn test_more_often_selects_highest_reward_if_alpha_is_zero() {
    let reward_values = vec![10., 9000., 5., 1.];
    let pulls = PullCounts::from_counts(vec![10_000; 4]).unwrap();

    let num_iterations = 1_000;
    let mut selects = Vec::<[u64; 4]>::with_capacity(num_iterations);
    for _ in 0..num_iterations {
        let mut draws = [0; 4];
        for _ in 0..num_iterations {
            let selected_arm = select(&pulls, &reward_values);
            draws[selected_arm] += 1;
        }
        selects.push(draws);
    }

    assert_eq!(selects[num_iterations - 1][1] as usize, num_iterations);
}

#[test]
fn pull_counts_compare_by_contents() {
    let a = PullCounts::new(4);
    let b = PullCounts::new(4);
    assert_eq!(a, b);
    assert_ne!(a, PullCounts::new(5));
    let mut c = PullCounts::new(4);
    c.update_counts(0);
    assert_ne!(a, c);
    assert_eq!(PullCounts::from_counts(vec![1, 0, 0, 0]).unwrap(), c);
}

#[test]
fn from_counts_rejects_overflowing_totals() {
    assert!(PullCounts::from_counts(vec![u64::MAX, 1]).is_none());
    let p = PullCounts::from_counts(vec![u64::MAX - 1, 1]).unwrap();
    assert_eq!(p.total(), u64::MAX);
    assert!(p.all_played());
    let empty = PullCounts::from_counts(vec![]).unwrap();
    assert!(!empty.all_played());
}

#[test]
fn lowest_finite_scores_go_to_first_arm() {
    let pulls = PullCounts::from_counts(vec![1, 1, 1]).unwrap();
    let rewards = vec![f64::MIN; 3];
    assert_eq!(select(&pulls, &rewards), 0);
}
