use freetoken::copy_plan::{plan_runs, split_misses};

#[test]
fn split_rounds_to_balance() {
    let m: Vec<u32> = (0..8).collect();
    let share = (m.len() as f64 * 0.25).round() as usize;
    let (fetch, cpu) = split_misses(&m, share);
    assert_eq!(fetch.len(), 2);
    assert_eq!(cpu.len(), 6);
}

#[test]
fn split_keeps_order_and_stops_at_the_end() {
    let m = vec![7, 3, 9];
    assert_eq!(split_misses(&m, 1), (vec![7], vec![3, 9]));
    assert_eq!(split_misses(&m, 8), (vec![7, 3, 9], vec![]));
    assert_eq!(split_misses(&m, 0), (vec![], vec![7, 3, 9]));
}

#[test]
fn runs_coalesce_contiguous_experts() {
    let runs = plan_runs(vec![(5, 0), (3, 1), (4, 2), (9, 3)]);
    assert_eq!(runs.len(), 2);
    assert_eq!(runs[0].start_expert, 3);
    assert_eq!(runs[0].count, 3);
    assert_eq!(runs[0].slots, vec![1, 2, 0]);
    assert_eq!(runs[1].start_expert, 9);
}

#[test]
fn runs_of_nothing_and_of_equal_experts() {
    assert!(plan_runs(vec![]).is_empty());
    let runs = plan_runs(vec![(2, 4), (2, 5)]);
    assert_eq!(runs.len(), 2);
    assert_eq!(runs[0].slots, vec![4]);
    assert_eq!(runs[1].slots, vec![5]);
}

#[test]
fn a_run_reaches_the_last_expert_number() {
    let runs = plan_runs(vec![(u32::MAX, 1), (u32::MAX - 1, 0)]);
    assert_eq!(runs.len(), 1);
    assert_eq!(runs[0].start_expert, u32::MAX - 1);
    assert_eq!(runs[0].slots, vec![0, 1]);
}

#[test]
fn runs_ascend_with_gaps_in_any_order() {
    let misses = vec![(8, 0), (1, 1), (2, 2), (7, 3), (4, 4)];
    let runs = plan_runs(misses.clone());
    let spans: Vec<(u32, u32)> = runs.iter().map(|r| (r.start_expert, r.count)).collect();
    assert_eq!(spans, vec![(1, 2), (4, 1), (7, 2)]);
    let mut other = misses;
    other.reverse();
    assert_eq!(plan_runs(other), runs);
}
