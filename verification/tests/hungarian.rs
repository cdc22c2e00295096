use wish::assignment::{assignment_to_slots, build_cost_matrix};
use wish::hungarian::hungarian;
use wish::pipeline::{assign_with_permutation, random_permutation};

// ── hungarian() core algorithm ─────────────────────────────────

#[test]
fn hungarian_4x4() {
    let cost = vec![
        vec![10, 25, 15, 20],
        vec![15, 30, 5, 15],
        vec![35, 20, 12, 24],
        vec![17, 25, 24, 20],
    ];
    let result = hungarian(&cost);
    assert_eq!(result, vec![0, 2, 1, 3]);
}

#[test]
fn hungarian_2x3_more_jobs() {
    let cost = vec![vec![1, 2, 3], vec![6, 5, 4]];
    let result = hungarian(&cost);
    assert_eq!(result, vec![0, 2]);
}

#[test]
fn hungarian_3x2_more_workers() {
    let cost = vec![vec![1, 2, 3], vec![6, 5, 4], vec![1, 1, 1]];
    let result = hungarian(&cost);
    assert_eq!(result, vec![0, 2, 1]);
}

#[test]
fn hungarian_empty() {
    let cost: Vec<Vec<i64>> = vec![];
    let result = hungarian(&cost);
    assert!(result.is_empty());
}

#[test]
fn hungarian_1x1() {
    let result = hungarian(&[vec![42]]);
    assert_eq!(result, vec![0]);
}

#[test]
fn hungarian_2x2_uniform() {
    let cost = vec![vec![1, 1], vec![1, 1]];
    let result = hungarian(&cost);
    assert_ne!(result[0], result[1]);
}

#[test]
fn hungarian_prefers_diagonal() {
    let cost = vec![vec![1, 100, 100], vec![100, 1, 100], vec![100, 100, 1]];
    let result = hungarian(&cost);
    assert_eq!(result, vec![0, 1, 2]);
}

#[test]
fn hungarian_extra_workers_get_minus_one() {
    // Three workers, two jobs: one worker is left out.
    let cost = vec![vec![1, 9], vec![9, 1], vec![5, 5]];
    let result = hungarian(&cost);
    assert_eq!(result, vec![0, 1, -1]);
}

#[test]
fn hungarian_negative_costs() {
    let cost = vec![vec![-5, 0], vec![0, -7]];
    assert_eq!(hungarian(&cost), vec![0, 1]);
}

#[test]
fn hungarian_empty_rows() {
    let cost: Vec<Vec<i64>> = vec![vec![], vec![]];
    assert!(hungarian(&cost).is_empty());
}

// ── build_cost_matrix ──────────────────────────────────────────

#[test]
fn cost_matrix_basic_shape() {
    let wishes = vec![vec![0, 1], vec![1, 0]];
    let slots = vec![(1, 2), (1, 2)];
    let cost = build_cost_matrix(&wishes, &slots, 2);
    assert_eq!(cost.len(), 2);
    assert_eq!(cost[0].len(), 4);
}

#[test]
fn cost_matrix_vmin_columns_cheaper() {
    let wishes = vec![vec![0, 1], vec![1, 0], vec![0, 0]];
    let slots = vec![(1, 2), (1, 2)];
    let cost = build_cost_matrix(&wishes, &slots, 3);
    assert!(cost[0][0] < cost[0][1]);
    assert!(cost[0][2] < cost[0][3]);
}

#[test]
fn cost_matrix_single_slot() {
    let wishes = vec![vec![3], vec![1]];
    let slots = vec![(2, 2)];
    let cost = build_cost_matrix(&wishes, &slots, 2);
    assert_eq!(cost.len(), 2);
    assert_eq!(cost[0].len(), 2);
    assert_eq!(cost[0][0], 9);
    assert_eq!(cost[1][0], 1);
}

#[test]
fn cost_matrix_vmax_capped_by_participants() {
    let wishes = vec![vec![0], vec![1]];
    let slots = vec![(1, 100)];
    let cost = build_cost_matrix(&wishes, &slots, 2);
    assert_eq!(cost[0].len(), 2);
}

#[test]
fn cost_matrix_penalty_is_largest_square() {
    // Penalty: max(2 slots squared = 4, largest squared wish = 9) = 9.
    let wishes = vec![vec![3, 0], vec![1, 2]];
    let slots = vec![(1, 2), (0, 1)];
    let cost = build_cost_matrix(&wishes, &slots, 2);
    assert_eq!(cost[0], vec![9, 18, 9]);
    assert_eq!(cost[1], vec![1, 10, 13]);
    // Penalty from the number of slots when wishes are small.
    let cost = build_cost_matrix(&[vec![0, 1, 0]], &[(0, 1), (0, 1), (1, 1)], 1);
    assert_eq!(cost[0], vec![9, 10, 0]);
}

// ── assignment_to_slots ────────────────────────────────────────

#[test]
fn assignment_to_slots_basic() {
    let slots = vec![(1, 2), (1, 2)];
    assert_eq!(assignment_to_slots(&[0], &slots, 2), vec![0]);
    assert_eq!(assignment_to_slots(&[1], &slots, 2), vec![0]);
    assert_eq!(assignment_to_slots(&[2], &slots, 2), vec![1]);
    assert_eq!(assignment_to_slots(&[3], &slots, 2), vec![1]);
}

#[test]
fn assignment_to_slots_with_vmin_vmax_spread() {
    let slots = vec![(1, 3), (1, 3), (1, 3)];
    assert_eq!(assignment_to_slots(&[0], &slots, 3), vec![0]);
    assert_eq!(assignment_to_slots(&[2], &slots, 3), vec![0]);
    assert_eq!(assignment_to_slots(&[3], &slots, 3), vec![1]);
    assert_eq!(assignment_to_slots(&[5], &slots, 3), vec![1]);
    assert_eq!(assignment_to_slots(&[6], &slots, 3), vec![2]);
    assert_eq!(assignment_to_slots(&[8], &slots, 3), vec![2]);
}

#[test]
fn assignment_to_slots_skips_empty_slots_and_places_minus_one_first() {
    let slots = vec![(0, 0), (0, 2), (0, 1)];
    assert_eq!(assignment_to_slots(&[0, 1, 2, -1], &slots, 5), vec![1, 1, 2, 0]);
}

// ── full pipeline ──────────────────────────────────────────────

fn run(wishes: &[Vec<i32>], slots: &[(u32, u32)]) -> Vec<usize> {
    let n = wishes.len();
    let cost = build_cost_matrix(wishes, slots, n);
    let assignment = hungarian(&cost);
    assignment_to_slots(&assignment, slots, n)
}

#[test]
fn full_pipeline_everyone_gets_first_choice() {
    let wishes = vec![vec![0, 1, 2], vec![2, 0, 1], vec![1, 2, 0]];
    let slots = vec![(1, 1), (1, 1), (1, 1)];
    let result = run(&wishes, &slots);
    assert_eq!(result, vec![0, 1, 2]);
}

#[test]
fn full_pipeline_respects_vmax() {
    let wishes = vec![vec![0, 1], vec![0, 1], vec![0, 1], vec![0, 1]];
    let slots = vec![(2, 2), (2, 2)];
    let result = run(&wishes, &slots);
    let in_slot_0 = result.iter().filter(|&&s| s == 0).count();
    let in_slot_1 = result.iter().filter(|&&s| s == 1).count();
    assert_eq!(in_slot_0, 2);
    assert_eq!(in_slot_1, 2);
}

// ── full pipeline with permutation (admin/offline flow) ────────

fn run_assignment_pipeline(wishes: &[Vec<i32>], slots: &[(u32, u32)], perm: &[usize]) -> Vec<usize> {
    assign_with_permutation(wishes, slots, perm)
}

#[test]
fn pipeline_with_identity_permutation() {
    let wishes = vec![vec![0, 1, 2], vec![2, 0, 1], vec![1, 2, 0]];
    let slots = vec![(1, 1), (1, 1), (1, 1)];
    let perm: Vec<usize> = (0..3).collect();
    let result = run_assignment_pipeline(&wishes, &slots, &perm);
    assert_eq!(result, vec![0, 1, 2]);
}

#[test]
fn pipeline_with_reversed_permutation() {
    let wishes = vec![vec![0, 1, 2], vec![2, 0, 1], vec![1, 2, 0]];
    let slots = vec![(1, 1), (1, 1), (1, 1)];
    let perm = vec![2, 1, 0];
    let result = run_assignment_pipeline(&wishes, &slots, &perm);
    assert_eq!(result, vec![0, 1, 2]);
}

#[test]
fn pipeline_permutation_does_not_change_optimal_result() {
    let wishes = vec![vec![0, 2], vec![2, 0]];
    let slots = vec![(1, 1), (1, 1)];
    let perms = vec![vec![0, 1], vec![1, 0]];
    for perm in &perms {
        let result = run_assignment_pipeline(&wishes, &slots, perm);
        assert_eq!(result, vec![0, 1], "failed with perm {:?}", perm);
    }
}

#[test]
fn pipeline_respects_vmin_with_permutation() {
    let wishes = vec![vec![0, 1], vec![0, 1], vec![0, 2], vec![0, 2]];
    let slots = vec![(2, 2), (2, 2)];
    let perm = vec![3, 1, 0, 2];
    let result = run_assignment_pipeline(&wishes, &slots, &perm);
    let in_slot_0 = result.iter().filter(|&&s| s == 0).count();
    let in_slot_1 = result.iter().filter(|&&s| s == 1).count();
    assert_eq!(in_slot_0, 2);
    assert_eq!(in_slot_1, 2);
}

#[test]
fn pipeline_asymmetric_slots() {
    let wishes = vec![vec![0, 1], vec![1, 0], vec![1, 0]];
    let slots = vec![(1, 1), (2, 2)];
    let perm = vec![2, 0, 1];
    let result = run_assignment_pipeline(&wishes, &slots, &perm);
    assert_eq!(result[0], 0);
    assert_eq!(result.iter().filter(|&&s| s == 0).count(), 1);
    assert_eq!(result.iter().filter(|&&s| s == 1).count(), 2);
}

#[test]
fn pipeline_single_participant() {
    let wishes = vec![vec![0]];
    let slots = vec![(1, 1)];
    let perm = vec![0];
    let result = run_assignment_pipeline(&wishes, &slots, &perm);
    assert_eq!(result, vec![0]);
}

#[test]
fn pipeline_all_same_preference() {
    let wishes = vec![vec![0, 1, 2], vec![0, 1, 2], vec![0, 1, 2]];
    let slots = vec![(1, 1), (1, 1), (1, 1)];
    let perm = vec![1, 2, 0];
    let result = run_assignment_pipeline(&wishes, &slots, &perm);
    let mut counts = vec![0; 3];
    for &s in &result {
        counts[s] += 1;
    }
    assert_eq!(counts, vec![1, 1, 1]);
    assert!(result.contains(&0));
}

#[test]
fn pipeline_more_participants_than_seats_go_to_first_slot() {
    // One seat in total: the other participant has no seat and counts as in slot 0.
    let wishes = vec![vec![0, 0], vec![0, 0]];
    let slots = vec![(0, 0), (0, 1)];
    let result = run_assignment_pipeline(&wishes, &slots, &[0, 1]);
    let mut sorted = result.clone();
    sorted.sort();
    assert_eq!(sorted, vec![0, 1]);
}

#[test]
fn random_permutation_is_a_permutation() {
    for n in 0..20 {
        let mut p = random_permutation(n);
        assert_eq!(p.len(), n);
        p.sort();
        assert_eq!(p, (0..n).collect::<Vec<_>>());
    }
}

#[test]
fn random_permutation_shuffles() {
    let identity: Vec<usize> = (0..30).collect();
    let shuffled = (0..5).map(|_| random_permutation(30)).filter(|p| *p != identity).count();
    assert!(shuffled > 0);
}

#[test]
fn rectangular_assignments_are_cheapest_injective() {
    let wide = vec![vec![4i64, 1, 3], vec![2, 1, 5]];
    assert_eq!(hungarian(&wide), vec![1, 0]);
    let tall = vec![vec![1i64, 2], vec![3, 1], vec![2, 2]];
    assert_eq!(hungarian(&tall), vec![0, 1, -1]);
}
