use wish::fairness::{apply_fairness_vec, is_fair_wish};

fn is_fair(wish: &[i32]) -> bool {
    is_fair_wish(wish)
}

#[test]
fn fairness_no_change_when_decreasing() {
    let mut wish = vec![0, 1, 2];
    apply_fairness_vec(&mut wish, 2, 0, 3);
    assert_eq!(wish, vec![0, 1, 0]);
    assert!(is_fair(&wish));
}

#[test]
fn fairness_simple_increase() {
    let mut wish = vec![0, 0, 0];
    apply_fairness_vec(&mut wish, 0, 1, 3);
    assert_eq!(wish[0], 1);
    assert!(is_fair(&wish));
}

#[test]
fn fairness_pushes_other_down() {
    let mut wish = vec![0, 1, 0];
    apply_fairness_vec(&mut wish, 2, 1, 3);
    assert_eq!(wish, vec![0, 1, 1]);
    assert!(is_fair(&wish));
}

#[test]
fn fairness_prevents_all_max() {
    let mut wish = vec![0, 0, 0];
    apply_fairness_vec(&mut wish, 0, 2, 3);
    assert_eq!(wish[0], 2);
    assert!(is_fair(&wish));

    apply_fairness_vec(&mut wish, 1, 2, 3);
    assert_eq!(wish[1], 2);
    assert!(is_fair(&wish), "wish = {:?}", wish);
}

#[test]
fn fairness_result_always_fair() {
    for start in 0..4i32 {
        for end in 0..4i32 {
            let mut wish = vec![0, 0, 0, 0];
            wish[0] = start;
            if !is_fair(&wish) {
                continue;
            }
            apply_fairness_vec(&mut wish, 0, end, 4);
            assert!(
                is_fair(&wish),
                "unfair after moving slot 0 from {start} to {end}: wish={wish:?}"
            );
        }
    }
}

#[test]
fn fairness_exhaustive_all_slots_all_transitions() {
    let n = 3;
    let max_val = (n - 1) as i32;
    for a in 0..=max_val {
        for b in 0..=max_val {
            for c in 0..=max_val {
                let start = vec![a, b, c];
                if !is_fair(&start) {
                    continue;
                }
                for idx in 0..n {
                    for new_val in 0..=max_val {
                        let mut wish = start.clone();
                        apply_fairness_vec(&mut wish, idx, new_val, n);
                        assert!(
                            is_fair(&wish),
                            "unfair: start={start:?} idx={idx} new_val={new_val} → {wish:?}"
                        );
                        assert_eq!(wish[idx], new_val, "target slot not set correctly");
                    }
                }
            }
        }
    }
}

#[test]
fn fairness_decrease_preserves_others() {
    let mut wish = vec![0, 1, 2];
    apply_fairness_vec(&mut wish, 1, 0, 3);
    assert_eq!(wish[0], 0);
    assert_eq!(wish[1], 0);
    assert_eq!(wish[2], 2);
}

#[test]
fn fairness_set_to_same_value_is_noop() {
    let mut wish = vec![0, 1, 2];
    apply_fairness_vec(&mut wish, 1, 1, 3);
    assert_eq!(wish, vec![0, 1, 2]);
}

#[test]
fn fairness_two_slots() {
    let mut wish = vec![0, 0];
    apply_fairness_vec(&mut wish, 0, 1, 2);
    assert!(is_fair(&wish));
    assert_eq!(wish[0], 1);
    assert_eq!(wish[1], 0);
}

#[test]
fn fairness_lowers_the_first_other_slot_at_the_value() {
    // Raising slot 2 to 2 with two slots already at 2 lowers the first of them.
    let mut wish = vec![2, 2, 0, 0];
    apply_fairness_vec(&mut wish, 2, 2, 4);
    assert_eq!(wish, vec![1, 2, 2, 0]);
    assert!(is_fair(&wish));
}

#[test]
fn fairness_exhaustive_four_slots_keeps_fair() {
    let n = 4usize;
    for a in 0..4 {
        for b in 0..4 {
            for c in 0..4 {
                for d in 0..4 {
                    let start = vec![a, b, c, d];
                    if !is_fair(&start) {
                        continue;
                    }
                    for idx in 0..n {
                        for v in 0..4 {
                            let mut w = start.clone();
                            apply_fairness_vec(&mut w, idx, v, n);
                            assert!(is_fair(&w));
                            assert_eq!(w[idx], v);
                        }
                    }
                }
            }
        }
    }
}
