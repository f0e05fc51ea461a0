use graph_layout::update_step_length;

#[test]
fn five_improving_iterations_grow_the_step_once() {
    let mut progress: i64 = 0;
    let s1 = update_step_length(900, 100, None, &mut progress);
    assert_eq!((s1, progress), (900, 1));
    let s2 = update_step_length(s1, 90, Some(100), &mut progress);
    assert_eq!((s2, progress), (900, 2));
    let s3 = update_step_length(s2, 80, Some(90), &mut progress);
    assert_eq!((s3, progress), (900, 3));
    let s4 = update_step_length(s3, 70, Some(80), &mut progress);
    assert_eq!((s4, progress), (900, 4));
    let s5 = update_step_length(s4, 60, Some(70), &mut progress);
    assert_eq!(s5, 1000); // 900 * 10 / 9: exactly one growth
    assert_eq!(progress, 0);
}

#[test]
fn a_non_improving_iteration_resets_and_shrinks() {
    let mut progress: i64 = 3;
    let s = update_step_length(1000, 60, Some(60), &mut progress);
    assert_eq!(s, 900); // 1000 * 9 / 10
    assert_eq!(progress, 0);
}

#[test]
fn equal_energy_counts_as_no_improvement() {
    let mut progress: i64 = 4;
    let s = update_step_length(100, 55, Some(55), &mut progress);
    assert_eq!(s, 90);
    assert_eq!(progress, 0);
}

#[test]
fn growth_and_shrink_divisions_truncate() {
    let mut progress: i64 = 4;
    // 7 * 10 / 9 == 7 (truncating): tiny steps cannot grow
    let s = update_step_length(7, 1, Some(2), &mut progress);
    assert_eq!(s, 7);
    assert_eq!(progress, 0);
    progress = 0;
    let s2 = update_step_length(7, 1, Some(2), &mut progress);
    assert_eq!(s2, 7); // progress 1, step kept
    assert_eq!(progress, 1);
    let s3 = update_step_length(1, 9, Some(2), &mut progress);
    assert_eq!(s3, 0); // 1 * 9 / 10 == 0: the step can shrink to nothing
    assert_eq!(progress, 0);
}
