use std::collections::HashSet;
use worktree_core::checker::find_consecutive_free;

fn excluded(ports: &[u16]) -> HashSet<u16> {
    ports.iter().copied().collect()
}

#[test]
fn empty_exclusion_gives_the_range_start() {
    let r = find_consecutive_free(3, 3000, 3010, &excluded(&[]));
    assert_eq!(r, Some(vec![3000, 3001, 3002]));
}

#[test]
fn lowest_free_window_wins() {
    // 3000 is free but the window of three starting there collides at
    // 3001, and so does every window before 3004.
    let r = find_consecutive_free(3, 3000, 3010, &excluded(&[3001, 3003]));
    assert_eq!(r, Some(vec![3004, 3005, 3006]));
}

#[test]
fn single_port_window() {
    let r = find_consecutive_free(1, 3000, 3002, &excluded(&[3000, 3001]));
    assert_eq!(r, Some(vec![3002]));
}

#[test]
fn not_found_when_count_exceeds_range() {
    assert_eq!(find_consecutive_free(5, 3000, 3003, &excluded(&[])), None);
}

#[test]
fn not_found_when_every_window_collides() {
    assert_eq!(find_consecutive_free(2, 3000, 3004, &excluded(&[3001, 3003])), None);
}

#[test]
fn window_at_the_top_of_the_port_domain() {
    let r = find_consecutive_free(2, 65534, 65535, &excluded(&[]));
    assert_eq!(r, Some(vec![65534, 65535]));
}

#[test]
fn exact_fit_at_range_end() {
    let r = find_consecutive_free(3, 3000, 3004, &excluded(&[3000, 3001]));
    assert_eq!(r, Some(vec![3002, 3003, 3004]));
}
