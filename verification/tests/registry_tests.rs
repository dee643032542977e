use worktree_core::registry::{
    resolve, selection_index, sort_by_created_desc, ResolveOutcome, WorktreeRecord,
};

fn record(project: &str, name: &str, created_at: u64) -> WorktreeRecord {
    WorktreeRecord {
        project_name: project.to_string(),
        name: name.to_string(),
        branch: format!("feature/{}", name),
        original_dir: format!("/src/{}", project),
        worktree_dir: format!("/worktrees/{}/{}", project, name),
        allocation_key: format!("{}/{}", project, name),
        ports: vec![3000, 3001],
        created_at,
    }
}

#[test]
fn resolve_by_unique_name_finds_the_record() {
    let ws = vec![record("alpha", "feature", 10), record("beta", "fix", 5)];
    match resolve(ws, "fix") {
        ResolveOutcome::Found(w) => {
            assert_eq!(w.project_name, "beta");
            assert_eq!(w.name, "fix");
        }
        _ => panic!("expected a single match"),
    }
}

#[test]
fn resolve_matches_the_trailing_key_segment() {
    let mut w = record("alpha", "feature", 10);
    w.name = "renamed".to_string();
    // The allocation key still ends in /feature, so the old name resolves.
    match resolve(vec![w], "feature") {
        ResolveOutcome::Found(found) => assert_eq!(found.allocation_key, "alpha/feature"),
        _ => panic!("expected a match through the allocation key"),
    }
}

#[test]
fn resolve_unknown_name_is_not_found() {
    let ws = vec![record("alpha", "feature", 10)];
    assert!(matches!(resolve(ws, "nothing"), ResolveOutcome::NotFound));
}

#[test]
fn two_worktrees_of_one_name_are_ambiguous_most_recent_first() {
    let mut ws = vec![record("alpha", "feature", 5), record("beta", "feature", 9)];
    sort_by_created_desc(&mut ws);
    match resolve(ws, "feature") {
        ResolveOutcome::Ambiguous(candidates) => {
            assert_eq!(candidates.len(), 2);
            assert_eq!(candidates[0].project_name, "beta");
            assert_eq!(candidates[1].project_name, "alpha");
        }
        _ => panic!("expected an ambiguous outcome"),
    }
}

#[test]
fn sort_orders_most_recent_first_and_keeps_records() {
    let mut ws = vec![
        record("a", "one", 3),
        record("b", "two", 11),
        record("c", "three", 7),
    ];
    sort_by_created_desc(&mut ws);
    assert_eq!(ws.len(), 3);
    assert_eq!(ws[0].created_at, 11);
    assert_eq!(ws[1].created_at, 7);
    assert_eq!(ws[2].created_at, 3);
    assert_eq!(ws[0].name, "two");
    assert_eq!(ws[1].name, "three");
    assert_eq!(ws[2].name, "one");
}

#[test]
fn selection_index_accepts_only_the_displayed_numbers() {
    assert_eq!(selection_index(3, 0), None);
    assert_eq!(selection_index(3, 1), Some(0));
    assert_eq!(selection_index(3, 3), Some(2));
    assert_eq!(selection_index(3, 4), None);
    assert_eq!(selection_index(0, 1), None);
}
