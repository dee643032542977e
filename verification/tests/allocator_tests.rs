use worktree_core::allocator::{allocate, deallocate, AllocationEntry, AllocationError, PortAllocations};

fn live(keys: &[&str]) -> Vec<String> {
    keys.iter().map(|k| k.to_string()).collect()
}

fn entry(key: &str, ports: &[u16]) -> AllocationEntry {
    AllocationEntry { key: key.to_string(), ports: ports.to_vec() }
}

#[test]
fn allocate_on_empty_table_takes_lowest_window() {
    let mut table = PortAllocations::new();
    let r = allocate(3, "proj/a", 3000, 3010, &mut table, &live(&[])).unwrap();
    assert_eq!(r.ports, vec![3000, 3001, 3002]);
    assert!(!r.existing);
}

#[test]
fn example_scenario_reuses_freed_lowest_window() {
    let mut table = PortAllocations::new();
    let a = allocate(3, "proj/a", 3000, 3010, &mut table, &live(&["proj/a"])).unwrap();
    assert_eq!(a.ports, vec![3000, 3001, 3002]);
    assert!(!a.existing);

    let b = allocate(3, "proj/b", 3000, 3010, &mut table, &live(&["proj/a", "proj/b"])).unwrap();
    assert_eq!(b.ports, vec![3003, 3004, 3005]);
    assert!(!b.existing);

    let freed = deallocate("proj/a", &mut table);
    assert_eq!(freed, Some(vec![3000, 3001, 3002]));

    let c = allocate(3, "proj/c", 3000, 3010, &mut table, &live(&["proj/b", "proj/c"])).unwrap();
    assert_eq!(c.ports, vec![3000, 3001, 3002]);
    assert!(!c.existing);
}

#[test]
fn allocate_twice_is_idempotent_and_leaves_table_alone() {
    let mut table = PortAllocations::new();
    let keys = live(&["proj/a"]);
    let first = allocate(4, "proj/a", 4000, 4100, &mut table, &keys).unwrap();
    assert!(!first.existing);
    let before = table.to_json();

    let second = allocate(4, "proj/a", 4000, 4100, &mut table, &keys).unwrap();
    assert!(second.existing);
    assert_eq!(second.ports, first.ports);
    assert_eq!(table.to_json(), before);
}

#[test]
fn range_too_small_is_exhausted() {
    let mut table = PortAllocations::new();
    let r = allocate(5, "proj/a", 3000, 3003, &mut table, &live(&[]));
    assert_eq!(r.unwrap_err(), AllocationError::RangeExhausted);
}

#[test]
fn full_range_is_exhausted() {
    let mut table = PortAllocations { allocations: vec![entry("proj/a", &[3000, 3001, 3002, 3003])] };
    let r = allocate(2, "proj/b", 3000, 3003, &mut table, &live(&["proj/a"]));
    assert_eq!(r.unwrap_err(), AllocationError::RangeExhausted);
}

#[test]
fn allocate_skips_over_taken_ports() {
    let mut table = PortAllocations { allocations: vec![entry("proj/a", &[3001, 3002])] };
    let r = allocate(2, "proj/b", 3000, 3010, &mut table, &live(&["proj/a"])).unwrap();
    assert_eq!(r.ports, vec![3003, 3004]);
}

#[test]
fn deallocate_absent_key_is_none_and_rewrites_nothing() {
    let mut table = PortAllocations { allocations: vec![entry("proj/a", &[3000, 3001])] };
    let before = table.to_json();
    let r = deallocate("proj/missing", &mut table);
    assert_eq!(r, None);
    assert_eq!(table.to_json(), before);
    assert_eq!(table.allocations.len(), 1);
}

#[test]
fn stale_entry_is_pruned_and_its_ports_reused() {
    let mut table = PortAllocations {
        allocations: vec![entry("proj/gone", &[3000, 3001, 3002]), entry("proj/b", &[3003, 3004, 3005])],
    };
    // proj/gone has no worktree marker any more: the next allocate call,
    // whatever its key, drops the entry and may hand its ports out again.
    let r = allocate(3, "proj/c", 3000, 3010, &mut table, &live(&["proj/b", "proj/c"])).unwrap();
    assert_eq!(r.ports, vec![3000, 3001, 3002]);
    assert!(table.get_ports("proj/gone").is_none());
    assert_eq!(table.get_ports("proj/b"), Some(&vec![3003, 3004, 3005]));
}

#[test]
fn cleanup_stale_reports_dropped_keys() {
    let mut table = PortAllocations {
        allocations: vec![entry("proj/a", &[1000]), entry("proj/b", &[1001]), entry("c", &[1002])],
    };
    let stale = table.cleanup_stale(&live(&["proj/b"]));
    assert_eq!(stale, vec!["proj/a".to_string(), "c".to_string()]);
    assert_eq!(table.allocations.len(), 1);
    assert_eq!(table.get_ports("proj/b"), Some(&vec![1001]));
}

#[test]
fn all_allocated_ports_unions_every_claim() {
    let table = PortAllocations {
        allocations: vec![entry("proj/a", &[3000, 3001]), entry("proj/b", &[4000])],
    };
    let ports = table.all_allocated_ports();
    assert_eq!(ports.len(), 3);
    assert!(ports.contains(&3000));
    assert!(ports.contains(&3001));
    assert!(ports.contains(&4000));
    assert!(!ports.contains(&3002));
}

#[test]
fn no_two_keys_share_a_port_after_many_operations() {
    let mut table = PortAllocations::new();
    let keys = live(&["proj/a", "proj/b", "proj/c", "proj/d"]);
    allocate(3, "proj/a", 3000, 3020, &mut table, &keys).unwrap();
    allocate(3, "proj/b", 3000, 3020, &mut table, &keys).unwrap();
    deallocate("proj/a", &mut table);
    allocate(2, "proj/c", 3000, 3020, &mut table, &keys).unwrap();
    allocate(4, "proj/d", 3000, 3020, &mut table, &keys).unwrap();

    let mut seen = std::collections::HashSet::new();
    for e in &table.allocations {
        for p in &e.ports {
            assert!(seen.insert(*p), "port {} held by two keys", p);
        }
    }
}
