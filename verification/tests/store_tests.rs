use worktree_core::allocator::{AllocationEntry, AllocationError, PortAllocations};

#[test]
fn load_missing_file_is_the_empty_table() {
    let t = PortAllocations::load(None).unwrap();
    assert!(t.allocations.is_empty());
}

#[test]
fn load_empty_object_is_the_empty_table() {
    let t = PortAllocations::load(Some("{}")).unwrap();
    assert!(t.allocations.is_empty());
}

#[test]
fn load_reads_compact_and_spaced_forms() {
    let t = PortAllocations::load(Some("{\"proj/a\":[3000,3001]}")).unwrap();
    assert_eq!(t.get_ports("proj/a"), Some(&vec![3000, 3001]));

    let spaced = "{\n  \"proj/a\": [3000, 3001]\n}";
    let t2 = PortAllocations::load(Some(spaced)).unwrap();
    assert_eq!(t2.get_ports("proj/a"), Some(&vec![3000, 3001]));
}

#[test]
fn load_rejects_unparsable_text_as_corrupt() {
    let r = PortAllocations::load(Some("not json at all"));
    assert_eq!(r.unwrap_err(), AllocationError::CorruptState);
    let r2 = PortAllocations::load(Some("{\"proj/a\": \"3000\"}"));
    assert_eq!(r2.unwrap_err(), AllocationError::CorruptState);
}

#[test]
fn load_rejects_empty_port_list_as_corrupt() {
    let r = PortAllocations::load(Some("{\"proj/a\": []}"));
    assert_eq!(r.unwrap_err(), AllocationError::CorruptState);
}

#[test]
fn load_rejects_non_contiguous_port_list_as_corrupt() {
    let r = PortAllocations::load(Some("{\"proj/a\": [3000, 3002]}"));
    assert_eq!(r.unwrap_err(), AllocationError::CorruptState);
}

#[test]
fn table_round_trips_through_its_text() {
    let table = PortAllocations {
        allocations: vec![
            AllocationEntry { key: "proj/a".to_string(), ports: vec![3000, 3001, 3002] },
            AllocationEntry { key: "other/b".to_string(), ports: vec![4000] },
        ],
    };
    let text = table.to_json();
    assert!(text.contains("\"proj/a\""));
    assert!(text.contains('\n'), "the persisted form is pretty-printed");

    let back = PortAllocations::load(Some(&text)).unwrap();
    assert_eq!(back.get_ports("proj/a"), Some(&vec![3000, 3001, 3002]));
    assert_eq!(back.get_ports("other/b"), Some(&vec![4000]));
    assert_eq!(back.allocations.len(), 2);
}

#[test]
fn get_ports_distinguishes_keys() {
    let table = PortAllocations {
        allocations: vec![AllocationEntry { key: "proj/a".to_string(), ports: vec![3000] }],
    };
    assert_eq!(table.get_ports("proj/a"), Some(&vec![3000]));
    assert!(table.get_ports("proj/b").is_none());
    assert!(table.get_ports("a").is_none());
}

#[test]
fn remove_key_returns_the_freed_ports() {
    let mut table = PortAllocations {
        allocations: vec![
            AllocationEntry { key: "proj/a".to_string(), ports: vec![3000] },
            AllocationEntry { key: "proj/b".to_string(), ports: vec![3001] },
        ],
    };
    assert_eq!(table.remove_key("proj/a"), Some(vec![3000]));
    assert_eq!(table.allocations.len(), 1);
    assert_eq!(table.remove_key("proj/a"), None);
}
