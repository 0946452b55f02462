use dmemcg_booster::process::{
    collect_process_tree, parse_pid, parse_ppid_from_stat, parse_uid_from_status, ProcEntry,
};

fn entry(pid: u32, parent: u32) -> ProcEntry {
    ProcEntry { pid, stat: format!("{pid} (name) S {parent} 1 1") }
}

#[test]
fn process_numbers_are_read() {
    assert_eq!(parse_pid("1"), Some(1));
    assert_eq!(parse_pid("self"), None);
    assert_eq!(parse_pid(""), None);
}

#[test]
fn parents_are_read() {
    assert_eq!(parse_ppid_from_stat("5 (bash) S 4 5 5"), Some(4));
    assert_eq!(parse_ppid_from_stat("5 (a) b) c) R 12"), Some(12));
    assert_eq!(parse_ppid_from_stat("5 (a) R"), None);
    assert_eq!(parse_ppid_from_stat("5 (a) R x"), None);
    assert_eq!(parse_ppid_from_stat("5 a R 4"), None);
    assert_eq!(parse_ppid_from_stat("5 (a)S 4"), None);
    assert_eq!(parse_ppid_from_stat(""), None);
}

#[test]
fn owners_are_read() {
    assert_eq!(parse_uid_from_status("Name:\tx\nUid:\t1000\t1001\t0\t0\nGid:\t5"), Some(1000));
    assert_eq!(parse_uid_from_status("Name:\tx\n"), None);
    assert_eq!(parse_uid_from_status("Uid:\n"), None);
    assert_eq!(parse_uid_from_status("Uid:\tx\nUid:\t7"), None);
    assert_eq!(parse_uid_from_status(" Uid:\t7"), None);
    assert_eq!(parse_uid_from_status("Uid:5 6"), Some(6));
}

#[test]
fn a_tree_goes_level_by_level() {
    let table = vec![
        entry(1, 0),
        entry(10, 1),
        entry(13, 11),
        entry(11, 10),
        entry(12, 10),
        entry(14, 12),
        entry(20, 1),
        ProcEntry { pid: 15, stat: "broken".to_string() },
    ];
    assert_eq!(collect_process_tree(10, true, Some(&table)), vec![10, 11, 12, 13, 14]);
    assert_eq!(collect_process_tree(14, true, Some(&table)), vec![14]);
    assert_eq!(collect_process_tree(99, true, Some(&table)), vec![99]);
}

#[test]
fn a_tree_holds_each_process_once() {
    let table = vec![entry(1, 2), entry(2, 1), entry(3, 2), entry(3, 1), entry(2, 2)];
    assert_eq!(collect_process_tree(1, true, Some(&table)), vec![1, 2, 3]);
}

#[test]
fn a_tree_needs_a_root_and_a_table() {
    let table = vec![entry(11, 10)];
    assert_eq!(collect_process_tree(10, false, Some(&table)), Vec::<u32>::new());
    assert_eq!(collect_process_tree(10, true, None), vec![10]);
    assert_eq!(collect_process_tree(10, false, None), Vec::<u32>::new());
}

#[test]
fn parents_stand_before_their_children() {
    let table = vec![entry(5, 4), entry(4, 3), entry(6, 2), entry(3, 1), entry(2, 1), entry(7, 3)];
    let tree = collect_process_tree(1, true, Some(&table));
    assert_eq!(tree, vec![1, 3, 2, 4, 7, 6, 5]);
    let place = |pid: u32| tree.iter().position(|p| *p == pid).unwrap();
    for (child, parent) in [(5, 4), (4, 3), (6, 2), (3, 1), (2, 1), (7, 3)] {
        assert!(place(parent) < place(child));
    }
}
