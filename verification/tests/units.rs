use dmemcg_booster::units::{handle_new_unit, unit_interface, UnitQueue, UnitStep, UNIT_KINDS};

#[test]
fn units_are_queued_once() {
    let mut q = UnitQueue::new();
    q.unit_new("/a".to_string());
    q.unit_new("/b".to_string());
    q.unit_new("/a".to_string());
    assert_eq!(*q.units(), vec!["/a", "/b"]);
    q.unit_removed("/a");
    q.unit_removed("/c");
    assert_eq!(*q.units(), vec!["/b"]);
    q.unit_new("/a".to_string());
    assert_eq!(q.take_all(), vec!["/b", "/a"]);
    assert!(q.units().is_empty());
    assert!(q.take_all().is_empty());
}

#[test]
fn interfaces_are_tried_in_order() {
    let names: Vec<&str> = (0..UNIT_KINDS).map(|k| unit_interface(k).unwrap()).collect();
    assert_eq!(
        names,
        vec![
            "org.freedesktop.systemd1.Service",
            "org.freedesktop.systemd1.Scope",
            "org.freedesktop.systemd1.Slice",
            "org.freedesktop.systemd1.Socket",
        ]
    );
    assert!(unit_interface(UNIT_KINDS).is_none());
    for kind in 0..3 {
        assert!(matches!(handle_new_unit(kind, None), UnitStep::Ask(k) if k == kind + 1));
    }
    assert!(matches!(handle_new_unit(3, None), UnitStep::Unknown));
    assert!(matches!(handle_new_unit(usize::MAX, None), UnitStep::Unknown));
}

#[test]
fn the_first_answer_counts() {
    for kind in 0..4 {
        match handle_new_unit(kind, Some("/system.slice/x.service")) {
            UnitStep::Found(g) => assert_eq!(g.path(), "/sys/fs/cgroup/system.slice/x.service"),
            other => panic!("{other:?}"),
        }
    }
}
