use dmemcg_booster::cgroup::{
    parse_controllers, parse_device_memory, parse_process_cgroup, unit_cgroup, user_slice_id, CGroup,
    DMemLimit, DeviceMemory, CGROUP_ROOT,
};
use std::path::{Component, Path};

fn at(path: &str) -> CGroup {
    CGroup::from_path(path)
}

#[test]
fn paths_are_cut_into_names() {
    assert_eq!(at("/sys/fs/cgroup/a.slice/b").names, vec!["sys", "fs", "cgroup", "a.slice", "b"]);
    assert_eq!(at("//a///b/./c/").names, vec!["a", "b", "c"]);
    assert_eq!(at("/").names, Vec::<String>::new());
    assert_eq!(at("a/b").names, vec!["a", "b"]);
    assert_eq!(at("/a/../b").names, vec!["a", "..", "b"]);
}

#[test]
fn names_are_those_of_path_components() {
    for path in ["/", "/a", "//a//b/", "/./a/.", "/a/../b", "/sys/fs/cgroup"] {
        let names: Vec<String> = Path::new(path)
            .components()
            .filter(|c| !matches!(c, Component::RootDir))
            .map(|c| c.as_os_str().to_str().unwrap().to_string())
            .collect();
        assert_eq!(at(path).names, names, "{path}");
    }
}

#[test]
fn paths_lead_back() {
    for path in ["/", "/a", "/sys/fs/cgroup/user.slice/user-1000.slice"] {
        assert_eq!(at(path).path(), path);
        assert!(at(&at(path).path()).same(&at(path)));
    }
    assert_eq!(at("a//b/").path(), "/a/b");
    assert_eq!(CGroup::root().path(), CGROUP_ROOT);
}

#[test]
fn parents_end_at_the_root() {
    let g = at("/sys/fs/cgroup/a/b");
    assert_eq!(g.name(), "b");
    let p = g.parent().unwrap();
    assert_eq!(p.path(), "/sys/fs/cgroup/a");
    let r = p.parent().unwrap();
    assert!(r.same(&CGroup::root()));
    assert!(r.parent().is_none());
    assert!(at("/tmp/a/b/c/d").parent().is_none());
    assert!(at("/").parent().is_none());
    assert_eq!(at("/").name(), "");
}

#[test]
fn the_hierarchy_is_told_by_names() {
    assert!(CGroup::root().is_in_hierarchy());
    assert!(at("/sys/fs/cgroup/x").is_in_hierarchy());
    assert!(!at("/sys/fs/cgroupx").is_in_hierarchy());
    assert!(!at("/sys/fs").is_in_hierarchy());
    assert!(at("/sys/fs/cgroup/").same(&CGroup::root()));
    assert!(!at("/sys/fs/cgroup/a").same(&CGroup::root()));
    assert!(!at("/a/b").same(&at("/a/c")));
    assert!(at("/a/b").clone().same(&at("/a/b")));
}

#[test]
fn user_slices_are_found_above() {
    let base = "/sys/fs/cgroup/user.slice";
    for (path, id) in [
        ("/user-1000.slice/user@1000.service/app.slice", Some("1000")),
        ("/user-1000.slice/x", Some("1000")),
        ("/user-1000.slice", None),
        ("/user-x.slice/y", None),
        ("/user-.slice/y", None),
        ("/user-4294967296.slice/y", None),
        ("/user-+7.slice/y", Some("+7")),
        ("/user-007.slice/y", Some("007")),
        ("/user-1.slice/user-2.slice/y", Some("2")),
        ("/user-1.slice/user-x.slice/y", Some("1")),
        ("/user-1.slices/y", None),
    ] {
        assert_eq!(user_slice_id(&at(&format!("{base}{path}"))).as_deref(), id, "{path}");
    }
    assert_eq!(user_slice_id(&at("/user-1.slice/a/b")), None);
    assert_eq!(user_slice_id(&CGroup::root()), None);
}

#[test]
fn units_name_paths_in_the_hierarchy() {
    assert_eq!(unit_cgroup("/system.slice/a.service").path(), "/sys/fs/cgroup/system.slice/a.service");
    assert_eq!(unit_cgroup("/").path(), "/sys/fs/cgroup");
    assert_eq!(unit_cgroup("").path(), "/sys/fs/cgroup");
    assert_eq!(unit_cgroup("x").path(), "/sys/fs/cgroupx");
}

#[test]
fn limits_are_zeroed_device_by_device() {
    let limits = DMemLimit {
        devices: vec![
            DeviceMemory { device: "drm/0".to_string(), bytes: 8 },
            DeviceMemory { device: "drm/1".to_string(), bytes: u64::MAX },
        ],
    };
    let zeroed = limits.zeroed();
    assert_eq!(zeroed.devices.len(), 2);
    assert_eq!((zeroed.devices[0].device.as_str(), zeroed.devices[0].bytes), ("drm/0", 0));
    assert_eq!((zeroed.devices[1].device.as_str(), zeroed.devices[1].bytes), ("drm/1", 0));
    let copy = limits.clone();
    assert_eq!((copy.devices[1].device.as_str(), copy.devices[1].bytes), ("drm/1", u64::MAX));
}

#[test]
fn controllers_are_listed() {
    assert_eq!(parse_controllers("cpuset cpu  dmem\n"), vec!["cpuset", "cpu", "dmem"]);
    assert!(parse_controllers("\n").is_empty());
}

#[test]
fn device_memory_is_read_and_written() {
    let limits = parse_device_memory(
        "drm/0000:03:00.0/vram0 8514437120\nbroken\ndrm/1 x\n\ndrm/2 7 8\n drm/3\t0 \n",
    );
    let read: Vec<(&str, u64)> =
        limits.devices.iter().map(|d| (d.device.as_str(), d.bytes)).collect();
    assert_eq!(read, vec![("drm/0000:03:00.0/vram0", 8514437120), ("drm/3", 0)]);
    assert_eq!(limits.devices[0].line(), "drm/0000:03:00.0/vram0 8514437120");
    for bytes in [0, 1, 4096, u64::MAX] {
        let line = DeviceMemory { device: "drm/0".to_string(), bytes }.line();
        let back = parse_device_memory(&line);
        assert_eq!(back.devices.len(), 1);
        assert_eq!((back.devices[0].device.as_str(), back.devices[0].bytes), ("drm/0", bytes));
    }
}

#[test]
fn processes_name_their_groups() {
    let place = |s: &str| parse_process_cgroup(s).map(|g| g.path());
    assert_eq!(place("0::/user.slice/x\n").as_deref(), Some("/sys/fs/cgroup/user.slice/x"));
    assert_eq!(place("1:cpu:/a\n0::/\n").as_deref(), Some("/sys/fs/cgroup"));
    assert_eq!(place("1:cpu:/a\n"), None);
    assert_eq!(place(""), None);
}

#[test]
fn the_last_line_of_a_device_holds() {
    let limits = parse_device_memory("drm/0 1\ndrm/1 2\ndrm/0 3\ndrm/0 x\ndrm/2 4\n");
    let read: Vec<(&str, u64)> =
        limits.devices.iter().map(|d| (d.device.as_str(), d.bytes)).collect();
    assert_eq!(read, vec![("drm/0", 3), ("drm/1", 2), ("drm/2", 4)]);
    let zeroed: Vec<u64> = limits.zeroed().devices.iter().map(|d| d.bytes).collect();
    assert_eq!(zeroed, vec![0, 0, 0]);
}
