use dmemcg_booster::cgroup::{CGroup, DMemLimit, DeviceMemory};
use dmemcg_booster::policy::{FocusPolicyState, PolicyAnswer, PolicyAsk};
use std::collections::{BTreeMap, HashMap};

const DEDICATED: &str = "/sys/fs/cgroup/games";

fn limits() -> DMemLimit {
    DMemLimit { devices: vec![DeviceMemory { device: "drm/0".to_string(), bytes: 9 }] }
}

fn policy() -> FocusPolicyState {
    FocusPolicyState::new(Some(CGroup::from_path(DEDICATED)), Some(limits()), 1)
}

/// The processes that there are, with the control group of each.
#[derive(Default)]
struct World {
    places: BTreeMap<u32, String>,
    trees: HashMap<u32, Vec<u32>>,
    stuck: Vec<u32>,
    low: Option<u64>,
    moves: Vec<String>,
}

impl World {
    fn update(&mut self, policy: &mut FocusPolicyState, focused: Option<u32>) {
        policy.update_focused_pid(focused);
        for _ in 0..1000 {
            let answer = match policy.asked() {
                PolicyAsk::Finished => return,
                PolicyAsk::Exists(pid) => PolicyAnswer::Exists(self.places.contains_key(pid)),
                PolicyAsk::Restore(pid, to) => self.shift("restore", *pid, to),
                PolicyAsk::Migrate(pid, to) => self.shift("migrate", *pid, to),
                PolicyAsk::Tree(pid) => {
                    PolicyAnswer::Tree(self.trees.get(pid).cloned().unwrap_or_default())
                }
                PolicyAsk::Origin(pid) => {
                    PolicyAnswer::Origin(self.places.get(pid).map(|p| CGroup::from_path(p)))
                }
                PolicyAsk::WriteLow(g, amounts) => {
                    assert_eq!(g.path(), DEDICATED);
                    assert_eq!(amounts.devices[0].device, "drm/0");
                    self.low = Some(amounts.devices[0].bytes);
                    PolicyAnswer::Written
                }
            };
            policy.answer(answer);
        }
        panic!("the update does not end");
    }

    fn shift(&mut self, how: &str, pid: u32, to: &CGroup) -> PolicyAnswer {
        self.moves.push(format!("{how} {pid} {}", to.path()));
        if self.stuck.contains(&pid) {
            return PolicyAnswer::Moved(false);
        }
        self.places.insert(pid, to.path());
        PolicyAnswer::Moved(true)
    }
}

fn world() -> World {
    let mut w = World::default();
    for (pid, place) in [
        (10, "/sys/fs/cgroup/app"),
        (11, "/sys/fs/cgroup/app/x"),
        (12, "/sys/fs/cgroup"),
        (20, "/sys/fs/cgroup/other"),
        (1, "/sys/fs/cgroup/daemon"),
    ] {
        w.places.insert(pid, place.to_string());
    }
    w.trees.insert(10, vec![10, 11, 12]);
    w.trees.insert(20, vec![20, 1]);
    w
}

#[test]
fn a_disabled_policy_does_nothing() {
    for mut p in [
        FocusPolicyState::new(None, Some(limits()), 1),
        FocusPolicyState::new(Some(CGroup::from_path(DEDICATED)), None, 1),
        FocusPolicyState::new(None, None, 1),
    ] {
        assert!(!p.is_enabled());
        assert!(p.writes_default_limits());
        p.update_focused_pid(Some(10));
        assert!(matches!(p.asked(), PolicyAsk::Finished));
        assert_eq!(p.focused_root_pid(), None);
    }
    assert!(policy().is_enabled());
    assert!(!policy().writes_default_limits());
}

#[test]
fn the_tree_is_moved_and_protected() {
    let mut w = world();
    let mut p = policy();
    w.update(&mut p, Some(10));
    assert_eq!(
        w.moves,
        vec![
            "migrate 10 /sys/fs/cgroup/games",
            "migrate 11 /sys/fs/cgroup/games",
            "migrate 12 /sys/fs/cgroup/games",
        ]
    );
    assert_eq!(w.low, Some(9));
    assert_eq!(p.focused_root_pid(), Some(10));
    assert_eq!(p.moved_pids().len(), 3);
    assert_eq!(p.origin_of(11).unwrap().path(), "/sys/fs/cgroup/app/x");
}

#[test]
fn everyone_returns_when_the_focus_goes() {
    let mut w = world();
    let before = w.places.clone();
    let mut p = policy();
    w.update(&mut p, Some(10));
    w.moves.clear();
    w.update(&mut p, None);
    assert_eq!(w.places, before);
    assert_eq!(w.low, Some(0));
    assert_eq!(p.focused_root_pid(), None);
    assert!(p.moved_pids().is_empty());
    w.moves.sort();
    assert_eq!(
        w.moves,
        vec![
            "restore 10 /sys/fs/cgroup/app",
            "restore 11 /sys/fs/cgroup/app/x",
            "restore 12 /sys/fs/cgroup",
        ]
    );
}

#[test]
fn a_new_focus_replaces_the_one_before() {
    let mut w = world();
    let mut p = policy();
    w.update(&mut p, Some(10));
    w.update(&mut p, Some(20));
    assert_eq!(w.places[&10], "/sys/fs/cgroup/app");
    assert_eq!(w.places[&20], DEDICATED);
    assert_eq!(p.moved_pids().len(), 1);
    assert_eq!(w.low, Some(9));
}

#[test]
fn an_unchanged_focus_moves_only_newcomers() {
    let mut w = world();
    let mut p = policy();
    w.update(&mut p, Some(10));
    w.moves.clear();
    w.places.insert(13, "/sys/fs/cgroup/app".to_string());
    w.trees.insert(10, vec![10, 11, 12, 13]);
    w.update(&mut p, Some(10));
    assert_eq!(w.moves, vec!["migrate 13 /sys/fs/cgroup/games"]);
    assert_eq!(p.moved_pids().len(), 4);
}

#[test]
fn the_own_process_is_never_moved() {
    let mut w = world();
    let mut p = policy();
    w.update(&mut p, Some(20));
    assert_eq!(w.places[&1], "/sys/fs/cgroup/daemon");
    w.trees.insert(1, vec![1]);
    w.update(&mut p, Some(1));
    assert_eq!(p.focused_root_pid(), None);
    assert_eq!(w.places[&20], "/sys/fs/cgroup/other");
    assert_eq!(w.low, Some(0));
}

#[test]
fn ended_processes_are_forgotten() {
    let mut w = world();
    let mut p = policy();
    w.update(&mut p, Some(10));
    w.places.remove(&11);
    w.trees.insert(10, vec![10, 12]);
    w.update(&mut p, Some(10));
    assert!(p.origin_of(11).is_none());
    w.moves.clear();
    w.places.remove(&12);
    w.update(&mut p, None);
    assert_eq!(w.moves, vec!["restore 10 /sys/fs/cgroup/app"]);
}

#[test]
fn who_cannot_be_moved_is_not_on_record() {
    let mut w = world();
    w.stuck = vec![11];
    w.places.insert(12, DEDICATED.to_string());
    w.trees.insert(10, vec![10, 11, 12, 99]);
    let mut p = policy();
    w.update(&mut p, Some(10));
    let mut pids = p.moved_pids();
    pids.sort();
    assert_eq!(pids, vec![10]);
    assert_eq!(w.low, Some(9));
}

#[test]
fn who_came_from_outside_stays() {
    let mut w = world();
    w.places.insert(10, "/elsewhere/x".to_string());
    let mut p = policy();
    w.update(&mut p, Some(10));
    w.moves.clear();
    w.update(&mut p, None);
    assert!(!w.moves.iter().any(|m| m.starts_with("restore 10 ")));
    assert_eq!(w.places[&10], DEDICATED);
    assert!(p.moved_pids().is_empty());
}

#[test]
fn a_failed_return_is_not_repeated() {
    let mut w = world();
    let mut p = policy();
    w.update(&mut p, Some(10));
    w.stuck = vec![10];
    w.update(&mut p, None);
    assert_eq!(w.places[&10], DEDICATED);
    w.moves.clear();
    w.update(&mut p, None);
    assert!(w.moves.is_empty());
}

#[test]
fn other_answers_change_nothing() {
    let mut p = policy();
    p.update_focused_pid(Some(10));
    p.answer(PolicyAnswer::Written);
    p.answer(PolicyAnswer::Exists(true));
    p.answer(PolicyAnswer::Moved(true));
    assert!(matches!(p.asked(), PolicyAsk::Tree(10)));
    p.answer(PolicyAnswer::Tree(vec![7]));
    p.answer(PolicyAnswer::Tree(vec![8]));
    assert!(matches!(p.asked(), PolicyAsk::Origin(7)));
}

#[test]
fn the_amounts_are_those_of_the_device_memory() {
    let p = policy();
    let (g, amounts) = p.write_focused_limits().unwrap();
    assert_eq!((g.path().as_str(), amounts.devices[0].bytes), (DEDICATED, 9));
    let (g, amounts) = p.write_unfocused_limits().unwrap();
    assert_eq!((g.path().as_str(), amounts.devices[0].bytes), (DEDICATED, 0));
    let none = FocusPolicyState::new(None, Some(limits()), 1);
    assert!(none.write_focused_limits().is_none());
    assert!(none.write_unfocused_limits().is_none());
}

#[test]
fn an_update_takes_few_answers() {
    let mut w = world();
    let mut p = policy();
    w.update(&mut p, Some(10));
    p.update_focused_pid(Some(20));
    let mut answers = 0;
    while !matches!(p.asked(), PolicyAsk::Finished) {
        answers += 1;
        p.answer(match p.asked() {
            PolicyAsk::Exists(_) => PolicyAnswer::Exists(true),
            PolicyAsk::Restore(_, _) | PolicyAsk::Migrate(_, _) => PolicyAnswer::Moved(true),
            PolicyAsk::Tree(_) => PolicyAnswer::Tree(vec![20, 21]),
            PolicyAsk::Origin(_) => PolicyAnswer::Origin(Some(CGroup::root())),
            _ => PolicyAnswer::Written,
        });
    }
    assert_eq!(answers, 3 * 3 + 2 * 2 + 2);
}
