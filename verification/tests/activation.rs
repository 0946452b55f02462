use dmemcg_booster::activation::{
    activate_dmem_in_descendants, is_limit_due, propagate_dmem_activation,
    try_activate_dmem_controller, Activation, AddOutcome, Answer, Ask, TryEvent, TryMove,
};
use dmemcg_booster::cgroup::{CGroup, DMemLimit, DeviceMemory};
use std::collections::{HashMap, HashSet};

const ROOT: &str = "/sys/fs/cgroup";

fn at(path: &str) -> CGroup {
    CGroup::from_path(&format!("{ROOT}{path}"))
}

fn limits() -> DMemLimit {
    DMemLimit { devices: vec![DeviceMemory { device: "drm/0".to_string(), bytes: 5 }] }
}

/// A hierarchy to run on: the children of each control group, those for whose
/// children `dmem` is active, and those that are missing.
#[derive(Default)]
struct Hierarchy {
    children: HashMap<String, Vec<String>>,
    active: HashSet<String>,
    missing: HashSet<String>,
    refusals: HashMap<String, Vec<AddOutcome>>,
    capacity: bool,
}

impl Hierarchy {
    fn of(paths: &[&str]) -> Hierarchy {
        let mut h = Hierarchy { capacity: true, ..Hierarchy::default() };
        for path in paths {
            let (parent, _) = path.rsplit_once('/').unwrap();
            h.children.entry(parent.to_string()).or_default().push(path.to_string());
        }
        h
    }

    fn key(g: &CGroup) -> String {
        g.path().strip_prefix(ROOT).unwrap().to_string()
    }

    fn descendants(&self, g: &CGroup) -> Vec<CGroup> {
        let below = self.children.get(&Self::key(g)).cloned().unwrap_or_default();
        below.iter().map(|p| at(p)).collect()
    }

    fn run(&mut self, mut run: Activation) -> Vec<String> {
        let mut log = Vec::new();
        for _ in 0..10_000 {
            let answer = match run.asked() {
                Ask::Finished => return log,
                Ask::Controllers(g) => {
                    let key = Self::key(g);
                    log.push(format!("controllers {key}"));
                    if self.missing.contains(&key) {
                        Answer::Controllers(None)
                    } else if self.active.contains(&key) {
                        Answer::Controllers(Some(vec!["cpu".to_string(), "dmem".to_string()]))
                    } else {
                        Answer::Controllers(Some(Vec::new()))
                    }
                }
                Ask::Descendants(g) => {
                    log.push(format!("descendants {}", Self::key(g)));
                    Answer::Descendants(self.descendants(g))
                }
                Ask::AddDmem(g) => {
                    let key = Self::key(g);
                    log.push(format!("add {key}"));
                    let outcome = match self.refusals.get_mut(&key) {
                        Some(list) if !list.is_empty() => list.remove(0),
                        _ => AddOutcome::Added,
                    };
                    if outcome == AddOutcome::Added {
                        self.active.insert(key);
                    }
                    Answer::Added(outcome)
                }
                Ask::Capacity => {
                    log.push("capacity".to_string());
                    Answer::Capacity(if self.capacity { Some(limits()) } else { None })
                }
                Ask::WriteLow(g, amounts) => {
                    assert_eq!(amounts.devices[0].bytes, 5);
                    log.push(format!("write {}", Self::key(g)));
                    Answer::Written
                }
            };
            run.answer(answer);
        }
        panic!("the run does not end");
    }
}

#[test]
fn the_way_leads_down_from_the_root() {
    let mut h = Hierarchy::of(&["/a", "/a/b", "/a/b/c"]);
    let log = h.run(propagate_dmem_activation(at("/a/b"), true, false));
    assert_eq!(
        log,
        vec![
            "controllers /a/b",
            "controllers /a",
            "controllers ",
            "descendants ",
            "add ",
            "descendants /a",
            "add /a",
            "descendants /a/b",
            "add /a/b",
        ]
    );
    let log = h.run(propagate_dmem_activation(at("/a/b"), true, false));
    assert_eq!(log, vec!["controllers /a/b"]);
}

#[test]
fn limits_are_written_where_they_are_due() {
    let mut h = Hierarchy::of(&["/a", "/a/b"]);
    h.active.insert(String::new());
    let log = h.run(propagate_dmem_activation(at("/a"), true, true));
    assert_eq!(
        log,
        vec![
            "controllers /a",
            "controllers ",
            "capacity",
            "write ",
            "descendants /a",
            "add /a",
            "capacity",
            "write /a",
        ]
    );
    h.capacity = false;
    let log = h.run(propagate_dmem_activation(at("/a"), true, true));
    assert_eq!(log, vec!["controllers /a", "capacity"]);
}

#[test]
fn a_group_without_children_or_controllers_is_left_alone() {
    let mut h = Hierarchy::of(&["/a"]);
    h.active.insert(String::new());
    let log = h.run(propagate_dmem_activation(at("/a"), true, false));
    assert_eq!(log, vec!["controllers /a", "controllers ", "descendants /a", "controllers /a"]);
}

#[test]
fn unreadable_groups_end_the_run() {
    let mut h = Hierarchy::of(&["/a"]);
    h.missing.insert("/a".to_string());
    assert_eq!(h.run(propagate_dmem_activation(at("/a"), true, true)), vec!["controllers /a"]);
}

#[test]
fn a_missing_controller_is_tried_once_more() {
    let mut h = Hierarchy::of(&["/a", "/a/b"]);
    h.active.insert(String::new());
    h.refusals.insert("/a".to_string(), vec![AddOutcome::NotFound]);
    let log = h.run(propagate_dmem_activation(at("/a"), true, false));
    assert_eq!(
        log,
        vec!["controllers /a", "controllers ", "descendants /a", "add /a", "controllers ", "add /a"]
    );
    h.active.remove("/a");
    h.refusals.insert("/a".to_string(), vec![AddOutcome::NotFound, AddOutcome::NotFound]);
    let log = h.run(propagate_dmem_activation(at("/a"), true, true));
    assert_eq!(log.iter().filter(|l| *l == "add /a").count(), 2);
    assert!(!log.contains(&"write /a".to_string()));
}

#[test]
fn a_failed_attempt_writes_nothing() {
    let mut h = Hierarchy::of(&["/a", "/a/b"]);
    h.active.insert(String::new());
    h.refusals.insert("/a".to_string(), vec![AddOutcome::Failed]);
    let log = h.run(propagate_dmem_activation(at("/a"), true, true));
    assert_eq!(log.last().unwrap(), "add /a");
    let mut h = Hierarchy::of(&["/a"]);
    h.refusals.insert(String::new(), vec![AddOutcome::NotFound]);
    let log = h.run(propagate_dmem_activation(CGroup::root(), true, true));
    assert_eq!(log, vec!["controllers ", "descendants ", "add "]);
}

#[test]
fn the_system_leaves_user_slices_alone() {
    let user = "/user.slice/user-1000.slice";
    let inner = "/user.slice/user-1000.slice/user@1000.service";
    let app = "/user.slice/user-1000.slice/user@1000.service/app.slice";
    let leaf = "/user.slice/user-1000.slice/user@1000.service/app.slice/x";
    let paths = ["/user.slice", user, inner, app, leaf];
    let mut h = Hierarchy::of(&paths);
    let log = h.run(propagate_dmem_activation(at(app), true, true));
    assert!(log.contains(&format!("add {user}")));
    assert!(!log.contains(&format!("add {inner}")));
    assert!(!log.contains(&format!("write {app}")));
    assert!(log.contains(&format!("write {user}")));
    let mut h = Hierarchy::of(&paths);
    let log = h.run(propagate_dmem_activation(at(leaf), false, true));
    assert!(log.contains(&format!("add {inner}")));
    assert!(log.contains(&format!("write {app}")));
    assert!(!log.contains(&format!("write {leaf}")));
}

#[test]
fn limits_are_due_on_the_way_to_applications() {
    let base = "/user.slice/user-1000.slice";
    for (path, system, user) in [
        ("".to_string(), true, true),
        ("/system.slice".to_string(), true, true),
        (base.to_string(), true, true),
        (format!("{base}/user@1000.service"), true, true),
        (format!("{base}/session-1.scope"), true, true),
        (format!("{base}/user@1000.service/app.slice"), false, true),
        (format!("{base}/user@1000.service/session.slice"), false, false),
        (format!("{base}/x/user@1000.service"), false, true),
        (format!("{base}/x/user@1.service"), false, false),
    ] {
        assert_eq!(is_limit_due(&at(&path), true), system, "{path}");
        assert_eq!(is_limit_due(&at(&path), false), user, "{path}");
    }
}

#[test]
fn descents_reach_the_ends_in_order() {
    let mut h = Hierarchy::of(&["/a", "/b", "/a/c", "/a/d"]);
    for key in ["", "/a", "/b", "/a/c", "/a/d"] {
        h.active.insert(key.to_string());
    }
    let log = h.run(activate_dmem_in_descendants(CGroup::root(), true, false));
    assert_eq!(
        log,
        vec![
            "descendants ",
            "descendants /a",
            "descendants /a/c",
            "controllers /a/c",
            "descendants /a/d",
            "controllers /a/d",
            "descendants /b",
            "controllers /b",
        ]
    );
}

#[test]
fn runs_ask_only_about_the_way_up_and_end() {
    let mut h = Hierarchy::of(&["/a", "/a/b", "/a/b/c"]);
    for key in ["", "/a", "/a/b", "/a/b/c"] {
        h.refusals.insert(key.to_string(), vec![AddOutcome::NotFound; 1000]);
    }
    let log = h.run(propagate_dmem_activation(at("/a/b/c"), false, true));
    assert!(log.len() <= 6 * 8 + 7 * 7);
    for line in &log {
        let path = line.split(' ').nth(1).unwrap_or("");
        assert!("/a/b/c".starts_with(path), "{line}");
    }
}

#[test]
fn answers_beside_the_question_change_nothing() {
    let mut run = propagate_dmem_activation(at("/a"), true, true);
    run.answer(Answer::Written);
    run.answer(Answer::Capacity(Some(limits())));
    run.answer(Answer::Added(AddOutcome::Added));
    run.answer(Answer::Descendants(Vec::new()));
    assert!(matches!(run.asked(), Ask::Controllers(g) if g.same(&at("/a"))));
    let mut run = activate_dmem_in_descendants(at("/a"), true, true);
    run.answer(Answer::Controllers(None));
    assert!(matches!(run.asked(), Ask::Descendants(g) if g.same(&at("/a"))));
    run.answer(Answer::Descendants(Vec::new()));
    run.answer(Answer::Controllers(None));
    assert!(matches!(run.asked(), Ask::Finished));
    run.answer(Answer::Controllers(None));
    assert!(matches!(run.asked(), Ask::Finished));
}

#[test]
fn attempts_go_step_by_step() {
    let g = at("/a");
    let root = CGroup::root();
    let user = at("/user-1.slice/x");
    let next = try_activate_dmem_controller;
    assert_eq!(next(&g, true, TryEvent::Start), TryMove::Parent);
    assert_eq!(next(&root, true, TryEvent::Start), TryMove::Descendants);
    assert_eq!(next(&g, true, TryEvent::ParentDone), TryMove::Descendants);
    assert_eq!(next(&user, true, TryEvent::ParentDone), TryMove::Done(true));
    assert_eq!(next(&user, false, TryEvent::ParentDone), TryMove::Descendants);
    assert_eq!(next(&g, true, TryEvent::Descendants(true)), TryMove::Add);
    assert_eq!(next(&g, true, TryEvent::Descendants(false)), TryMove::Controllers);
    assert_eq!(next(&g, true, TryEvent::Controllers(true)), TryMove::Add);
    assert_eq!(next(&g, true, TryEvent::Controllers(false)), TryMove::Done(true));
    assert_eq!(next(&g, true, TryEvent::Added(AddOutcome::Added, false)), TryMove::Done(true));
    assert_eq!(next(&g, true, TryEvent::Added(AddOutcome::NotFound, false)), TryMove::ParentAgain);
    assert_eq!(next(&g, true, TryEvent::Added(AddOutcome::NotFound, true)), TryMove::Done(false));
    assert_eq!(next(&root, true, TryEvent::Added(AddOutcome::NotFound, false)), TryMove::Done(false));
    assert_eq!(next(&g, true, TryEvent::Added(AddOutcome::Failed, false)), TryMove::Done(false));
    assert_eq!(next(&g, true, TryEvent::ParentDoneAgain), TryMove::AddAgain);
}

#[test]
fn the_one_above_is_finished_first() {
    let mut h = Hierarchy::of(&["/a", "/a/b", "/a/b/c"]);
    let log = h.run(propagate_dmem_activation(at("/a/b"), true, true));
    let place = |line: &str| log.iter().position(|l| l == line).unwrap();
    assert!(place("write ") < place("add /a"));
    assert!(place("write /a") < place("add /a/b"));
}

#[test]
fn going_through_a_tree_takes_few_answers() {
    let mut h = Hierarchy::of(&["/a", "/b", "/a/c", "/a/d"]);
    let log = h.run(activate_dmem_in_descendants(CGroup::root(), true, true));
    let depth_one = 7 + 2 * 6;
    let depth_two = 7 + 2 * depth_one;
    assert!(log.len() <= 5 + depth_one + 2 * depth_two);
    assert_eq!(log[..3], ["descendants ", "descendants /a", "descendants /a/c"]);
    assert_eq!(log[3], "controllers /a/c");
}
