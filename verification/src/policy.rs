//! Which processes are held in the dedicated control group, and how much
//! device memory is protected there.
//!
//! The policy never touches a process or a control group itself. After
//! [`FocusPolicyState::update_focused_pid`] it says in
//! [`FocusPolicyState::asked`] what it wants to know or to have done, and goes
//! on when [`FocusPolicyState::answer`] tells it what came of that.

use crate::cgroup;
use crate::cgroup::{CGroup, DMemLimit};
use std::collections::HashMap;
use vstd::prelude::*;

verus! {

broadcast use vstd::std_specs::hash::group_hash_axioms;

// ---------------------------------------------------------------------------
// Questions and answers
// ---------------------------------------------------------------------------

/// What the policy asks for.
#[derive(Debug)]
pub enum PolicyAsk {
    /// Whether the process exists.
    Exists(u32),
    /// That the process be moved back to where it came from.
    Restore(u32, CGroup),
    /// The process and those that descend from it.
    Tree(u32),
    /// The control group that the process is in.
    Origin(u32),
    /// That the process be moved into the dedicated control group.
    Migrate(u32, CGroup),
    /// That the amounts be protected in the control group.
    WriteLow(CGroup, DMemLimit),
    /// Nothing more.
    Finished,
}

/// What the caller answers.
#[derive(Debug)]
pub enum PolicyAnswer {
    Exists(bool),
    /// Whether the process could be moved.
    Moved(bool),
    Tree(Vec<u32>),
    Origin(Option<CGroup>),
    Written,
}

#[verifier::ext_equal]
pub enum PolicyAskView {
    Exists(u32),
    Restore(u32, Seq<Seq<char>>),
    Tree(u32),
    Origin(u32),
    Migrate(u32, Seq<Seq<char>>),
    WriteLow(Seq<Seq<char>>, Seq<(Seq<char>, u64)>),
    Finished,
}

#[verifier::ext_equal]
pub enum PolicyAnswerView {
    Exists(bool),
    Moved(bool),
    Tree(Seq<u32>),
    Origin(Option<Seq<Seq<char>>>),
    Written,
}

impl View for PolicyAsk {
    type V = PolicyAskView;

    open spec fn view(&self) -> PolicyAskView {
        match *self {
            PolicyAsk::Exists(pid) => PolicyAskView::Exists(pid),
            PolicyAsk::Restore(pid, to) => PolicyAskView::Restore(pid, to@),
            PolicyAsk::Tree(pid) => PolicyAskView::Tree(pid),
            PolicyAsk::Origin(pid) => PolicyAskView::Origin(pid),
            PolicyAsk::Migrate(pid, to) => PolicyAskView::Migrate(pid, to@),
            PolicyAsk::WriteLow(g, limits) => PolicyAskView::WriteLow(g@, limits@),
            PolicyAsk::Finished => PolicyAskView::Finished,
        }
    }
}

impl View for PolicyAnswer {
    type V = PolicyAnswerView;

    open spec fn view(&self) -> PolicyAnswerView {
        match *self {
            PolicyAnswer::Exists(yes) => PolicyAnswerView::Exists(yes),
            PolicyAnswer::Moved(ok) => PolicyAnswerView::Moved(ok),
            PolicyAnswer::Tree(pids) => PolicyAnswerView::Tree(pids@),
            PolicyAnswer::Origin(Some(g)) => PolicyAnswerView::Origin(Some(g@)),
            PolicyAnswer::Origin(None) => PolicyAnswerView::Origin(None),
            PolicyAnswer::Written => PolicyAnswerView::Written,
        }
    }
}

// ---------------------------------------------------------------------------
// State
// ---------------------------------------------------------------------------

/// How far an update of the focus has come.
#[derive(Debug)]
pub enum Progress {
    Idle,
    /// Processes that have ended are being forgotten. The first that is
    /// unchecked has been asked for.
    Pruning { wanted: Option<u32>, unchecked: Vec<u32>, alive: Vec<u32> },
    /// The processes are being moved back. The first has been asked for.
    Checking { wanted: Option<u32>, pids: Vec<u32> },
    /// One is being moved back; the others are still to be.
    Restoring { wanted: Option<u32>, pids: Vec<u32> },
    /// The processes of the focused window have been asked for.
    Listing,
    /// They are being moved. The control group of the first has been asked
    /// for.
    Locating { pids: Vec<u32> },
    /// The first is being moved out of `origin`.
    Migrating { pids: Vec<u32>, origin: CGroup },
    /// The amounts are being written.
    Writing,
}

#[verifier::ext_equal]
pub enum ProgressView {
    Idle,
    Pruning { wanted: Option<u32>, unchecked: Seq<u32>, alive: Seq<u32> },
    Checking { wanted: Option<u32>, pids: Seq<u32> },
    Restoring { wanted: Option<u32>, pids: Seq<u32> },
    Listing,
    Locating { pids: Seq<u32> },
    Migrating { pids: Seq<u32>, origin: Seq<Seq<char>> },
    Writing,
}

impl View for Progress {
    type V = ProgressView;

    open spec fn view(&self) -> ProgressView {
        match *self {
            Progress::Idle => ProgressView::Idle,
            Progress::Pruning { wanted, unchecked, alive } => ProgressView::Pruning {
                wanted,
                unchecked: unchecked@,
                alive: alive@,
            },
            Progress::Checking { wanted, pids } => ProgressView::Checking { wanted, pids: pids@ },
            Progress::Restoring { wanted, pids } => ProgressView::Restoring { wanted, pids: pids@ },
            Progress::Listing => ProgressView::Listing,
            Progress::Locating { pids } => ProgressView::Locating { pids: pids@ },
            Progress::Migrating { pids, origin } => ProgressView::Migrating {
                pids: pids@,
                origin: origin@,
            },
            Progress::Writing => ProgressView::Writing,
        }
    }
}

/// The policy for the focused window.
#[derive(Debug)]
pub struct FocusPolicyState {
    /// Where the processes of the focused window are held.
    dedicated_cgroup: Option<CGroup>,
    /// What is protected while a window is focused.
    focused_limits: Option<DMemLimit>,
    /// What is protected while none is.
    unfocused_limits: Option<DMemLimit>,
    /// The process of the focused window.
    focused_root_pid: Option<u32>,
    /// The processes that were moved, with where each came from.
    moved_pids_original: HashMap<u32, CGroup>,
    /// The process that runs the policy, which is never moved.
    self_pid: u32,
    progress: Progress,
    /// What the policy asks for.
    asked: PolicyAsk,
}

#[verifier::ext_equal]
pub struct PolicyView {
    pub dedicated: Option<Seq<Seq<char>>>,
    pub focused_limits: Option<Seq<(Seq<char>, u64)>>,
    pub unfocused_limits: Option<Seq<(Seq<char>, u64)>>,
    pub focused: Option<u32>,
    pub moved: Map<u32, Seq<Seq<char>>>,
    pub self_pid: u32,
    pub progress: ProgressView,
    pub asked: PolicyAskView,
}

pub open spec fn limit_view(limits: Option<DMemLimit>) -> Option<Seq<(Seq<char>, u64)>> {
    match limits {
        Some(limits) => Some(limits@),
        None => None,
    }
}

pub open spec fn place_view(place: Option<CGroup>) -> Option<Seq<Seq<char>>> {
    match place {
        Some(g) => Some(g@),
        None => None,
    }
}

pub open spec fn moved_view(moved: Map<u32, CGroup>) -> Map<u32, Seq<Seq<char>>> {
    moved.map_values(|g: CGroup| g@)
}

impl View for FocusPolicyState {
    type V = PolicyView;

    closed spec fn view(&self) -> PolicyView {
        PolicyView {
            dedicated: place_view(self.dedicated_cgroup),
            focused_limits: limit_view(self.focused_limits),
            unfocused_limits: limit_view(self.unfocused_limits),
            focused: self.focused_root_pid,
            moved: moved_view(self.moved_pids_original@),
            self_pid: self.self_pid,
            progress: self.progress@,
            asked: self.asked@,
        }
    }
}

/// The policy has a place for processes and knows what to protect.
pub open spec fn enabled(state: PolicyView) -> bool {
    state.dedicated is Some && state.focused_limits is Some && state.unfocused_limits is Some
}

/// The policy before any window was focused.
pub open spec fn fresh(
    dedicated: Option<Seq<Seq<char>>>,
    capacity: Option<Seq<(Seq<char>, u64)>>,
    self_pid: u32,
) -> PolicyView {
    PolicyView {
        dedicated,
        focused_limits: capacity,
        unfocused_limits: match capacity {
            Some(limits) => Some(cgroup::emptied(limits)),
            None => None,
        },
        focused: None,
        moved: Map::empty(),
        self_pid,
        progress: ProgressView::Idle,
        asked: PolicyAskView::Finished,
    }
}

// ---------------------------------------------------------------------------
// Updates
// ---------------------------------------------------------------------------

/// The sequence lists the processes, each once.
pub open spec fn lists(pids: Seq<u32>, all: Set<u32>) -> bool {
    pids.no_duplicates() && pids.to_set() == all
}

/// The process to hold for a focused one: the policy's own is none.
pub open spec fn held(focused: Option<u32>, self_pid: u32) -> Option<u32> {
    if focused == Some(self_pid) {
        None
    } else {
        focused
    }
}

/// Where the amounts are to be written, and which.
pub open spec fn limits_to_write(state: PolicyView) -> Option<
    (Seq<Seq<char>>, Seq<(Seq<char>, u64)>),
> {
    if state.focused is Some {
        both(state.dedicated, state.focused_limits)
    } else {
        both(state.dedicated, state.unfocused_limits)
    }
}

/// Both, if both are there.
pub open spec fn both(
    dedicated: Option<Seq<Seq<char>>>,
    limits: Option<Seq<(Seq<char>, u64)>>,
) -> Option<(Seq<Seq<char>>, Seq<(Seq<char>, u64)>)> {
    match (dedicated, limits) {
        (Some(dedicated), Some(limits)) => Some((dedicated, limits)),
        _ => None,
    }
}

pub open spec fn write_view(write: Option<(CGroup, DMemLimit)>) -> Option<
    (Seq<Seq<char>>, Seq<(Seq<char>, u64)>),
> {
    match write {
        Some((dedicated, limits)) => Some((dedicated@, limits@)),
        None => None,
    }
}

/// The policy as it writes the amounts.
pub open spec fn writing(state: PolicyView) -> PolicyView {
    match limits_to_write(state) {
        Some((dedicated, limits)) => PolicyView {
            progress: ProgressView::Writing,
            asked: PolicyAskView::WriteLow(dedicated, limits),
            ..state
        },
        None => finished(state),
    }
}

pub open spec fn finished(state: PolicyView) -> PolicyView {
    PolicyView { progress: ProgressView::Idle, asked: PolicyAskView::Finished, ..state }
}

/// The policy once the processes of another window have been moved back.
pub open spec fn settling(state: PolicyView) -> PolicyView {
    match state.focused {
        Some(pid) => PolicyView {
            progress: ProgressView::Listing,
            asked: PolicyAskView::Tree(pid),
            ..state
        },
        None => writing(state),
    }
}

/// The policy as it moves the processes back.
pub open spec fn restoring(
    state: PolicyView,
    wanted: Option<u32>,
    pids: Seq<u32>,
) -> PolicyView {
    if pids.len() == 0 {
        settling(PolicyView { focused: wanted, ..state })
    } else {
        PolicyView {
            progress: ProgressView::Checking { wanted, pids },
            asked: PolicyAskView::Exists(pids[0]),
            ..state
        }
    }
}

/// The policy as it forgets processes that have ended.
pub open spec fn pruning(
    state: PolicyView,
    wanted: Option<u32>,
    unchecked: Seq<u32>,
    alive: Seq<u32>,
) -> PolicyView {
    if unchecked.len() > 0 {
        PolicyView {
            progress: ProgressView::Pruning { wanted, unchecked, alive },
            asked: PolicyAskView::Exists(unchecked[0]),
            ..state
        }
    } else if state.focused != wanted {
        restoring(state, wanted, alive)
    } else {
        settling(state)
    }
}

/// A process that came from there is moved back.
pub open spec fn restorable(state: PolicyView, pid: u32, origin: Seq<Seq<char>>) -> bool {
    pid != state.self_pid && Some(origin) != state.dedicated && cgroup::in_hierarchy(origin)
}

/// The policy as it moves processes into the dedicated control group.
pub open spec fn migrating(state: PolicyView, pids: Seq<u32>) -> PolicyView
    decreases pids.len(),
{
    if pids.len() == 0 {
        writing(state)
    } else if pids[0] == state.self_pid || state.moved.contains_key(pids[0]) {
        migrating(state, pids.skip(1))
    } else {
        PolicyView {
            progress: ProgressView::Locating { pids },
            asked: PolicyAskView::Origin(pids[0]),
            ..state
        }
    }
}

/// The policy as it takes up a new focus, with the processes that were moved
/// in some order. One that is disabled does nothing.
pub open spec fn updating(state: PolicyView, focused: Option<u32>, pids: Seq<u32>) -> PolicyView {
    if enabled(state) {
        pruning(state, held(focused, state.self_pid), pids, seq![])
    } else {
        finished(state)
    }
}

/// The policy after an answer. One that is beside the question changes nothing.
pub open spec fn policy_answered(state: PolicyView, answer: PolicyAnswerView) -> PolicyView {
    match (state.progress, answer) {
        (
            ProgressView::Pruning { wanted, unchecked, alive },
            PolicyAnswerView::Exists(yes),
        ) => if unchecked.len() == 0 {
            state
        } else if yes {
            pruning(state, wanted, unchecked.skip(1), alive.push(unchecked[0]))
        } else {
            pruning(
                PolicyView { moved: state.moved.remove(unchecked[0]), ..state },
                wanted,
                unchecked.skip(1),
                alive,
            )
        },
        (
            ProgressView::Checking { wanted, pids },
            PolicyAnswerView::Exists(yes),
        ) => if pids.len() == 0 {
            state
        } else {
            let pid = pids[0];
            let rest = PolicyView { moved: state.moved.remove(pid), ..state };
            if yes && state.moved.contains_key(pid) && restorable(state, pid, state.moved[pid]) {
                PolicyView {
                    progress: ProgressView::Restoring { wanted, pids: pids.skip(1) },
                    asked: PolicyAskView::Restore(pid, state.moved[pid]),
                    ..rest
                }
            } else {
                restoring(rest, wanted, pids.skip(1))
            }
        },
        (
            ProgressView::Restoring { wanted, pids },
            PolicyAnswerView::Moved(_),
        ) => restoring(state, wanted, pids),
        (ProgressView::Listing, PolicyAnswerView::Tree(pids)) => migrating(state, pids),
        (
            ProgressView::Locating { pids },
            PolicyAnswerView::Origin(origin),
        ) => if pids.len() == 0 {
            state
        } else {
            match (origin, state.dedicated) {
                (Some(origin), Some(dedicated)) => if origin == dedicated {
                    migrating(state, pids.skip(1))
                } else {
                    PolicyView {
                        progress: ProgressView::Migrating { pids, origin },
                        asked: PolicyAskView::Migrate(pids[0], dedicated),
                        ..state
                    }
                },
                _ => migrating(state, pids.skip(1)),
            }
        },
        (
            ProgressView::Migrating { pids, origin },
            PolicyAnswerView::Moved(ok),
        ) => if pids.len() == 0 {
            state
        } else if ok {
            migrating(
                PolicyView { moved: state.moved.insert(pids[0], origin), ..state },
                pids.skip(1),
            )
        } else {
            migrating(state, pids.skip(1))
        },
        (ProgressView::Writing, PolicyAnswerView::Written) => finished(state),
        _ => state,
    }
}

/// What has been asked before makes no difference to what follows.
proof fn lemma_migrating_anew(a: PolicyView, b: PolicyView, pids: Seq<u32>)
    requires
        b == (PolicyView { progress: b.progress, asked: b.asked, ..a }),
    ensures
        migrating(a, pids) == migrating(b, pids),
    decreases pids.len(),
{
    if pids.len() > 0 {
        lemma_migrating_anew(a, b, pids.skip(1));
    }
}

/// The keys of a map, in some order.
fn keys_of(map: &HashMap<u32, CGroup>) -> (pids: Vec<u32>)
    ensures
        lists(pids@, map@.dom()),
{
    let mut pids: Vec<u32> = Vec::new();
    for pid in iter: map.keys()
        invariant
            iter.seq().unref().to_set() == map@.dom(),
            iter.seq().no_duplicates(),
            pids@ == iter.seq().unref().take(iter.index() as int),
            pids@.no_duplicates(),
            iter.index() == iter.seq().len() ==> pids@.to_set() == map@.dom(),
    {
        pids.push(*pid);
        assert(pids@ == iter.seq().unref().take(iter.index() + 1));
        assert(iter.index() + 1 == iter.seq().len() ==> pids@ == iter.seq().unref());
    }
    pids
}

impl FocusPolicyState {
    /// The policy with a dedicated control group and the device memory there
    /// is, as far as they could be had.
    pub fn new(dedicated: Option<CGroup>, capacity: Option<DMemLimit>, self_pid: u32) -> (state:
        FocusPolicyState)
        ensures
            state@ == fresh(place_view(dedicated), limit_view(capacity), self_pid),
            policy_sound(state@),
            capacity matches Some(limits) ==> (cgroup::one_each(limits@) ==> cgroup::one_each(
                state@.unfocused_limits->0,
            )),
    {
        let unfocused_limits = match &capacity {
            Some(limits) => Some(limits.zeroed()),
            None => None,
        };
        let state = FocusPolicyState {
            dedicated_cgroup: dedicated,
            focused_limits: capacity,
            unfocused_limits,
            focused_root_pid: None,
            moved_pids_original: HashMap::new(),
            self_pid,
            progress: Progress::Idle,
            asked: PolicyAsk::Finished,
        };
        assert(state@.moved == Map::<u32, Seq<Seq<char>>>::empty());
        state
    }

    /// What the policy asks for.
    pub fn asked(&self) -> (asked: &PolicyAsk)
        ensures
            asked@ == self@.asked,
    {
        &self.asked
    }

    /// The process of the focused window, if there is one.
    pub fn focused_root_pid(&self) -> (pid: Option<u32>)
        ensures
            pid == self@.focused,
    {
        self.focused_root_pid
    }

    /// The processes that were moved, in no particular order.
    pub fn moved_pids(&self) -> (pids: Vec<u32>)
        ensures
            lists(pids@, self@.moved.dom()),
    {
        let pids = keys_of(&self.moved_pids_original);
        assert(self@.moved.dom() == self.moved_pids_original@.dom());
        pids
    }

    /// Where a process that was moved came from.
    pub fn origin_of(&self, pid: u32) -> (origin: Option<&CGroup>)
        ensures
            match origin {
                Some(g) => self@.moved.contains_key(pid) && self@.moved[pid] == g@,
                None => !self@.moved.contains_key(pid),
            },
    {
        self.moved_pids_original.get(&pid)
    }

    /// Whether the policy has a place for processes and knows what to protect.
    pub fn is_enabled(&self) -> (yes: bool)
        ensures
            yes == enabled(self@),
    {
        self.dedicated_cgroup.is_some() && self.focused_limits.is_some()
            && self.unfocused_limits.is_some()
    }

    /// Whether device memory is protected throughout the hierarchy, as it is
    /// where the policy cannot protect it for the focused window alone.
    pub fn writes_default_limits(&self) -> (yes: bool)
        ensures
            yes == !enabled(self@),
    {
        !self.is_enabled()
    }

    /// Where the amounts for an unfocused state are to be written, and which.
    pub fn write_unfocused_limits(&self) -> (write: Option<(CGroup, DMemLimit)>)
        ensures
            write_view(write) == both(self@.dedicated, self@.unfocused_limits),
    {
        match (&self.dedicated_cgroup, &self.unfocused_limits) {
            (Some(dedicated), Some(limits)) => Some((dedicated.clone(), limits.clone())),
            _ => None,
        }
    }

    /// Where the amounts for a focused state are to be written, and which.
    pub fn write_focused_limits(&self) -> (write: Option<(CGroup, DMemLimit)>)
        ensures
            write_view(write) == both(self@.dedicated, self@.focused_limits),
    {
        match (&self.dedicated_cgroup, &self.focused_limits) {
            (Some(dedicated), Some(limits)) => Some((dedicated.clone(), limits.clone())),
            _ => None,
        }
    }

    fn finish(&mut self)
        ensures
            final(self)@ == finished(old(self)@),
    {
        self.progress = Progress::Idle;
        self.asked = PolicyAsk::Finished;
    }

    fn write(&mut self)
        ensures
            final(self)@ == writing(old(self)@),
    {
        let write = if self.focused_root_pid.is_some() {
            self.write_focused_limits()
        } else {
            self.write_unfocused_limits()
        };
        match write {
            Some((dedicated, limits)) => {
                self.progress = Progress::Writing;
                self.asked = PolicyAsk::WriteLow(dedicated, limits);
            },
            None => self.finish(),
        }
    }

    fn settle(&mut self)
        ensures
            final(self)@ == settling(old(self)@),
    {
        match self.focused_root_pid {
            Some(pid) => {
                self.progress = Progress::Listing;
                self.asked = PolicyAsk::Tree(pid);
            },
            None => self.write(),
        }
    }

    fn restore_next(&mut self, wanted: Option<u32>, pids: Vec<u32>)
        ensures
            final(self)@ == restoring(old(self)@, wanted, pids@),
    {
        if pids.len() == 0 {
            self.focused_root_pid = wanted;
            self.settle();
        } else {
            self.asked = PolicyAsk::Exists(pids[0]);
            self.progress = Progress::Checking { wanted, pids };
        }
    }

    fn prune_next(&mut self, wanted: Option<u32>, unchecked: Vec<u32>, alive: Vec<u32>)
        ensures
            final(self)@ == pruning(old(self)@, wanted, unchecked@, alive@),
    {
        if unchecked.len() > 0 {
            self.asked = PolicyAsk::Exists(unchecked[0]);
            self.progress = Progress::Pruning { wanted, unchecked, alive };
        } else if self.focused_root_pid != wanted {
            self.restore_next(wanted, alive);
        } else {
            self.settle();
        }
    }

    /// Forgets where a process came from, and says so.
    fn forget(&mut self, pid: u32) -> (origin: Option<CGroup>)
        ensures
            final(self)@ == (PolicyView { moved: old(self)@.moved.remove(pid), ..old(self)@ }),
            match origin {
                Some(g) => old(self)@.moved.contains_key(pid) && old(self)@.moved[pid] == g@,
                None => !old(self)@.moved.contains_key(pid),
            },
    {
        let origin = self.moved_pids_original.remove(&pid);
        assert(self@.moved == old(self)@.moved.remove(pid));
        origin
    }

    /// Whether a process that came from there is moved back.
    fn is_restorable(&self, pid: u32, origin: &CGroup) -> (yes: bool)
        ensures
            yes == restorable(self@, pid, origin@),
    {
        let dedicated = match &self.dedicated_cgroup {
            Some(dedicated) => origin.same(dedicated),
            None => false,
        };
        pid != self.self_pid && !dedicated && origin.is_in_hierarchy()
    }

    fn migrate_next(&mut self, pids: Vec<u32>)
        ensures
            final(self)@ == migrating(old(self)@, pids@),
    {
        let mut pids = pids;
        let ghost all = pids@;
        while pids.len() > 0 && (pids[0] == self.self_pid
            || self.moved_pids_original.contains_key(&pids[0]))
            invariant
                *self == *old(self),
                migrating(self@, pids@) == migrating(self@, all),
            decreases pids.len(),
        {
            let ghost before = pids@;
            pids.remove(0);
            assert(pids@ == before.skip(1));
        }
        if pids.len() == 0 {
            self.write();
        } else {
            self.asked = PolicyAsk::Origin(pids[0]);
            self.progress = Progress::Locating { pids };
        }
    }

    /// Takes up a new focus: the process of the focused window, if any. The
    /// processes that were moved are gone through in no particular order.
    pub fn update_focused_pid(&mut self, focused_pid: Option<u32>)
        ensures
            exists|pids: Seq<u32>|
                lists(pids, old(self)@.moved.dom()) && final(self)@ == #[trigger] updating(
                    old(self)@,
                    focused_pid,
                    pids,
                ),
            policy_sound(old(self)@) ==> policy_sound(final(self)@),
    {
        let pids = keys_of(&self.moved_pids_original);
        let ghost order = pids@;
        assert(old(self)@.moved.dom() == self.moved_pids_original@.dom());
        proof {
            if policy_sound(self@) {
                updates_keep_the_policy_sound(self@, focused_pid, order);
            }
        }
        if !self.is_enabled() {
            self.finish();
            assert(self@ == updating(old(self)@, focused_pid, order));
            return;
        }
        let wanted = match focused_pid {
            Some(pid) => {
                if pid == self.self_pid {
                    None
                } else {
                    Some(pid)
                }
            },
            None => None,
        };
        self.prune_next(wanted, pids, Vec::new());
        assert(self@ == updating(old(self)@, focused_pid, order));
    }

    /// Tells the policy what came of its question.
    pub fn answer(&mut self, answer: PolicyAnswer)
        ensures
            final(self)@ == policy_answered(old(self)@, answer@),
            policy_sound(old(self)@) ==> policy_sound(final(self)@),
    {
        proof {
            if policy_sound(self@) {
                answers_keep_the_policy_sound(self@, answer@);
            }
        }
        let mut progress = Progress::Idle;
        std::mem::swap(&mut progress, &mut self.progress);
        match (progress, answer) {
            (Progress::Pruning { wanted, unchecked, alive }, PolicyAnswer::Exists(yes)) => {
                let mut unchecked = unchecked;
                let mut alive = alive;
                if unchecked.len() == 0 {
                    self.progress = Progress::Pruning { wanted, unchecked, alive };
                    return;
                }
                let ghost before = unchecked@;
                let pid = unchecked.remove(0);
                assert(unchecked@ == before.skip(1));
                if yes {
                    alive.push(pid);
                } else {
                    self.forget(pid);
                }
                self.prune_next(wanted, unchecked, alive);
            },
            (Progress::Checking { wanted, pids }, PolicyAnswer::Exists(yes)) => {
                let mut pids = pids;
                if pids.len() == 0 {
                    self.progress = Progress::Checking { wanted, pids };
                    return;
                }
                let ghost before = pids@;
                let pid = pids.remove(0);
                assert(pids@ == before.skip(1));
                match self.forget(pid) {
                    Some(origin) => {
                        if yes && self.is_restorable(pid, &origin) {
                            self.asked = PolicyAsk::Restore(pid, origin);
                            self.progress = Progress::Restoring { wanted, pids };
                        } else {
                            self.restore_next(wanted, pids);
                        }
                    },
                    None => self.restore_next(wanted, pids),
                }
            },
            (Progress::Restoring { wanted, pids }, PolicyAnswer::Moved(_)) => {
                self.restore_next(wanted, pids);
            },
            (Progress::Listing, PolicyAnswer::Tree(pids)) => {
                proof {
                    lemma_migrating_anew(old(self)@, self@, pids@);
                }
                self.migrate_next(pids);
            },
            (Progress::Locating { pids }, PolicyAnswer::Origin(origin)) => {
                let mut pids = pids;
                if pids.len() == 0 {
                    self.progress = Progress::Locating { pids };
                    return;
                }
                let dedicated = match &self.dedicated_cgroup {
                    Some(dedicated) => Some(dedicated.clone()),
                    None => None,
                };
                match (origin, dedicated) {
                    (Some(origin), Some(dedicated)) => {
                        if !origin.same(&dedicated) {
                            self.asked = PolicyAsk::Migrate(pids[0], dedicated);
                            self.progress = Progress::Migrating { pids, origin };
                            return;
                        }
                    },
                    _ => {},
                }
                let ghost before = pids@;
                pids.remove(0);
                assert(pids@ == before.skip(1));
                proof {
                    lemma_migrating_anew(old(self)@, self@, pids@);
                }
                self.migrate_next(pids);
            },
            (Progress::Migrating { pids, origin }, PolicyAnswer::Moved(ok)) => {
                let mut pids = pids;
                if pids.len() == 0 {
                    self.progress = Progress::Migrating { pids, origin };
                    return;
                }
                let ghost before = pids@;
                let ghost state = self@;
                let pid = pids.remove(0);
                assert(pids@ == before.skip(1));
                if ok {
                    let ghost place = origin@;
                    self.moved_pids_original.insert(pid, origin);
                    assert(self@.moved == state.moved.insert(pid, place));
                    proof {
                        lemma_migrating_anew(
                            PolicyView { moved: state.moved.insert(pid, place), ..old(self)@ },
                            self@,
                            pids@,
                        );
                    }
                } else {
                    proof {
                        lemma_migrating_anew(old(self)@, self@, pids@);
                    }
                }
                self.migrate_next(pids);
            },
            (Progress::Writing, PolicyAnswer::Written) => self.finish(),
            (progress, _) => {
                self.progress = progress;
            },
        }
    }
}

// ---------------------------------------------------------------------------
// Laws
// ---------------------------------------------------------------------------

/// The answer is one to that question.
pub open spec fn policy_fits(ask: PolicyAskView, answer: PolicyAnswerView) -> bool {
    match ask {
        PolicyAskView::Exists(_) => answer is Exists,
        PolicyAskView::Restore(_, _) | PolicyAskView::Migrate(_, _) => answer is Moved,
        PolicyAskView::Tree(_) => answer is Tree,
        PolicyAskView::Origin(_) => answer is Origin,
        PolicyAskView::WriteLow(_, _) => answer is Written,
        PolicyAskView::Finished => false,
    }
}

/// What holds of the records: the policy's own process is not among those that
/// were moved and never the focused one, none came from the dedicated control
/// group, and without a focus there are none.
pub open spec fn records_valid(state: PolicyView) -> bool {
    &&& !state.moved.contains_key(state.self_pid)
    &&& state.focused != Some(state.self_pid)
    &&& forall|pid: u32| #[trigger]
        state.moved.contains_key(pid) ==> Some(state.moved[pid]) != state.dedicated
    &&& state.focused is None ==> state.moved.dom() == Set::<u32>::empty()
}

/// The process may be moved into the dedicated control group.
pub open spec fn movable(state: PolicyView, pid: u32) -> bool {
    pid != state.self_pid && !state.moved.contains_key(pid)
}

/// The question is that of the progress.
pub open spec fn asks_for_progress(state: PolicyView) -> bool {
    match state.progress {
        ProgressView::Idle => state.asked is Finished,
        ProgressView::Pruning { wanted, unchecked, alive } => {
            &&& wanted != Some(state.self_pid)
            &&& unchecked.len() > 0
            &&& state.asked == PolicyAskView::Exists(unchecked[0])
            &&& lists(unchecked + alive, state.moved.dom())
        },
        ProgressView::Checking { wanted, pids } => {
            &&& wanted != Some(state.self_pid)
            &&& pids.len() > 0
            &&& state.asked == PolicyAskView::Exists(pids[0])
            &&& lists(pids, state.moved.dom())
        },
        ProgressView::Restoring { wanted, pids } => {
            &&& wanted != Some(state.self_pid)
            &&& state.asked is Restore
            &&& restorable(state, state.asked->Restore_0, state.asked->Restore_1)
            &&& lists(pids, state.moved.dom())
        },
        ProgressView::Listing => {
            &&& state.focused is Some
            &&& state.asked == PolicyAskView::Tree(state.focused->0)
        },
        ProgressView::Locating { pids } => {
            &&& state.focused is Some
            &&& pids.len() > 0
            &&& movable(state, pids[0])
            &&& state.asked == PolicyAskView::Origin(pids[0])
        },
        ProgressView::Migrating { pids, origin } => {
            &&& state.focused is Some
            &&& pids.len() > 0
            &&& movable(state, pids[0])
            &&& Some(origin) != state.dedicated
            &&& state.asked == PolicyAskView::Migrate(pids[0], state.dedicated->0)
        },
        ProgressView::Writing => {
            let (dedicated, limits) = limits_to_write(state)->0;
            state.asked == PolicyAskView::WriteLow(dedicated, limits)
        },
    }
}

/// What holds of the policy at all times. It never holds its own process for
/// the focused one nor asks for it to be moved, moves processes only into the dedicated control group or back to
/// one in the hierarchy other than that, protects all device memory while a
/// window is focused and none while none is, and does nothing while disabled.
pub open spec fn policy_sound(state: PolicyView) -> bool {
    &&& records_valid(state)
    &&& asks_for_progress(state)
    &&& !(state.progress is Idle) ==> enabled(state)
}

proof fn lemma_restoring_sound(state: PolicyView, wanted: Option<u32>, pids: Seq<u32>)
    requires
        records_valid(state),
        enabled(state),
        wanted != Some(state.self_pid),
        lists(pids, state.moved.dom()),
    ensures
        policy_sound(restoring(state, wanted, pids)),
{
    if pids.len() == 0 {
        assert(pids.to_set() == Set::<u32>::empty());
    }
}

proof fn lemma_pruning_sound(
    state: PolicyView,
    wanted: Option<u32>,
    unchecked: Seq<u32>,
    alive: Seq<u32>,
)
    requires
        records_valid(state),
        enabled(state),
        wanted != Some(state.self_pid),
        lists(unchecked + alive, state.moved.dom()),
    ensures
        policy_sound(pruning(state, wanted, unchecked, alive)),
{
    if unchecked.len() == 0 {
        assert(unchecked + alive == alive);
        lemma_restoring_sound(state, wanted, alive);
    }
}

proof fn lemma_migrating_sound(state: PolicyView, pids: Seq<u32>)
    requires
        records_valid(state),
        enabled(state),
        state.focused is Some,
    ensures
        policy_sound(migrating(state, pids)),
    decreases pids.len(),
{
    if pids.len() > 0 {
        lemma_migrating_sound(state, pids.skip(1));
    }
}

/// Taking the first off a list of processes.
proof fn lemma_lists_rest(pids: Seq<u32>, all: Set<u32>)
    requires
        lists(pids, all),
        pids.len() > 0,
    ensures
        lists(pids.skip(1), all.remove(pids[0])),
        all.contains(pids[0]),
{
    let rest = pids.skip(1);
    assert(pids.contains(pids[0]));
    assert(all.contains(pids[0]));
    assert forall|pid: u32| rest.to_set().contains(pid) <==> #[trigger] all.remove(
        pids[0],
    ).contains(pid) by {
        if rest.contains(pid) {
            let k = choose|k: int| 0 <= k < rest.len() && rest[k] == pid;
            assert(pids[k + 1] == pid);
            assert(pids.contains(pid));
            assert(pids.to_set().contains(pid));
        }
        if all.remove(pids[0]).contains(pid) {
            assert(pids.to_set().contains(pid));
            let k = choose|k: int| 0 <= k < pids.len() && pids[k] == pid;
            assert(rest[k - 1] == pid);
        }
    }
    assert(rest.to_set() == all.remove(pids[0]));
}

/// Moving the first to the end of a list of processes.
proof fn lemma_lists_turned(unchecked: Seq<u32>, alive: Seq<u32>, all: Set<u32>)
    requires
        lists(unchecked + alive, all),
        unchecked.len() > 0,
    ensures
        lists(unchecked.skip(1) + alive.push(unchecked[0]), all),
{
    let a = unchecked + alive;
    let b = unchecked.skip(1) + alive.push(unchecked[0]);
    let n = a.len();
    assert(b.len() == n);
    assert(forall|k: int| 0 <= k < n - 1 ==> b[k] == #[trigger] a[k + 1]);
    assert(b[n - 1] == a[0]);
    assert forall|i: int, j: int| 0 <= i < n && 0 <= j < n && i != j implies b[i] != b[j] by {
        let from_i = if i < n - 1 {
            i + 1
        } else {
            0
        };
        let from_j = if j < n - 1 {
            j + 1
        } else {
            0
        };
        assert(b[i] == a[from_i] && b[j] == a[from_j]);
    }
    assert forall|pid: u32| b.to_set().contains(pid) <==> #[trigger] all.contains(pid) by {
        if b.contains(pid) {
            let k = choose|k: int| 0 <= k < n && b[k] == pid;
            if k < n - 1 {
                assert(a[k + 1] == pid);
            }
            assert(a.contains(pid));
            assert(a.to_set().contains(pid));
        }
        if all.contains(pid) {
            assert(a.to_set().contains(pid));
            let k = choose|k: int| 0 <= k < n && a[k] == pid;
            if k > 0 {
                assert(b[k - 1] == a[k - 1 + 1]);
            }
            assert(b.contains(pid));
        }
    }
    assert(b.to_set() == all);
}

/// The policy is sound from the start.
pub proof fn fresh_policy_is_sound(
    dedicated: Option<Seq<Seq<char>>>,
    capacity: Option<Seq<(Seq<char>, u64)>>,
    self_pid: u32,
)
    ensures
        policy_sound(fresh(dedicated, capacity, self_pid)),
{
}

/// The policy stays sound when it takes up a focus, whatever that is.
pub proof fn updates_keep_the_policy_sound(state: PolicyView, focused: Option<u32>, pids: Seq<u32>)
    requires
        policy_sound(state),
        lists(pids, state.moved.dom()),
    ensures
        policy_sound(updating(state, focused, pids)),
{
    if enabled(state) {
        assert(pids + Seq::<u32>::empty() == pids);
        lemma_pruning_sound(state, held(focused, state.self_pid), pids, seq![]);
    }
}

/// The policy stays sound whatever it is told.
pub proof fn answers_keep_the_policy_sound(state: PolicyView, answer: PolicyAnswerView)
    requires
        policy_sound(state),
    ensures
        policy_sound(policy_answered(state, answer)),
{
    match (state.progress, answer) {
        (ProgressView::Pruning { wanted, unchecked, alive }, PolicyAnswerView::Exists(yes)) => {
            if yes {
                lemma_lists_turned(unchecked, alive, state.moved.dom());
                lemma_pruning_sound(
                    state,
                    wanted,
                    unchecked.skip(1),
                    alive.push(unchecked[0]),
                );
            } else {
                let rest = PolicyView { moved: state.moved.remove(unchecked[0]), ..state };
                lemma_lists_rest(unchecked + alive, state.moved.dom());
                assert((unchecked + alive).skip(1) == unchecked.skip(1) + alive);
                assert(rest.moved.dom() == state.moved.dom().remove(unchecked[0]));
                lemma_pruning_sound(rest, wanted, unchecked.skip(1), alive);
            }
        },
        (ProgressView::Checking { wanted, pids }, PolicyAnswerView::Exists(yes)) => {
            let rest = PolicyView { moved: state.moved.remove(pids[0]), ..state };
            lemma_lists_rest(pids, state.moved.dom());
            assert(rest.moved.dom() == state.moved.dom().remove(pids[0]));
            lemma_restoring_sound(rest, wanted, pids.skip(1));
        },
        (ProgressView::Restoring { wanted, pids }, PolicyAnswerView::Moved(_)) => {
            lemma_restoring_sound(state, wanted, pids);
        },
        (ProgressView::Listing, PolicyAnswerView::Tree(pids)) => {
            lemma_migrating_sound(state, pids);
        },
        (ProgressView::Locating { pids }, PolicyAnswerView::Origin(_)) => {
            lemma_migrating_sound(state, pids.skip(1));
        },
        (ProgressView::Migrating { pids, origin }, PolicyAnswerView::Moved(_)) => {
            let more = PolicyView { moved: state.moved.insert(pids[0], origin), ..state };
            lemma_migrating_sound(more, pids.skip(1));
            lemma_migrating_sound(state, pids.skip(1));
        },
        _ => {},
    }
}

/// A policy without a place for processes, or without knowing what to protect,
/// asks for nothing, whatever is focused and whatever it is told.
pub proof fn a_disabled_policy_stays_still(
    state: PolicyView,
    focused: Option<u32>,
    pids: Seq<u32>,
    answers: Seq<PolicyAnswerView>,
)
    requires
        !enabled(state),
    ensures
        after_policy_answers(updating(state, focused, pids), answers) == finished(state),
    decreases answers.len(),
{
    if answers.len() > 0 {
        a_disabled_policy_stays_still(state, focused, pids, answers.drop_last());
    }
}

/// The policy after a sequence of answers.
pub open spec fn after_policy_answers(
    state: PolicyView,
    answers: Seq<PolicyAnswerView>,
) -> PolicyView
    decreases answers.len(),
{
    if answers.len() == 0 {
        state
    } else {
        policy_answered(after_policy_answers(state, answers.drop_last()), answers.last())
    }
}

/// Each answer is one to the question that it follows.
pub open spec fn policy_to_the_point(state: PolicyView, answers: Seq<PolicyAnswerView>) -> bool
    decreases answers.len(),
{
    answers.len() > 0 ==> policy_to_the_point(state, answers.drop_last()) && policy_fits(
        after_policy_answers(state, answers.drop_last()).asked,
        answers.last(),
    )
}

/// The process that a question asks to move back, and where to.
pub open spec fn moved_back(asked: PolicyAskView) -> Set<(u32, Seq<Seq<char>>)> {
    match asked {
        PolicyAskView::Restore(pid, to) => set![(pid, to)],
        _ => Set::empty(),
    }
}

/// The processes that have been asked to be moved back, and where to.
pub open spec fn all_moved_back(state: PolicyView, answers: Seq<PolicyAnswerView>) -> Set<
    (u32, Seq<Seq<char>>),
>
    decreases answers.len(),
{
    let now = moved_back(after_policy_answers(state, answers).asked);
    if answers.len() == 0 {
        now
    } else {
        all_moved_back(state, answers.drop_last()).union(now)
    }
}

/// The process that an answer says has ended.
pub open spec fn ended(asked: PolicyAskView, answer: PolicyAnswerView) -> Set<u32> {
    match (asked, answer) {
        (PolicyAskView::Exists(pid), PolicyAnswerView::Exists(false)) => set![pid],
        _ => Set::empty(),
    }
}

/// The processes that were said to have ended.
pub open spec fn all_ended(state: PolicyView, answers: Seq<PolicyAnswerView>) -> Set<u32>
    decreases answers.len(),
{
    if answers.len() == 0 {
        Set::empty()
    } else {
        all_ended(state, answers.drop_last()).union(
            ended(after_policy_answers(state, answers.drop_last()).asked, answers.last()),
        )
    }
}

/// The policy has done with the processes of the window before.
pub open spec fn past_restoring(state: PolicyView) -> bool {
    !(state.progress is Pruning || state.progress is Checking || state.progress is Restoring)
}

/// Each process that is to be moved back still waits for it, unless it was
/// asked to be moved back or said to have ended.
spec fn accounted(
    start: PolicyView,
    waiting: Seq<u32>,
    back: Set<(u32, Seq<Seq<char>>)>,
    gone: Set<u32>,
) -> bool {
    forall|pid: u32| #[trigger]
        start.moved.contains_key(pid) && restorable(start, pid, start.moved[pid]) ==> {
            ||| gone.contains(pid)
            ||| back.contains((pid, start.moved[pid]))
            ||| waiting.contains(pid)
        }
}

spec fn waiting_to_return(state: PolicyView) -> Seq<u32> {
    match state.progress {
        ProgressView::Pruning { wanted, unchecked, alive } => unchecked + alive,
        ProgressView::Checking { wanted, pids } => pids,
        ProgressView::Restoring { wanted, pids } => pids,
        _ => seq![],
    }
}

/// Each record of one is a record of the other.
spec fn part_of(part: Map<u32, Seq<Seq<char>>>, whole: Map<u32, Seq<Seq<char>>>) -> bool {
    forall|pid: u32| #[trigger]
        part.contains_key(pid) ==> whole.contains_key(pid) && part[pid] == whole[pid]
}

/// How an update of `start` to `wanted` stands.
spec fn on_the_way(
    start: PolicyView,
    wanted: Option<u32>,
    state: PolicyView,
    back: Set<(u32, Seq<Seq<char>>)>,
    gone: Set<u32>,
) -> bool {
    &&& state.self_pid == start.self_pid
    &&& state.dedicated == start.dedicated
    &&& state.focused_limits == start.focused_limits
    &&& state.unfocused_limits == start.unfocused_limits
    &&& moved_back(state.asked).subset_of(back)
    &&& start.focused != wanted ==> accounted(start, waiting_to_return(state), back, gone)
    &&& forall|pid: u32, to: Seq<Seq<char>>| #[trigger]
        back.contains((pid, to)) ==> start.focused != wanted && start.moved.contains_key(pid)
            && start.moved[pid] == to
    &&& match state.progress {
        ProgressView::Pruning { wanted: w, .. } => w == wanted && state.focused == start.focused
            && part_of(state.moved, start.moved),
        ProgressView::Checking { wanted: w, .. } | ProgressView::Restoring { wanted: w, .. } => w
            == wanted && start.focused != wanted && part_of(state.moved, start.moved),
        ProgressView::Listing => state.focused == wanted && part_of(state.moved, start.moved) && (
        start.focused != wanted ==> state.moved.dom() == Set::<u32>::empty()),
        _ => state.focused == wanted,
    }
}

proof fn lemma_restoring_on_the_way(
    start: PolicyView,
    wanted: Option<u32>,
    state: PolicyView,
    pids: Seq<u32>,
    back: Set<(u32, Seq<Seq<char>>)>,
    gone: Set<u32>,
)
    requires
        state.self_pid == start.self_pid,
        state.dedicated == start.dedicated,
        state.focused_limits == start.focused_limits,
        state.unfocused_limits == start.unfocused_limits,
        start.focused != wanted,
        part_of(state.moved, start.moved),
        lists(pids, state.moved.dom()),
        accounted(start, pids, back, gone),
        forall|pid: u32, to: Seq<Seq<char>>| #[trigger]
            back.contains((pid, to)) ==> start.moved.contains_key(pid) && start.moved[pid] == to,
    ensures
        on_the_way(start, wanted, restoring(state, wanted, pids), back, gone),
{
    let after = restoring(state, wanted, pids);
    if pids.len() == 0 {
        assert(pids == Seq::<u32>::empty());
        assert(after.moved.dom() == Set::<u32>::empty());
    }
    assert(accounted(start, waiting_to_return(after), back, gone));
}

proof fn lemma_migrating_keeps(state: PolicyView, pids: Seq<u32>)
    ensures
        ({
            let after = migrating(state, pids);
            &&& after == (PolicyView { progress: after.progress, asked: after.asked, ..state })
            &&& past_restoring(after)
            &&& !(after.progress is Listing)
            &&& moved_back(after.asked) == Set::<(u32, Seq<Seq<char>>)>::empty()
        }),
    decreases pids.len(),
{
    if pids.len() > 0 {
        lemma_migrating_keeps(state, pids.skip(1));
    }
}

proof fn lemma_step_on_the_way(
    start: PolicyView,
    wanted: Option<u32>,
    state: PolicyView,
    answer: PolicyAnswerView,
    back: Set<(u32, Seq<Seq<char>>)>,
    gone: Set<u32>,
)
    requires
        policy_sound(state),
        on_the_way(start, wanted, state, back, gone),
    ensures
        on_the_way(
            start,
            wanted,
            policy_answered(state, answer),
            back.union(moved_back(policy_answered(state, answer).asked)),
            gone.union(ended(state.asked, answer)),
        ),
{
    let after = policy_answered(state, answer);
    let back_now = back.union(moved_back(after.asked));
    let gone_now = gone.union(ended(state.asked, answer));
    match (state.progress, answer) {
        (ProgressView::Pruning { wanted: _, unchecked, alive }, PolicyAnswerView::Exists(yes)) => {
            let pid = unchecked[0];
            let rest = if yes {
                state
            } else {
                PolicyView { moved: state.moved.remove(pid), ..state }
            };
            let alive_now = if yes {
                alive.push(pid)
            } else {
                alive
            };
            let waiting = unchecked.skip(1) + alive_now;
            if yes {
                lemma_lists_turned(unchecked, alive, state.moved.dom());
            } else {
                lemma_lists_rest(unchecked + alive, state.moved.dom());
                assert((unchecked + alive).skip(1) == waiting);
                assert(rest.moved.dom() == state.moved.dom().remove(pid));
            }
            assert(lists(waiting, rest.moved.dom()));
            if start.focused != wanted {
                assert forall|p: u32| #[trigger]
                    start.moved.contains_key(p) && restorable(start, p, start.moved[p]) implies {
                    ||| gone_now.contains(p)
                    ||| back.contains((p, start.moved[p]))
                    ||| waiting.contains(p)
                } by {
                    if (unchecked + alive).contains(p) && p != pid {
                        assert((unchecked + alive).to_set().contains(p));
                        assert(waiting.to_set().contains(p));
                    }
                    if p == pid && yes {
                        assert(waiting[waiting.len() - 1] == pid);
                    }
                }
                assert(accounted(start, waiting, back, gone_now));
            }
            if unchecked.len() == 1 {
                assert(waiting == alive_now);
                if start.focused != wanted {
                    lemma_restoring_on_the_way(start, wanted, rest, alive_now, back, gone_now);
                }
            }
            assert(back_now == back);
        },
        (ProgressView::Checking { wanted: _, pids }, PolicyAnswerView::Exists(yes)) => {
            let pid = pids[0];
            let rest = PolicyView { moved: state.moved.remove(pid), ..state };
            lemma_lists_rest(pids, state.moved.dom());
            assert(rest.moved.dom() == state.moved.dom().remove(pid));
            assert(state.moved.contains_key(pid));
            assert(start.moved.contains_key(pid) && start.moved[pid] == state.moved[pid]);
            let waiting = pids.skip(1);
            assert forall|p: u32| #[trigger]
                start.moved.contains_key(p) && restorable(start, p, start.moved[p]) implies {
                ||| gone_now.contains(p)
                ||| back_now.contains((p, start.moved[p]))
                ||| waiting.contains(p)
            } by {
                if pids.contains(p) && p != pid {
                    assert(pids.to_set().contains(p));
                    assert(waiting.to_set().contains(p));
                }
            }
            assert(accounted(start, waiting, back_now, gone_now));
            if !(yes && restorable(state, pid, state.moved[pid])) {
                lemma_restoring_on_the_way(start, wanted, rest, waiting, back_now, gone_now);
            }
        },
        (ProgressView::Restoring { wanted: _, pids }, PolicyAnswerView::Moved(_)) => {
            lemma_restoring_on_the_way(start, wanted, state, pids, back, gone_now);
            assert(back_now == back);
        },
        (ProgressView::Listing, PolicyAnswerView::Tree(pids)) => {
            lemma_migrating_keeps(state, pids);
        },
        (ProgressView::Locating { pids }, PolicyAnswerView::Origin(_)) => {
            lemma_migrating_keeps(state, pids.skip(1));
        },
        (ProgressView::Migrating { pids, origin }, PolicyAnswerView::Moved(_)) => {
            lemma_migrating_keeps(state, pids.skip(1));
            lemma_migrating_keeps(
                PolicyView { moved: state.moved.insert(pids[0], origin), ..state },
                pids.skip(1),
            );
        },
        _ => {
            assert(back_now == back);
        },
    }
    if past_restoring(state) {
        assert(back_now == back);
        assert(waiting_to_return(after) == Seq::<u32>::empty());
    }
}

proof fn lemma_on_the_way(
    start: PolicyView,
    focused: Option<u32>,
    order: Seq<u32>,
    answers: Seq<PolicyAnswerView>,
)
    requires
        policy_sound(start),
        enabled(start),
        lists(order, start.moved.dom()),
    ensures
        ({
            let state = updating(start, focused, order);
            &&& policy_sound(after_policy_answers(state, answers))
            &&& on_the_way(
                start,
                held(focused, start.self_pid),
                after_policy_answers(state, answers),
                all_moved_back(state, answers),
                all_ended(state, answers),
            )
        }),
    decreases answers.len(),
{
    let wanted = held(focused, start.self_pid);
    let state = updating(start, focused, order);
    if answers.len() == 0 {
        updates_keep_the_policy_sound(start, focused, order);
        assert(order + Seq::<u32>::empty() == order);
        let back = Set::<(u32, Seq<Seq<char>>)>::empty();
        let gone = Set::<u32>::empty();
        assert forall|pid: u32| #[trigger] start.moved.contains_key(pid) implies order.contains(
            pid,
        ) by {
            assert(order.to_set().contains(pid));
        }
        assert(accounted(start, order, back, gone));
        if order.len() == 0 {
            assert(order == Seq::<u32>::empty());
            if start.focused != wanted {
                lemma_restoring_on_the_way(start, wanted, start, order, back, gone);
            }
        }
        assert(all_moved_back(state, answers) == back);
        assert(all_ended(state, answers) == gone);
    } else {
        let before = answers.drop_last();
        lemma_on_the_way(start, focused, order, before);
        let mid = after_policy_answers(state, before);
        answers_keep_the_policy_sound(mid, answers.last());
        lemma_step_on_the_way(
            start,
            wanted,
            mid,
            answers.last(),
            all_moved_back(state, before),
            all_ended(state, before),
        );
    }
}

/// When the focus changes, every process that was moved for the window before
/// is asked to be moved back to where it came from, unless it is said to have
/// ended or came from outside the hierarchy; and then none of them is held on
/// record any longer.
pub proof fn a_change_of_focus_moves_everyone_back(
    start: PolicyView,
    focused: Option<u32>,
    order: Seq<u32>,
    answers: Seq<PolicyAnswerView>,
    pid: u32,
)
    requires
        policy_sound(start),
        enabled(start),
        lists(order, start.moved.dom()),
        start.focused != held(focused, start.self_pid),
        past_restoring(after_policy_answers(updating(start, focused, order), answers)),
        start.moved.contains_key(pid),
        cgroup::in_hierarchy(start.moved[pid]),
    ensures
        all_moved_back(updating(start, focused, order), answers).contains((pid, start.moved[pid]))
            || all_ended(updating(start, focused, order), answers).contains(pid),
        ({
            let after = after_policy_answers(updating(start, focused, order), answers);
            after.progress is Listing ==> after.moved == Map::<u32, Seq<Seq<char>>>::empty()
        }),
{
    lemma_on_the_way(start, focused, order, answers);
    let after = after_policy_answers(updating(start, focused, order), answers);
    assert(restorable(start, pid, start.moved[pid]));
    assert(!waiting_to_return(after).contains(pid));
    if after.progress is Listing {
        assert(after.moved == Map::<u32, Seq<Seq<char>>>::empty());
    }
}

/// A process is moved back only when the focus changes, and only to where it
/// came from.
pub proof fn processes_return_to_where_they_came_from(
    start: PolicyView,
    focused: Option<u32>,
    order: Seq<u32>,
    answers: Seq<PolicyAnswerView>,
)
    requires
        policy_sound(start),
        enabled(start),
        lists(order, start.moved.dom()),
    ensures
        match after_policy_answers(updating(start, focused, order), answers).asked {
            PolicyAskView::Restore(pid, to) => {
                &&& start.focused != held(focused, start.self_pid)
                &&& start.moved.contains_key(pid)
                &&& start.moved[pid] == to
            },
            _ => true,
        },
{
    lemma_on_the_way(start, focused, order, answers);
    let state = updating(start, focused, order);
    let after = after_policy_answers(state, answers);
    match after.asked {
        PolicyAskView::Restore(pid, to) => {
            assert(moved_back(after.asked).contains((pid, to)));
            assert(all_moved_back(state, answers).contains((pid, to)));
        },
        _ => {},
    }
}

/// Once the processes of the window before have been dealt with, the policy
/// holds the focus that it was given, and an update that is over has written
/// the amounts for it.
pub proof fn the_focus_is_taken_up(
    start: PolicyView,
    focused: Option<u32>,
    order: Seq<u32>,
    answers: Seq<PolicyAnswerView>,
)
    requires
        policy_sound(start),
        enabled(start),
        lists(order, start.moved.dom()),
    ensures
        ({
            let after = after_policy_answers(updating(start, focused, order), answers);
            let limits = if held(focused, start.self_pid) is Some {
                start.focused_limits->0
            } else {
                start.unfocused_limits->0
            };
            &&& past_restoring(after) ==> after.focused == held(focused, start.self_pid)
            &&& after.asked is WriteLow ==> after.asked == PolicyAskView::WriteLow(
                start.dedicated->0,
                limits,
            )
            &&& answers.len() > 0 && after.progress is Idle && !(after_policy_answers(
                updating(start, focused, order),
                answers.drop_last(),
            ).progress is Idle) ==> after_policy_answers(
                updating(start, focused, order),
                answers.drop_last(),
            ).asked is WriteLow
        }),
{
    let state = updating(start, focused, order);
    lemma_on_the_way(start, focused, order, answers);
    if answers.len() > 0 {
        lemma_on_the_way(start, focused, order, answers.drop_last());
        let mid = after_policy_answers(state, answers.drop_last());
        match (mid.progress, answers.last()) {
            (ProgressView::Listing, PolicyAnswerView::Tree(pids)) => {
                lemma_migrating_sound(mid, pids);
                lemma_migrating_goes_on(mid, pids);
            },
            (ProgressView::Locating { pids }, PolicyAnswerView::Origin(_)) => {
                lemma_migrating_goes_on(mid, pids.skip(1));
            },
            (ProgressView::Migrating { pids, origin }, PolicyAnswerView::Moved(_)) => {
                lemma_migrating_goes_on(mid, pids.skip(1));
                lemma_migrating_goes_on(
                    PolicyView { moved: mid.moved.insert(pids[0], origin), ..mid },
                    pids.skip(1),
                );
            },
            _ => {},
        }
    }
}

proof fn lemma_migrating_goes_on(state: PolicyView, pids: Seq<u32>)
    requires
        enabled(state),
    ensures
        !(migrating(state, pids).progress is Idle),
    decreases pids.len(),
{
    if pids.len() > 0 {
        lemma_migrating_goes_on(state, pids.skip(1));
    }
}

/// The process that an answer keeps from being moved: its control group is
/// unknown or the dedicated one, or it could not be moved.
pub open spec fn kept_out(state: PolicyView, answer: PolicyAnswerView) -> Set<u32> {
    match (state.asked, answer) {
        (PolicyAskView::Origin(pid), PolicyAnswerView::Origin(origin)) => if origin is None || origin
            == state.dedicated {
            set![pid]
        } else {
            Set::empty()
        },
        (PolicyAskView::Migrate(pid, _), PolicyAnswerView::Moved(false)) => set![pid],
        _ => Set::empty(),
    }
}

/// The processes that were kept from being moved.
pub open spec fn all_kept_out(state: PolicyView, answers: Seq<PolicyAnswerView>) -> Set<u32>
    decreases answers.len(),
{
    if answers.len() == 0 {
        Set::empty()
    } else {
        all_kept_out(state, answers.drop_last()).union(
            kept_out(after_policy_answers(state, answers.drop_last()), answers.last()),
        )
    }
}

/// The processes still to be moved.
spec fn waiting_to_move(state: PolicyView) -> Seq<u32> {
    match state.progress {
        ProgressView::Locating { pids } => pids,
        ProgressView::Migrating { pids, origin } => pids,
        _ => seq![],
    }
}

/// Each process of the list has been moved, still waits for it, or was kept
/// from it.
spec fn seen_to(state: PolicyView, list: Seq<u32>, out: Set<u32>) -> bool {
    &&& forall|pid: u32| #[trigger]
        list.contains(pid) ==> {
            ||| pid == state.self_pid
            ||| state.moved.contains_key(pid)
            ||| out.contains(pid)
            ||| waiting_to_move(state).contains(pid)
        }
    &&& forall|pid: u32| #[trigger] waiting_to_move(state).contains(pid) ==> list.contains(pid)
    &&& state.progress is Idle || state.progress is Locating || state.progress is Migrating
        || state.progress is Writing
}

proof fn lemma_migrating_sees_to(state: PolicyView, list: Seq<u32>, pids: Seq<u32>, out: Set<u32>)
    requires
        forall|pid: u32| #[trigger]
            list.contains(pid) ==> {
                ||| pid == state.self_pid
                ||| state.moved.contains_key(pid)
                ||| out.contains(pid)
                ||| pids.contains(pid)
            },
        forall|pid: u32| #[trigger] pids.contains(pid) ==> list.contains(pid),
    ensures
        seen_to(migrating(state, pids), list, out),
    decreases pids.len(),
{
    lemma_migrating_keeps(state, pids);
    if pids.len() > 0 && !movable(state, pids[0]) {
        let rest = pids.skip(1);
        lemma_rest_contains(pids);
        lemma_migrating_sees_to(state, list, rest, out);
    }
}

proof fn lemma_rest_contains(pids: Seq<u32>)
    requires
        pids.len() > 0,
    ensures
        forall|pid: u32| #[trigger]
            pids.contains(pid) ==> pid == pids[0] || pids.skip(1).contains(pid),
        forall|pid: u32| #[trigger] pids.skip(1).contains(pid) ==> pids.contains(pid),
{
    let rest = pids.skip(1);
    assert forall|pid: u32| #[trigger] pids.contains(pid) implies pid == pids[0] || rest.contains(
        pid,
    ) by {
        let k = choose|k: int| 0 <= k < pids.len() && pids[k] == pid;
        if k > 0 {
            assert(rest[k - 1] == pid);
        }
    }
    assert forall|pid: u32| #[trigger] rest.contains(pid) implies pids.contains(pid) by {
        let k = choose|k: int| 0 <= k < rest.len() && rest[k] == pid;
        assert(pids[k + 1] == pid);
    }
}

proof fn lemma_step_sees_to(
    state: PolicyView,
    list: Seq<u32>,
    answer: PolicyAnswerView,
    out: Set<u32>,
)
    requires
        policy_sound(state),
        seen_to(state, list, out),
    ensures
        seen_to(policy_answered(state, answer), list, out.union(kept_out(state, answer))),
        policy_answered(state, answer).self_pid == state.self_pid,
        policy_answered(state, answer).dedicated == state.dedicated,
{
    let now = out.union(kept_out(state, answer));
    match (state.progress, answer) {
        (ProgressView::Locating { pids }, PolicyAnswerView::Origin(origin)) => {
            assert(waiting_to_move(state) == pids);
            lemma_rest_contains(pids);
            if origin is None || origin == state.dedicated {
                lemma_migrating_keeps(state, pids.skip(1));
                lemma_migrating_sees_to(state, list, pids.skip(1), now);
            }
        },
        (ProgressView::Migrating { pids, origin }, PolicyAnswerView::Moved(ok)) => {
            assert(waiting_to_move(state) == pids);
            lemma_rest_contains(pids);
            let rest = if ok {
                PolicyView { moved: state.moved.insert(pids[0], origin), ..state }
            } else {
                state
            };
            lemma_migrating_keeps(rest, pids.skip(1));
            lemma_migrating_sees_to(rest, list, pids.skip(1), now);
        },
        _ => {},
    }
}

proof fn lemma_sees_to(
    start: PolicyView,
    list: Seq<u32>,
    answers: Seq<PolicyAnswerView>,
)
    requires
        policy_sound(start),
        start.progress is Listing,
    ensures
        ({
            let state = policy_answered(start, PolicyAnswerView::Tree(list));
            let after = after_policy_answers(state, answers);
            &&& policy_sound(after)
            &&& seen_to(after, list, all_kept_out(state, answers))
            &&& after.self_pid == start.self_pid
        }),
    decreases answers.len(),
{
    let state = policy_answered(start, PolicyAnswerView::Tree(list));
    if answers.len() == 0 {
        answers_keep_the_policy_sound(start, PolicyAnswerView::Tree(list));
        lemma_migrating_keeps(start, list);
        lemma_migrating_sees_to(start, list, list, Set::empty());
    } else {
        lemma_sees_to(start, list, answers.drop_last());
        let mid = after_policy_answers(state, answers.drop_last());
        answers_keep_the_policy_sound(mid, answers.last());
        lemma_step_sees_to(mid, list, answers.last(), all_kept_out(state, answers.drop_last()));
    }
}

/// The processes of the focused window, and no others, are moved into the
/// dedicated control group: when the amounts are written, each of them but the
/// policy's own is on record, unless its control group was unknown or already
/// the dedicated one, or it could not be moved.
pub proof fn everyone_listed_is_moved(
    start: PolicyView,
    list: Seq<u32>,
    answers: Seq<PolicyAnswerView>,
)
    requires
        policy_sound(start),
        start.progress is Listing,
    ensures
        ({
            let state = policy_answered(start, PolicyAnswerView::Tree(list));
            let after = after_policy_answers(state, answers);
            &&& after.asked is WriteLow || after.asked is Finished ==> forall|pid: u32| #[trigger]
                list.contains(pid) ==> {
                    ||| pid == start.self_pid
                    ||| after.moved.contains_key(pid)
                    ||| all_kept_out(state, answers).contains(pid)
                }
            &&& after.asked is Migrate ==> list.contains(after.asked->Migrate_0)
        }),
{
    lemma_sees_to(start, list, answers);
    let state = policy_answered(start, PolicyAnswerView::Tree(list));
    let after = after_policy_answers(state, answers);
    if after.progress is Migrating {
        assert(waiting_to_move(after).contains(waiting_to_move(after)[0]));
    }
}

/// How many processes the answers list.
pub open spec fn listed(answers: Seq<PolicyAnswerView>) -> nat
    decreases answers.len(),
{
    if answers.len() == 0 {
        0
    } else {
        listed(answers.drop_last()) + match answers.last() {
            PolicyAnswerView::Tree(pids) => pids.len(),
            _ => 0,
        }
    }
}

/// The most answers that an update can still take, apart from those about
/// processes yet to be listed.
spec fn answers_left(state: PolicyView) -> nat {
    match state.progress {
        ProgressView::Idle => 0,
        ProgressView::Pruning { wanted, unchecked, alive } => 3 * unchecked.len() + 2 * alive.len()
            + 2,
        ProgressView::Checking { wanted, pids } => 2 * pids.len() + 2,
        ProgressView::Restoring { wanted, pids } => 2 * pids.len() + 3,
        ProgressView::Listing => 2,
        ProgressView::Locating { pids } => 2 * pids.len() + 1,
        ProgressView::Migrating { pids, origin } => 2 * pids.len(),
        ProgressView::Writing => 1,
    }
}

proof fn lemma_migrating_left(state: PolicyView, pids: Seq<u32>)
    ensures
        answers_left(migrating(state, pids)) <= 2 * pids.len() + 1,
    decreases pids.len(),
{
    if pids.len() > 0 {
        lemma_migrating_left(state, pids.skip(1));
    }
}

proof fn lemma_answers_left(
    start: PolicyView,
    focused: Option<u32>,
    order: Seq<u32>,
    answers: Seq<PolicyAnswerView>,
)
    requires
        policy_sound(start),
        lists(order, start.moved.dom()),
        policy_to_the_point(updating(start, focused, order), answers),
    ensures
        ({
            let after = after_policy_answers(updating(start, focused, order), answers);
            &&& policy_sound(after)
            &&& answers.len() + answers_left(after) <= 3 * order.len() + 2 + 2 * listed(answers)
        }),
    decreases answers.len(),
{
    let state = updating(start, focused, order);
    if answers.len() == 0 {
        updates_keep_the_policy_sound(start, focused, order);
    } else {
        let before = answers.drop_last();
        lemma_answers_left(start, focused, order, before);
        let mid = after_policy_answers(state, before);
        answers_keep_the_policy_sound(mid, answers.last());
        match (mid.progress, answers.last()) {
            (ProgressView::Listing, PolicyAnswerView::Tree(pids)) => {
                lemma_migrating_left(mid, pids);
            },
            (ProgressView::Locating { pids }, PolicyAnswerView::Origin(_)) => {
                lemma_migrating_left(mid, pids.skip(1));
            },
            (ProgressView::Migrating { pids, origin }, PolicyAnswerView::Moved(_)) => {
                lemma_migrating_left(mid, pids.skip(1));
                lemma_migrating_left(
                    PolicyView { moved: mid.moved.insert(pids[0], origin), ..mid },
                    pids.skip(1),
                );
            },
            _ => {},
        }
    }
}

/// An update comes to an end: it takes at most three answers for each process
/// on record, two for each that is listed, and two more.
pub proof fn an_update_ends(
    start: PolicyView,
    focused: Option<u32>,
    order: Seq<u32>,
    answers: Seq<PolicyAnswerView>,
)
    requires
        policy_sound(start),
        lists(order, start.moved.dom()),
        policy_to_the_point(updating(start, focused, order), answers),
    ensures
        answers.len() <= 3 * start.moved.dom().len() + 2 * listed(answers) + 2,
{
    lemma_answers_left(start, focused, order, answers);
    order.unique_seq_to_set();
}

/// Without a focus no process is on record.
pub proof fn nobody_is_on_record_without_a_focus(state: PolicyView)
    requires
        policy_sound(state),
        state.focused is None,
    ensures
        state.moved == Map::<u32, Seq<Seq<char>>>::empty(),
{
    assert(state.moved == Map::<u32, Seq<Seq<char>>>::empty());
}

/// What is on record stays there, unchanged, while processes are moved and
/// amounts are written.
pub proof fn records_stay_until_the_next_update(
    state: PolicyView,
    answers: Seq<PolicyAnswerView>,
)
    requires
        policy_sound(state),
        past_restoring(state),
    ensures
        ({
            let after = after_policy_answers(state, answers);
            &&& policy_sound(after)
            &&& past_restoring(after)
            &&& after.dedicated == state.dedicated
            &&& after.focused_limits == state.focused_limits
            &&& after.unfocused_limits == state.unfocused_limits
            &&& after.focused == state.focused
            &&& after.self_pid == state.self_pid
            &&& forall|pid: u32| #[trigger]
                state.moved.contains_key(pid) ==> {
                    &&& after.moved.contains_key(pid)
                    &&& after.moved[pid] == state.moved[pid]
                }
        }),
    decreases answers.len(),
{
    if answers.len() > 0 {
        records_stay_until_the_next_update(state, answers.drop_last());
        let mid = after_policy_answers(state, answers.drop_last());
        answers_keep_the_policy_sound(mid, answers.last());
        match (mid.progress, answers.last()) {
            (ProgressView::Listing, PolicyAnswerView::Tree(pids)) => {
                lemma_migrating_keeps(mid, pids);
            },
            (ProgressView::Locating { pids }, PolicyAnswerView::Origin(_)) => {
                lemma_migrating_keeps(mid, pids.skip(1));
            },
            (ProgressView::Migrating { pids, origin }, PolicyAnswerView::Moved(_)) => {
                lemma_migrating_keeps(mid, pids.skip(1));
                lemma_migrating_keeps(
                    PolicyView { moved: mid.moved.insert(pids[0], origin), ..mid },
                    pids.skip(1),
                );
            },
            _ => {},
        }
    }
}

/// A process that was found in a control group other than the dedicated one is
/// asked to be moved, and when that succeeds it is on record with exactly the
/// control group that it was found in. Every other record is as it was. Where
/// it fails, where the process is in the dedicated control group already, and
/// where it is not known where it is, nothing is recorded.
pub proof fn what_is_recorded_is_where_it_was_found(
    state: PolicyView,
    pid: u32,
    origin: Seq<Seq<char>>,
)
    requires
        policy_sound(state),
        state.asked == PolicyAskView::Origin(pid),
    ensures
        policy_answered(state, PolicyAnswerView::Origin(None)).moved == state.moved,
        Some(origin) == state.dedicated ==> policy_answered(
            state,
            PolicyAnswerView::Origin(Some(origin)),
        ).moved == state.moved,
        Some(origin) != state.dedicated ==> {
            let found = policy_answered(state, PolicyAnswerView::Origin(Some(origin)));
            &&& Some(found.asked) == match state.dedicated {
                Some(dedicated) => Some(PolicyAskView::Migrate(pid, dedicated)),
                None => None,
            }
            &&& found.moved == state.moved
            &&& policy_answered(found, PolicyAnswerView::Moved(true)).moved == state.moved.insert(
                pid,
                origin,
            )
            &&& policy_answered(found, PolicyAnswerView::Moved(false)).moved == state.moved
        },
{
    match state.progress {
        ProgressView::Locating { pids } => {
            lemma_migrating_keeps(state, pids.skip(1));
            let found = policy_answered(state, PolicyAnswerView::Origin(Some(origin)));
            lemma_migrating_keeps(found, pids.skip(1));
            lemma_migrating_keeps(
                PolicyView { moved: found.moved.insert(pids[0], origin), ..found },
                pids.skip(1),
            );
        },
        _ => {},
    }
}

/// A process that is moved away from a control group is moved back into that
/// one: whatever is answered in between, when another window is focused and the
/// processes of the one before have been dealt with, either it was asked to be
/// moved back to where it had been found or it was said to have ended.
pub proof fn processes_return_to_where_they_were_found(
    state: PolicyView,
    pid: u32,
    origin: Seq<Seq<char>>,
    between: Seq<PolicyAnswerView>,
    focused: Option<u32>,
    order: Seq<u32>,
    answers: Seq<PolicyAnswerView>,
)
    requires
        policy_sound(state),
        state.asked == PolicyAskView::Origin(pid),
        Some(origin) != state.dedicated,
        cgroup::in_hierarchy(origin),
        ({
            let found = policy_answered(state, PolicyAnswerView::Origin(Some(origin)));
            let moved = policy_answered(found, PolicyAnswerView::Moved(true));
            let start = after_policy_answers(moved, between);
            &&& lists(order, start.moved.dom())
            &&& focused != start.focused
            &&& focused == Some(state.self_pid) ==> start.focused is Some
            &&& past_restoring(after_policy_answers(updating(start, focused, order), answers))
        }),
    ensures
        ({
            let found = policy_answered(state, PolicyAnswerView::Origin(Some(origin)));
            let moved = policy_answered(found, PolicyAnswerView::Moved(true));
            let start = after_policy_answers(moved, between);
            ||| all_moved_back(updating(start, focused, order), answers).contains((pid, origin))
            ||| all_ended(updating(start, focused, order), answers).contains(pid)
        }),
{
    let found = policy_answered(state, PolicyAnswerView::Origin(Some(origin)));
    let moved = policy_answered(found, PolicyAnswerView::Moved(true));
    let start = after_policy_answers(moved, between);
    what_is_recorded_is_where_it_was_found(state, pid, origin);
    answers_keep_the_policy_sound(state, PolicyAnswerView::Origin(Some(origin)));
    answers_keep_the_policy_sound(found, PolicyAnswerView::Moved(true));
    assert(past_restoring(moved) && enabled(moved) && moved.self_pid == state.self_pid) by {
        match found.progress {
            ProgressView::Migrating { pids, origin } => {
                lemma_migrating_keeps(
                    PolicyView { moved: found.moved.insert(pids[0], origin), ..found },
                    pids.skip(1),
                );
            },
            _ => {},
        }
    }
    records_stay_until_the_next_update(moved, between);
    assert(moved.moved.contains_key(pid));
    a_change_of_focus_moves_everyone_back(start, focused, order, answers, pid);
}

/// Of the processes that wait to be moved, the first that may be moved is asked
/// about, and where there is none the amounts are written.
pub proof fn the_first_that_may_be_moved_is_next(state: PolicyView, pids: Seq<u32>, i: int)
    requires
        0 <= i <= pids.len(),
        forall|j: int|
            0 <= j < i ==> #[trigger] pids[j] == state.self_pid || state.moved.contains_key(
                pids[j],
            ),
        i < pids.len() ==> pids[i] != state.self_pid && !state.moved.contains_key(pids[i]),
    ensures
        i < pids.len() ==> migrating(state, pids).asked == PolicyAskView::Origin(pids[i]),
        i == pids.len() ==> migrating(state, pids) == writing(state),
    decreases pids.len(),
{
    if i > 0 {
        assert(pids[0] == state.self_pid || state.moved.contains_key(pids[0]));
        assert forall|j: int| 0 <= j < i - 1 implies #[trigger] pids.skip(1)[j] == state.self_pid
            || state.moved.contains_key(pids.skip(1)[j]) by {
            assert(pids.skip(1)[j] == pids[j + 1]);
        }
        the_first_that_may_be_moved_is_next(state, pids.skip(1), i - 1);
    }
}

/// The processes are taken in the order in which they were listed: after the
/// list, after each that is not moved and after each that was moved or could not
/// be, the first of the rest that may be moved is asked about.
pub proof fn processes_are_taken_in_order(state: PolicyView, pids: Seq<u32>, origin: Seq<Seq<char>>)
    requires
        pids.len() > 0,
    ensures
        state.progress is Listing ==> policy_answered(state, PolicyAnswerView::Tree(pids))
            == migrating(state, pids),
        state.progress == (ProgressView::Locating { pids }) ==> policy_answered(
            state,
            PolicyAnswerView::Origin(None),
        ) == migrating(state, pids.skip(1)),
        state.progress == (ProgressView::Locating { pids }) && state.dedicated == Some(origin)
            ==> policy_answered(state, PolicyAnswerView::Origin(Some(origin))) == migrating(
            state,
            pids.skip(1),
        ),
        state.progress == (ProgressView::Migrating { pids, origin }) ==> policy_answered(
            state,
            PolicyAnswerView::Moved(false),
        ) == migrating(state, pids.skip(1)),
        state.progress == (ProgressView::Migrating { pids, origin }) ==> policy_answered(
            state,
            PolicyAnswerView::Moved(true),
        ) == migrating(
            PolicyView { moved: state.moved.insert(pids[0], origin), ..state },
            pids.skip(1),
        ),
{
}

/// When the policy is done with the processes of the window before, it asks for
/// the processes of the window it holds for the focused one, and where none is
/// focused it asks for the amounts of that state to be written.
pub proof fn what_follows_the_window_before(
    state: PolicyView,
    answer: PolicyAnswerView,
    focused: Option<u32>,
    order: Seq<u32>,
)
    requires
        policy_sound(state),
        enabled(state),
    ensures
        ({
            let after = policy_answered(state, answer);
            !past_restoring(state) && past_restoring(after) ==> match after.focused {
                Some(pid) => after.asked == PolicyAskView::Tree(pid),
                None => after.asked == PolicyAskView::WriteLow(
                    state.dedicated->0,
                    state.unfocused_limits->0,
                ),
            }
        }),
        ({
            let after = updating(state, focused, order);
            past_restoring(after) ==> match after.focused {
                Some(pid) => after.asked == PolicyAskView::Tree(pid),
                None => after.asked == PolicyAskView::WriteLow(
                    state.dedicated->0,
                    state.unfocused_limits->0,
                ),
            }
        }),
{
}

/// The policy's own window counts as none. Every other is held for the focused
/// one when the processes of the one before have been dealt with.
pub proof fn the_own_window_counts_as_none(state: PolicyView, focused: Option<u32>, order: Seq<u32>)
    ensures
        updating(state, Some(state.self_pid), order) == updating(state, None, order),
        held(None, state.self_pid) is None,
        held(Some(state.self_pid), state.self_pid) is None,
        focused != Some(state.self_pid) ==> held(focused, state.self_pid) == focused,
        order.len() == 0 && enabled(state) && focused != Some(state.self_pid) ==> updating(
            state,
            focused,
            order,
        ).focused == focused,
        order.len() > 0 && enabled(state) ==> updating(state, focused, order).asked
            == PolicyAskView::Exists(order[0]),
        order.len() > 0 && enabled(state) ==> updating(state, focused, order).focused
            == state.focused,
{
}

/// Of each process on record it is asked whether it exists. One that does not is
/// forgotten, and one that does stays on record.
pub proof fn processes_that_ended_are_forgotten(
    state: PolicyView,
    wanted: Option<u32>,
    unchecked: Seq<u32>,
    alive: Seq<u32>,
    yes: bool,
)
    requires
        state.progress == (ProgressView::Pruning { wanted, unchecked, alive }),
        unchecked.len() > 0,
    ensures
        ({
            let after = policy_answered(state, PolicyAnswerView::Exists(yes));
            let kept = if yes {
                alive.push(unchecked[0])
            } else {
                alive
            };
            &&& yes ==> after.moved == state.moved
            &&& !yes ==> after.moved == state.moved.remove(unchecked[0])
            &&& unchecked.len() > 1 ==> after.asked == PolicyAskView::Exists(unchecked[1])
            &&& unchecked.len() > 1 ==> after.focused == state.focused
            &&& unchecked.len() == 1 && state.focused == wanted ==> after.focused == wanted
            &&& unchecked.len() == 1 && state.focused == wanted ==> past_restoring(after)
            &&& unchecked.len() == 1 && state.focused != wanted && kept.len() > 0 ==> after.asked
                == PolicyAskView::Exists(kept[0])
            &&& unchecked.len() == 1 && state.focused != wanted && kept.len() == 0
                ==> after.focused == wanted && past_restoring(after)
        }),
{
}

/// A process of the window before that still exists is asked to be moved back to
/// what is on record for it, if that is in the hierarchy. It is forgotten either
/// way, and whether the move succeeded is of no concern.
pub proof fn processes_are_moved_back_one_by_one(
    state: PolicyView,
    wanted: Option<u32>,
    pids: Seq<u32>,
    yes: bool,
)
    requires
        policy_sound(state),
    ensures
        state.progress == (ProgressView::Checking { wanted, pids }) ==> {
            let after = policy_answered(state, PolicyAnswerView::Exists(yes));
            let from = state.moved[pids[0]];
            &&& after.moved == state.moved.remove(pids[0])
            &&& yes && cgroup::in_hierarchy(from) ==> after.asked == PolicyAskView::Restore(
                pids[0],
                from,
            )
            &&& !yes || !cgroup::in_hierarchy(from) ==> if pids.len() > 1 {
                after.asked == PolicyAskView::Exists(pids[1]) && after.focused == state.focused
            } else {
                after.focused == wanted && past_restoring(after)
            }
        },
        state.progress == (ProgressView::Restoring { wanted, pids }) ==> {
            let after = policy_answered(state, PolicyAnswerView::Moved(yes));
            &&& after.moved == state.moved
            &&& if pids.len() > 0 {
                after.asked == PolicyAskView::Exists(pids[0]) && after.focused == state.focused
            } else {
                after.focused == wanted && past_restoring(after)
            }
        },
{
    match state.progress {
        ProgressView::Checking { wanted, pids } => {
            assert(pids.to_set().contains(pids[0]));
            assert(state.moved.contains_key(pids[0]));
        },
        _ => {},
    }
}

/// All of the device memory is protected while a window is focused and none of
/// it while none is, where the place and the amounts are known. The policy is
/// enabled where they are. A fresh one has no focus and no record.
pub proof fn all_or_nothing_is_protected(
    dedicated: Seq<Seq<char>>,
    limits: Seq<(Seq<char>, u64)>,
    self_pid: u32,
    pid: u32,
)
    ensures
        ({
            let state = fresh(Some(dedicated), Some(limits), self_pid);
            let focused = PolicyView { focused: Some(pid), ..state };
            &&& enabled(state)
            &&& state.focused is None
            &&& state.moved == Map::<u32, Seq<Seq<char>>>::empty()
            &&& state.dedicated == Some(dedicated)
            &&& state.focused_limits == Some(limits)
            &&& state.self_pid == self_pid
            &&& state.asked is Finished
            &&& limits_to_write(focused) == Some((dedicated, limits))
            &&& limits_to_write(state) == match state.unfocused_limits {
                Some(none) => Some((dedicated, none)),
                None => None,
            }
            &&& state.unfocused_limits is Some
            &&& state.unfocused_limits->0.len() == limits.len()
            &&& forall|i: int|
                #![trigger state.unfocused_limits->0[i]]
                0 <= i < limits.len() ==> state.unfocused_limits->0[i] == (limits[i].0, 0u64)
        }),
        !enabled(fresh(None, Some(limits), self_pid)),
        !enabled(fresh(Some(dedicated), None, self_pid)),
        !enabled(fresh(None, None, self_pid)),
{
}

/// An answer that is beside the question changes nothing, and the amounts being
/// written ends the update without changing what the policy holds.
pub proof fn answers_beside_the_question_change_nothing(
    state: PolicyView,
    answer: PolicyAnswerView,
)
    requires
        policy_sound(state),
    ensures
        !policy_fits(state.asked, answer) ==> policy_answered(state, answer) == state,
        state.asked is WriteLow && answer is Written ==> {
            let after = policy_answered(state, answer);
            &&& after.asked is Finished
            &&& after.moved == state.moved
            &&& after.focused == state.focused
        },
{
}

/// Where a process came from is taken as it is, for each process, and so are the
/// place and the amounts.
pub proof fn records_keep_everything(
    moved: Map<u32, CGroup>,
    pid: u32,
    place: CGroup,
    limits: DMemLimit,
)
    ensures
        moved_view(moved).contains_key(pid) == moved.contains_key(pid),
        moved.contains_key(pid) ==> moved_view(moved)[pid] == moved[pid]@,
        place_view(Some(place)) == Some(place@),
        place_view(None) is None,
        limit_view(Some(limits)) == Some(limits@),
        limit_view(None) is None,
        write_view(Some((place, limits))) == Some((place@, limits@)),
        write_view(None) is None,
{
}

/// No update and no answer changes the place, the amounts or which process is
/// the policy's own.
pub proof fn the_policy_keeps_its_place(
    state: PolicyView,
    answer: PolicyAnswerView,
    focused: Option<u32>,
    order: Seq<u32>,
)
    ensures
        ({
            let after = policy_answered(state, answer);
            &&& after.dedicated == state.dedicated
            &&& after.focused_limits == state.focused_limits
            &&& after.unfocused_limits == state.unfocused_limits
            &&& after.self_pid == state.self_pid
        }),
        ({
            let after = updating(state, focused, order);
            &&& after.dedicated == state.dedicated
            &&& after.focused_limits == state.focused_limits
            &&& after.unfocused_limits == state.unfocused_limits
            &&& after.self_pid == state.self_pid
            &&& after.moved == state.moved
        }),
{
    match (state.progress, answer) {
        (ProgressView::Listing, PolicyAnswerView::Tree(pids)) => {
            lemma_migrating_keeps(state, pids);
        },
        (ProgressView::Locating { pids }, PolicyAnswerView::Origin(_)) => {
            lemma_migrating_keeps(state, pids.skip(1));
        },
        (ProgressView::Migrating { pids, origin }, PolicyAnswerView::Moved(_)) => {
            lemma_migrating_keeps(state, pids.skip(1));
            lemma_migrating_keeps(
                PolicyView { moved: state.moved.insert(pids[0], origin), ..state },
                pids.skip(1),
            );
        },
        _ => {},
    }
}

/// A fresh policy holds what it was given, whatever is missing of it.
pub proof fn a_fresh_policy_holds_what_it_was_given(
    dedicated: Option<Seq<Seq<char>>>,
    capacity: Option<Seq<(Seq<char>, u64)>>,
    self_pid: u32,
)
    ensures
        ({
            let state = fresh(dedicated, capacity, self_pid);
            &&& state.dedicated == dedicated
            &&& state.focused_limits == capacity
            &&& state.unfocused_limits is Some == capacity is Some
            &&& state.focused is None
            &&& state.moved == Map::<u32, Seq<Seq<char>>>::empty()
            &&& state.self_pid == self_pid
            &&& state.progress is Idle
            &&& state.asked is Finished
            &&& enabled(state) <==> dedicated is Some && capacity is Some
        }),
{
}

} // verus!
