//! Activating the `dmem` controller in a control group and the groups above
//! it, as a run that asks for one thing after another.
//!
//! A run never touches a control group itself. It says in [`Activation::asked`]
//! what it wants to know or to have done, and goes on when
//! [`Activation::answer`] tells it what came of that.

use crate::cgroup;
use crate::cgroup::{user_slice_id, CGroup, DMemLimit};
use crate::text;
use vstd::prelude::*;

verus! {

// ---------------------------------------------------------------------------
// Questions and answers
// ---------------------------------------------------------------------------

/// What came of adding a controller.
#[derive(Clone, Copy, Debug, PartialEq, Eq, Structural)]
pub enum AddOutcome {
    Added,
    NotFound,
    Failed,
}

/// What a run asks for.
#[derive(Debug)]
pub enum Ask {
    /// The controllers that are active for the children of the control group.
    Controllers(CGroup),
    /// The control groups below.
    Descendants(CGroup),
    /// That `dmem` be activated for the children of the control group.
    AddDmem(CGroup),
    /// The device memory there is.
    Capacity,
    /// That the amounts be protected in the control group.
    WriteLow(CGroup, DMemLimit),
    /// Nothing more.
    Finished,
}

/// What the caller answers.
#[derive(Debug)]
pub enum Answer {
    Controllers(Option<Vec<String>>),
    Descendants(Vec<CGroup>),
    Added(AddOutcome),
    Capacity(Option<DMemLimit>),
    Written,
}

#[verifier::ext_equal]
pub enum AskView {
    Controllers(Seq<Seq<char>>),
    Descendants(Seq<Seq<char>>),
    AddDmem(Seq<Seq<char>>),
    Capacity,
    WriteLow(Seq<Seq<char>>, Seq<(Seq<char>, u64)>),
    Finished,
}

#[verifier::ext_equal]
pub enum AnswerView {
    Controllers(Option<Seq<Seq<char>>>),
    Descendants(Seq<Seq<Seq<char>>>),
    Added(AddOutcome),
    Capacity(Option<Seq<(Seq<char>, u64)>>),
    Written,
}

impl View for Ask {
    type V = AskView;

    open spec fn view(&self) -> AskView {
        match *self {
            Ask::Controllers(g) => AskView::Controllers(g@),
            Ask::Descendants(g) => AskView::Descendants(g@),
            Ask::AddDmem(g) => AskView::AddDmem(g@),
            Ask::Capacity => AskView::Capacity,
            Ask::WriteLow(g, limits) => AskView::WriteLow(g@, limits@),
            Ask::Finished => AskView::Finished,
        }
    }
}

impl View for Answer {
    type V = AnswerView;

    open spec fn view(&self) -> AnswerView {
        match *self {
            Answer::Controllers(Some(names)) => AnswerView::Controllers(
                Some(text::texts(names@)),
            ),
            Answer::Controllers(None) => AnswerView::Controllers(None),
            Answer::Descendants(list) => AnswerView::Descendants(cgroup::cgroup_views(list@)),
            Answer::Added(outcome) => AnswerView::Added(outcome),
            Answer::Capacity(Some(limits)) => AnswerView::Capacity(Some(limits@)),
            Answer::Capacity(None) => AnswerView::Capacity(None),
            Answer::Written => AnswerView::Written,
        }
    }
}

/// The answer is one to that question.
pub open spec fn fits(ask: AskView, answer: AnswerView) -> bool {
    match ask {
        AskView::Controllers(_) => answer is Controllers,
        AskView::Descendants(_) => answer is Descendants,
        AskView::AddDmem(_) => answer is Added,
        AskView::Capacity => answer is Capacity,
        AskView::WriteLow(_, _) => answer is Written,
        AskView::Finished => false,
    }
}

// ---------------------------------------------------------------------------
// Activating the controller in one control group
// ---------------------------------------------------------------------------

/// What has just come about while the controller is being activated in a
/// control group.
#[derive(Clone, Copy, Debug, PartialEq, Eq, Structural)]
pub enum TryEvent {
    Start,
    /// The control group above has been dealt with.
    ParentDone,
    /// Whether there are control groups below.
    Descendants(bool),
    /// Whether any controller is active.
    Controllers(bool),
    /// The outcome of the first attempt, or of the second.
    Added(AddOutcome, bool),
    /// The control group above has been dealt with once more.
    ParentDoneAgain,
}

/// What is to be done next.
#[derive(Clone, Copy, Debug, PartialEq, Eq, Structural)]
pub enum TryMove {
    Parent,
    Descendants,
    Controllers,
    Add,
    ParentAgain,
    AddAgain,
    /// The activation is over, and whether it came to no error.
    Done(bool),
}

/// What follows an event while the controller is being activated.
///
/// The control group above comes first. The system's service manager then
/// leaves the control groups of users alone, and nobody activates a controller
/// in a control group with neither children nor controllers. An attempt that
/// finds no such controller is made once more after the control group above
/// has been dealt with again.
pub open spec fn try_move(names: Seq<Seq<char>>, system: bool, event: TryEvent) -> TryMove {
    let parent = cgroup::parent_of(names) is Some;
    let off_limits = system && cgroup::user_above(names) is Some;
    match event {
        TryEvent::Start => if parent {
            TryMove::Parent
        } else if off_limits {
            TryMove::Done(true)
        } else {
            TryMove::Descendants
        },
        TryEvent::ParentDone => if off_limits {
            TryMove::Done(true)
        } else {
            TryMove::Descendants
        },
        TryEvent::Descendants(any) => if any {
            TryMove::Add
        } else {
            TryMove::Controllers
        },
        TryEvent::Controllers(any) => if any {
            TryMove::Add
        } else {
            TryMove::Done(true)
        },
        TryEvent::Added(AddOutcome::Added, _) => TryMove::Done(true),
        TryEvent::Added(AddOutcome::NotFound, again) => if !again && parent {
            TryMove::ParentAgain
        } else {
            TryMove::Done(false)
        },
        TryEvent::Added(AddOutcome::Failed, _) => TryMove::Done(false),
        TryEvent::ParentDoneAgain => TryMove::AddAgain,
    }
}

/// Decides what follows an event while the controller is being activated in
/// `cgroup`.
pub fn try_activate_dmem_controller(cgroup: &CGroup, system: bool, event: TryEvent) -> (next:
    TryMove)
    ensures
        next == try_move(cgroup@, system, event),
{
    match event {
        TryEvent::Start => {
            if cgroup.parent().is_some() {
                TryMove::Parent
            } else if system && user_slice_id(cgroup).is_some() {
                TryMove::Done(true)
            } else {
                TryMove::Descendants
            }
        },
        TryEvent::ParentDone => {
            if system && user_slice_id(cgroup).is_some() {
                TryMove::Done(true)
            } else {
                TryMove::Descendants
            }
        },
        TryEvent::Descendants(any) => {
            if any {
                TryMove::Add
            } else {
                TryMove::Controllers
            }
        },
        TryEvent::Controllers(any) => {
            if any {
                TryMove::Add
            } else {
                TryMove::Done(true)
            }
        },
        TryEvent::Added(AddOutcome::Added, _) => TryMove::Done(true),
        TryEvent::Added(AddOutcome::NotFound, again) => {
            if !again && cgroup.parent().is_some() {
                TryMove::ParentAgain
            } else {
                TryMove::Done(false)
            }
        },
        TryEvent::Added(AddOutcome::Failed, _) => TryMove::Done(false),
        TryEvent::ParentDoneAgain => TryMove::AddAgain,
    }
}

// ---------------------------------------------------------------------------
// Seeing to one control group
// ---------------------------------------------------------------------------

/// What has just come about while a control group is being seen to.
#[derive(Clone, Copy, Debug, PartialEq, Eq, Structural)]
pub enum PropagationEvent {
    /// Whether `dmem` is among the active controllers, if they could be read.
    Controllers(Option<bool>),
    /// The activation is over, and whether it came to no error.
    Activated(bool),
}

/// What is to be done next.
#[derive(Clone, Copy, Debug, PartialEq, Eq, Structural)]
pub enum PropagationMove {
    Activate,
    /// The device memory there is is to be protected.
    Protect,
    Done,
}

/// The name of the service that holds what a user runs.
pub open spec fn user_service_name(id: Seq<char>) -> Seq<char> {
    "user@"@ + id + ".service"@
}

/// Device memory is to be protected in the control group: in every one outside
/// the slices of users, and in those that lead to the applications of a user
/// when the user's own service manager is served.
pub open spec fn limit_due(names: Seq<Seq<char>>, system: bool) -> bool {
    match cgroup::parent_of(names) {
        Some(parent) => match cgroup::user_above(parent) {
            Some(id) => {
                &&& !system
                &&& cgroup::name_of(names) == "app.slice"@ || cgroup::name_of(names)
                    == user_service_name(id)
            },
            None => true,
        },
        None => true,
    }
}

/// What follows an event while a control group is being seen to.
pub open spec fn propagation_move(
    names: Seq<Seq<char>>,
    system: bool,
    write_limits: bool,
    event: PropagationEvent,
) -> PropagationMove {
    let active = if write_limits && limit_due(names, system) {
        PropagationMove::Protect
    } else {
        PropagationMove::Done
    };
    match event {
        PropagationEvent::Controllers(None) => PropagationMove::Done,
        PropagationEvent::Controllers(Some(has_dmem)) => if has_dmem {
            active
        } else {
            PropagationMove::Activate
        },
        PropagationEvent::Activated(ok) => if ok {
            active
        } else {
            PropagationMove::Done
        },
    }
}

/// Whether device memory is to be protected in `cgroup`.
pub fn is_limit_due(cgroup: &CGroup, system: bool) -> (due: bool)
    ensures
        due == limit_due(cgroup@, system),
{
    let parent = match cgroup.parent() {
        Some(parent) => parent,
        None => {
            return true;
        },
    };
    match user_slice_id(&parent) {
        Some(id) => {
            if system {
                return false;
            }
            let name = cgroup.name();
            let service = "user@".to_owned().concat(id.as_str()).concat(".service");
            name == "app.slice".to_owned() || name == service
        },
        None => true,
    }
}

/// Decides what follows an event while `cgroup` is being seen to.
pub fn next_propagation_move(
    cgroup: &CGroup,
    system: bool,
    write_limits: bool,
    event: PropagationEvent,
) -> (next: PropagationMove)
    ensures
        next == propagation_move(cgroup@, system, write_limits, event),
{
    let active = match event {
        PropagationEvent::Controllers(None) => {
            return PropagationMove::Done;
        },
        PropagationEvent::Controllers(Some(has_dmem)) => {
            if !has_dmem {
                return PropagationMove::Activate;
            }
            true
        },
        PropagationEvent::Activated(ok) => ok,
    };
    if active && write_limits && is_limit_due(cgroup, system) {
        PropagationMove::Protect
    } else {
        PropagationMove::Done
    }
}

// ---------------------------------------------------------------------------
// Runs
// ---------------------------------------------------------------------------

/// How far a control group has been seen to.
#[derive(Clone, Copy, Debug, PartialEq, Eq, Structural)]
pub enum Stage {
    Controllers,
    Parent,
    Descendants,
    OwnControllers,
    Adding,
    ParentAgain,
    AddingAgain,
    Capacity,
    Writing,
}

/// A control group that is being seen to.
#[derive(Debug)]
pub struct Level {
    pub cgroup: CGroup,
    pub stage: Stage,
}

#[verifier::ext_equal]
pub struct LevelView {
    pub cgroup: Seq<Seq<char>>,
    pub stage: Stage,
}

impl View for Level {
    type V = LevelView;

    open spec fn view(&self) -> LevelView {
        LevelView { cgroup: self.cgroup@, stage: self.stage }
    }
}

/// A run over control groups.
#[derive(Debug)]
pub struct Activation {
    /// The run is made for the system's service manager.
    system: bool,
    /// Device memory is to be protected as well.
    write_limits: bool,
    /// The control groups being seen to, each above the one before it.
    levels: Vec<Level>,
    /// The control group whose descendants have been asked for.
    visiting: Option<CGroup>,
    /// The control groups still to be visited, first come first.
    waiting: Vec<CGroup>,
    /// What the run asks for.
    asked: Ask,
}

#[verifier::ext_equal]
pub struct ActivationView {
    pub system: bool,
    pub write_limits: bool,
    pub levels: Seq<LevelView>,
    pub visiting: Option<Seq<Seq<char>>>,
    pub waiting: Seq<Seq<Seq<char>>>,
    pub asked: AskView,
}

pub open spec fn level_views(levels: Seq<Level>) -> Seq<LevelView> {
    levels.map_values(|l: Level| l@)
}

impl View for Activation {
    type V = ActivationView;

    closed spec fn view(&self) -> ActivationView {
        ActivationView {
            system: self.system,
            write_limits: self.write_limits,
            levels: level_views(self.levels@),
            visiting: match self.visiting {
                Some(g) => Some(g@),
                None => None,
            },
            waiting: cgroup::cgroup_views(self.waiting@),
            asked: self.asked@,
        }
    }
}

/// A run with nothing to do.
pub open spec fn idle_run(system: bool, write_limits: bool) -> ActivationView {
    ActivationView {
        system,
        write_limits,
        levels: seq![],
        visiting: None,
        waiting: seq![],
        asked: AskView::Finished,
    }
}

/// The run with the last control group at another stage.
pub open spec fn staged(run: ActivationView, stage: Stage, asked: AskView) -> ActivationView {
    ActivationView {
        levels: run.levels.drop_last().push(LevelView { stage, ..run.levels.last() }),
        asked,
        ..run
    }
}

/// The run as it begins to see to one more control group.
pub open spec fn entered(run: ActivationView, names: Seq<Seq<char>>) -> ActivationView {
    ActivationView {
        levels: run.levels.push(LevelView { cgroup: names, stage: Stage::Controllers }),
        asked: AskView::Controllers(names),
        ..run
    }
}

/// The run as it visits the next control group that waits.
pub open spec fn next_visit(run: ActivationView) -> ActivationView {
    if run.waiting.len() == 0 {
        ActivationView { visiting: None, asked: AskView::Finished, ..run }
    } else {
        ActivationView {
            visiting: Some(run.waiting[0]),
            waiting: run.waiting.skip(1),
            asked: AskView::Descendants(run.waiting[0]),
            ..run
        }
    }
}

/// The run after what was decided about activating the controller in the last
/// control group.
pub open spec fn after_try(run: ActivationView, next: TryMove) -> ActivationView
    decreases run.levels.len(), 2int,
{
    if run.levels.len() == 0 {
        run
    } else {
        let g = run.levels.last().cgroup;
        match next {
            TryMove::Parent => match cgroup::parent_of(g) {
                Some(parent) => entered(staged(run, Stage::Parent, run.asked), parent),
                None => run,
            },
            TryMove::Descendants => staged(run, Stage::Descendants, AskView::Descendants(g)),
            TryMove::Controllers => staged(run, Stage::OwnControllers, AskView::Controllers(g)),
            TryMove::Add => staged(run, Stage::Adding, AskView::AddDmem(g)),
            TryMove::ParentAgain => match cgroup::parent_of(g) {
                Some(parent) => entered(staged(run, Stage::ParentAgain, run.asked), parent),
                None => run,
            },
            TryMove::AddAgain => staged(run, Stage::AddingAgain, AskView::AddDmem(g)),
            TryMove::Done(ok) => after_propagation(
                run,
                propagation_move(g, run.system, run.write_limits, PropagationEvent::Activated(ok)),
            ),
        }
    }
}

/// The run after what was decided about the last control group.
pub open spec fn after_propagation(run: ActivationView, next: PropagationMove) -> ActivationView
    decreases
            run.levels.len(),
            if next is Activate {
                3int
            } else {
                1int
            },
{
    if run.levels.len() == 0 {
        run
    } else {
        match next {
            PropagationMove::Activate => after_try(
                run,
                try_move(run.levels.last().cgroup, run.system, TryEvent::Start),
            ),
            PropagationMove::Protect => staged(run, Stage::Capacity, AskView::Capacity),
            PropagationMove::Done => left(run),
        }
    }
}

/// The run after the last control group has been seen to.
pub open spec fn left(run: ActivationView) -> ActivationView
    decreases run.levels.len(), 0int,
{
    if run.levels.len() == 0 {
        run
    } else {
        let rest = ActivationView { levels: run.levels.drop_last(), ..run };
        if rest.levels.len() == 0 {
            next_visit(rest)
        } else {
            let below = rest.levels.last();
            match below.stage {
                Stage::Parent => after_try(
                    rest,
                    try_move(below.cgroup, run.system, TryEvent::ParentDone),
                ),
                Stage::ParentAgain => after_try(
                    rest,
                    try_move(below.cgroup, run.system, TryEvent::ParentDoneAgain),
                ),
                _ => rest,
            }
        }
    }
}

/// The run after an answer. One that is beside the question changes nothing.
pub open spec fn answered(run: ActivationView, answer: AnswerView) -> ActivationView {
    if run.levels.len() == 0 {
        match (run.visiting, answer) {
            (Some(g), AnswerView::Descendants(list)) => {
                let rest = ActivationView { visiting: None, ..run };
                if list.len() == 0 {
                    entered(rest, g)
                } else {
                    next_visit(ActivationView { waiting: list + run.waiting, ..rest })
                }
            },
            _ => run,
        }
    } else {
        let g = run.levels.last().cgroup;
        let system = run.system;
        let write_limits = run.write_limits;
        match (run.levels.last().stage, answer) {
            (Stage::Controllers, AnswerView::Controllers(names)) => after_propagation(
                run,
                propagation_move(
                    g,
                    system,
                    write_limits,
                    PropagationEvent::Controllers(
                        match names {
                            Some(names) => Some(names.contains("dmem"@)),
                            None => None,
                        },
                    ),
                ),
            ),
            (Stage::Descendants, AnswerView::Descendants(list)) => after_try(
                run,
                try_move(g, system, TryEvent::Descendants(list.len() > 0)),
            ),
            (Stage::OwnControllers, AnswerView::Controllers(names)) => after_try(
                run,
                try_move(
                    g,
                    system,
                    TryEvent::Controllers(
                        match names {
                            Some(names) => names.len() > 0,
                            None => false,
                        },
                    ),
                ),
            ),
            (Stage::Adding, AnswerView::Added(outcome)) => after_try(
                run,
                try_move(g, system, TryEvent::Added(outcome, false)),
            ),
            (Stage::AddingAgain, AnswerView::Added(outcome)) => after_try(
                run,
                try_move(g, system, TryEvent::Added(outcome, true)),
            ),
            (Stage::Capacity, AnswerView::Capacity(limits)) => match limits {
                Some(limits) => staged(run, Stage::Writing, AskView::WriteLow(g, limits)),
                None => left(run),
            },
            (Stage::Writing, AnswerView::Written) => left(run),
            _ => run,
        }
    }
}

/// The run that sees to one control group.
pub open spec fn propagating(
    names: Seq<Seq<char>>,
    system: bool,
    write_limits: bool,
) -> ActivationView {
    entered(idle_run(system, write_limits), names)
}

/// The run that sees to every control group at or below one that has none
/// below itself.
pub open spec fn descending(
    names: Seq<Seq<char>>,
    system: bool,
    write_limits: bool,
) -> ActivationView {
    next_visit(ActivationView { waiting: seq![names], ..idle_run(system, write_limits) })
}

/// Begins a run that sees to `cgroup`.
pub fn propagate_dmem_activation(cgroup: CGroup, system: bool, write_limits: bool) -> (run:
    Activation)
    ensures
        run@ == propagating(cgroup@, system, write_limits),
        sound(run@),
{
    proof {
        lemma_starts(cgroup@, system, write_limits);
    }
    let asked = Ask::Controllers(cgroup.clone());
    let mut levels: Vec<Level> = Vec::new();
    levels.push(Level { cgroup, stage: Stage::Controllers });
    let run = Activation {
        system,
        write_limits,
        levels,
        visiting: None,
        waiting: Vec::new(),
        asked,
    };
    assert(run@ == propagating(cgroup@, system, write_limits));
    run
}

/// Begins a run that sees to every control group at or below `cgroup` that has
/// none below itself.
pub fn activate_dmem_in_descendants(cgroup: CGroup, system: bool, write_limits: bool) -> (run:
    Activation)
    ensures
        run@ == descending(cgroup@, system, write_limits),
        sound(run@),
{
    proof {
        lemma_starts(cgroup@, system, write_limits);
    }
    let asked = Ask::Descendants(cgroup.clone());
    Activation {
        system,
        write_limits,
        levels: Vec::new(),
        visiting: Some(cgroup),
        waiting: Vec::new(),
        asked,
    }
}

/// Whether `dmem` is among the controllers.
fn has_dmem(controllers: &Vec<String>) -> (yes: bool)
    ensures
        yes == text::texts(controllers@).contains("dmem"@),
{
    let ghost names = text::texts(controllers@);
    let mut i: usize = 0;
    while i < controllers.len()
        invariant
            i <= controllers.len(),
            names == text::texts(controllers@),
            forall|j: int| 0 <= j < i ==> names[j] != "dmem"@,
        decreases controllers.len() - i,
    {
        assert(names[i as int] == controllers@[i as int]@);
        if controllers[i] == "dmem".to_owned() {
            return true;
        }
        i += 1;
    }
    false
}

impl Activation {
    /// What the run asks for.
    pub fn asked(&self) -> (asked: &Ask)
        ensures
            asked@ == self@.asked,
    {
        &self.asked
    }

    fn stage(&mut self, stage: Stage, asked: Ask)
        requires
            old(self).levels@.len() > 0,
        ensures
            final(self)@ == staged(old(self)@, stage, asked@),
    {
        if let Some(level) = self.levels.pop() {
            self.levels.push(Level { cgroup: level.cgroup, stage });
        }
        self.asked = asked;
    }

    fn enter(&mut self, cgroup: CGroup)
        ensures
            final(self)@ == entered(old(self)@, cgroup@),
    {
        self.asked = Ask::Controllers(cgroup.clone());
        self.levels.push(Level { cgroup, stage: Stage::Controllers });
    }

    fn visit_next(&mut self)
        ensures
            final(self)@ == next_visit(old(self)@),
    {
        if self.waiting.len() == 0 {
            self.visiting = None;
            self.asked = Ask::Finished;
        } else {
            let next = self.waiting.remove(0);
            self.asked = Ask::Descendants(next.clone());
            self.visiting = Some(next);
        }
    }

    /// The control group that is being seen to.
    fn current(&self) -> (cgroup: &CGroup)
        requires
            self.levels@.len() > 0,
        ensures
            cgroup@ == self@.levels.last().cgroup,
    {
        &self.levels[self.levels.len() - 1].cgroup
    }

    fn follow_try(&mut self, next: TryMove)
        requires
            old(self).levels@.len() > 0,
        ensures
            final(self)@ == after_try(old(self)@, next),
        decreases old(self).levels@.len(), 2int,
    {
        let cgroup = self.current().clone();
        match next {
            TryMove::Parent => {
                if let Some(parent) = cgroup.parent() {
                    self.wait_for(Stage::Parent);
                    self.enter(parent);
                }
            },
            TryMove::Descendants => self.stage(Stage::Descendants, Ask::Descendants(cgroup)),
            TryMove::Controllers => self.stage(Stage::OwnControllers, Ask::Controllers(cgroup)),
            TryMove::Add => self.stage(Stage::Adding, Ask::AddDmem(cgroup)),
            TryMove::ParentAgain => {
                if let Some(parent) = cgroup.parent() {
                    self.wait_for(Stage::ParentAgain);
                    self.enter(parent);
                }
            },
            TryMove::AddAgain => self.stage(Stage::AddingAgain, Ask::AddDmem(cgroup)),
            TryMove::Done(ok) => {
                let next = next_propagation_move(
                    &cgroup,
                    self.system,
                    self.write_limits,
                    PropagationEvent::Activated(ok),
                );
                self.follow_propagation(next);
            },
        }
    }

    fn wait_for(&mut self, stage: Stage)
        requires
            old(self).levels@.len() > 0,
        ensures
            final(self)@ == staged(old(self)@, stage, old(self)@.asked),
    {
        if let Some(level) = self.levels.pop() {
            self.levels.push(Level { cgroup: level.cgroup, stage });
        }
    }

    fn follow_propagation(&mut self, next: PropagationMove)
        requires
            old(self).levels@.len() > 0,
        ensures
            final(self)@ == after_propagation(old(self)@, next),
        decreases
                old(self).levels@.len(),
                if next is Activate {
                    3int
                } else {
                    1int
                },
    {
        match next {
            PropagationMove::Activate => {
                let next = try_activate_dmem_controller(
                    self.current(),
                    self.system,
                    TryEvent::Start,
                );
                self.follow_try(next);
            },
            PropagationMove::Protect => self.stage(Stage::Capacity, Ask::Capacity),
            PropagationMove::Done => self.leave(),
        }
    }

    fn leave(&mut self)
        requires
            old(self).levels@.len() > 0,
        ensures
            final(self)@ == left(old(self)@),
        decreases old(self).levels@.len(), 0int,
    {
        self.levels.pop();
        let n: usize = self.levels.len();
        assert(self@ == (ActivationView { levels: old(self)@.levels.drop_last(), ..old(self)@ }));
        if n == 0 {
            self.visit_next();
            return;
        }
        let event = match self.levels[n - 1].stage {
            Stage::Parent => TryEvent::ParentDone,
            Stage::ParentAgain => TryEvent::ParentDoneAgain,
            _ => {
                return;
            },
        };
        let next = try_activate_dmem_controller(self.current(), self.system, event);
        self.follow_try(next);
    }

    /// Tells the run what came of its question.
    pub fn answer(&mut self, answer: Answer)
        ensures
            final(self)@ == answered(old(self)@, answer@),
            sound(old(self)@) ==> sound(final(self)@),
    {
        proof {
            if sound(self@) {
                lemma_answered(self@, answer@);
            }
        }
        if self.levels.len() == 0 {
            match answer {
                Answer::Descendants(list) => {
                    if let Some(cgroup) = self.visiting.take() {
                        if list.len() == 0 {
                            self.enter(cgroup);
                        } else {
                            let mut waiting = list;
                            waiting.append(&mut self.waiting);
                            self.waiting = waiting;
                            self.visit_next();
                        }
                    }
                },
                _ => {},
            }
            return;
        }
        let system = self.system;
        let n: usize = self.levels.len();
        match (self.levels[n - 1].stage, answer) {
            (Stage::Controllers, Answer::Controllers(names)) => {
                let seen = match &names {
                    Some(names) => Some(has_dmem(names)),
                    None => None,
                };
                let next = next_propagation_move(
                    self.current(),
                    system,
                    self.write_limits,
                    PropagationEvent::Controllers(seen),
                );
                self.follow_propagation(next);
            },
            (Stage::Descendants, Answer::Descendants(list)) => {
                let event = TryEvent::Descendants(list.len() > 0);
                let next = try_activate_dmem_controller(self.current(), system, event);
                self.follow_try(next);
            },
            (Stage::OwnControllers, Answer::Controllers(names)) => {
                let any = match &names {
                    Some(names) => names.len() > 0,
                    None => false,
                };
                let event = TryEvent::Controllers(any);
                let next = try_activate_dmem_controller(self.current(), system, event);
                self.follow_try(next);
            },
            (Stage::Adding, Answer::Added(outcome)) => {
                let event = TryEvent::Added(outcome, false);
                let next = try_activate_dmem_controller(self.current(), system, event);
                self.follow_try(next);
            },
            (Stage::AddingAgain, Answer::Added(outcome)) => {
                let event = TryEvent::Added(outcome, true);
                let next = try_activate_dmem_controller(self.current(), system, event);
                self.follow_try(next);
            },
            (Stage::Capacity, Answer::Capacity(limits)) => {
                match limits {
                    Some(limits) => {
                        let cgroup = self.current().clone();
                        self.stage(Stage::Writing, Ask::WriteLow(cgroup, limits));
                    },
                    None => self.leave(),
                }
            },
            (Stage::Writing, Answer::Written) => self.leave(),
            _ => {},
        }
    }
}

// ---------------------------------------------------------------------------
// Laws
// ---------------------------------------------------------------------------

/// The run after a sequence of answers.
pub open spec fn after_answers(run: ActivationView, answers: Seq<AnswerView>) -> ActivationView
    decreases answers.len(),
{
    if answers.len() == 0 {
        run
    } else {
        answered(after_answers(run, answers.drop_last()), answers.last())
    }
}

/// Each answer is one to the question that it follows.
pub open spec fn to_the_point(run: ActivationView, answers: Seq<AnswerView>) -> bool
    decreases answers.len(),
{
    answers.len() > 0 ==> to_the_point(run, answers.drop_last()) && fits(
        after_answers(run, answers.drop_last()).asked,
        answers.last(),
    )
}

/// The most answers that it can take to see to a control group.
pub open spec fn most_answers(names: Seq<Seq<char>>) -> nat
    decreases names.len(),
{
    match cgroup::parent_of(names) {
        Some(parent) => if parent.len() < names.len() {
            7 + 2 * most_answers(parent)
        } else {
            0
        },
        None => 6,
    }
}

/// What the control group above can take.
spec fn parent_answers(names: Seq<Seq<char>>) -> nat {
    match cgroup::parent_of(names) {
        Some(parent) => most_answers(parent),
        None => 0,
    }
}

/// What a second attempt can take.
spec fn retry_answers(names: Seq<Seq<char>>) -> nat {
    match cgroup::parent_of(names) {
        Some(parent) => 1 + most_answers(parent),
        None => 0,
    }
}

/// The most answers that the control group itself can still take.
spec fn level_answers(level: LevelView) -> nat {
    let retry = retry_answers(level.cgroup);
    match level.stage {
        Stage::Controllers => 6 + retry + parent_answers(level.cgroup),
        Stage::Parent => 5 + retry,
        Stage::Descendants => 5 + retry,
        Stage::OwnControllers => 4 + retry,
        Stage::Adding => 3 + retry,
        Stage::ParentAgain => 3,
        Stage::AddingAgain => 3,
        Stage::Capacity => 2,
        Stage::Writing => 1,
    }
}

/// The most answers that the control groups can still take.
spec fn levels_answers(levels: Seq<LevelView>) -> nat
    decreases levels.len(),
{
    if levels.len() == 0 {
        0
    } else {
        levels_answers(levels.drop_last()) + level_answers(levels.last())
    }
}

/// The most answers that can follow a move.
spec fn try_answers(names: Seq<Seq<char>>, next: TryMove) -> nat {
    match next {
        TryMove::Parent => 5 + retry_answers(names) + parent_answers(names),
        TryMove::Descendants => 5 + retry_answers(names),
        TryMove::Controllers => 4 + retry_answers(names),
        TryMove::Add => 3 + retry_answers(names),
        TryMove::ParentAgain => 3 + parent_answers(names),
        TryMove::AddAgain => 3,
        TryMove::Done(_) => 2,
    }
}

spec fn propagation_answers(names: Seq<Seq<char>>, next: PropagationMove) -> nat {
    match next {
        PropagationMove::Activate => 5 + retry_answers(names) + parent_answers(names),
        PropagationMove::Protect => 2,
        PropagationMove::Done => 0,
    }
}

/// The control group lies in the slice of a user, which the system's service
/// manager leaves alone.
pub open spec fn off_limits(names: Seq<Seq<char>>, system: bool) -> bool {
    system && cgroup::user_above(names) is Some
}

/// The control group waits for the one above it.
pub open spec fn waits(stage: Stage) -> bool {
    stage is Parent || stage is ParentAgain
}

/// The control group may be at its stage.
pub open spec fn permitted(level: LevelView, system: bool, write_limits: bool) -> bool {
    match level.stage {
        Stage::Controllers | Stage::Parent => true,
        Stage::Capacity | Stage::Writing => write_limits && limit_due(level.cgroup, system),
        _ => !off_limits(level.cgroup, system),
    }
}

/// Each control group may be at its stage, and waits for the next, which lies
/// right above it.
pub open spec fn standing(levels: Seq<LevelView>, system: bool, write_limits: bool) -> bool
    decreases levels.len(),
{
    levels.len() > 0 ==> {
        let rest = levels.drop_last();
        &&& standing(rest, system, write_limits)
        &&& permitted(levels.last(), system, write_limits)
        &&& rest.len() > 0 ==> waits(rest.last().stage) && cgroup::parent_of(rest.last().cgroup)
            == Some(levels.last().cgroup)
    }
}

/// The question is that of the last control group's stage.
pub open spec fn asks(level: LevelView, asked: AskView) -> bool {
    match level.stage {
        Stage::Controllers | Stage::OwnControllers => asked == AskView::Controllers(level.cgroup),
        Stage::Descendants => asked == AskView::Descendants(level.cgroup),
        Stage::Adding | Stage::AddingAgain => asked == AskView::AddDmem(level.cgroup),
        Stage::Capacity => asked is Capacity,
        Stage::Writing => asked is WriteLow && asked->WriteLow_0 == level.cgroup,
        Stage::Parent | Stage::ParentAgain => false,
    }
}

/// What holds of every run between two answers: each control group that is
/// being seen to may be at its stage and waits for the one right above it, and
/// the question is that of the last.
pub open spec fn sound(run: ActivationView) -> bool {
    &&& standing(run.levels, run.system, run.write_limits)
    &&& if run.levels.len() == 0 {
        match run.visiting {
            Some(g) => run.asked == AskView::Descendants(g),
            None => run.asked is Finished && run.waiting.len() == 0,
        }
    } else {
        run.visiting is None && asks(run.levels.last(), run.asked)
    }
}

/// How a run goes on while control groups are being seen to: what waits to be
/// visited keeps waiting until the first of them has been left.
spec fn goes_on(before: ActivationView, after: ActivationView) -> bool {
    &&& after.system == before.system
    &&& after.write_limits == before.write_limits
    &&& sound(after)
    &&& if after.levels.len() > 0 {
        after.waiting == before.waiting && after.levels[0].cgroup == before.levels[0].cgroup
    } else {
        after == next_visit(ActivationView { levels: seq![], ..before })
    }
}

proof fn lemma_staged(run: ActivationView, stage: Stage, asked: AskView)
    requires
        run.levels.len() > 0,
        standing(run.levels, run.system, run.write_limits),
        permitted(LevelView { stage, ..run.levels.last() }, run.system, run.write_limits),
    ensures
        ({
            let after = staged(run, stage, asked);
            &&& standing(after.levels, run.system, run.write_limits)
            &&& after.levels.len() == run.levels.len()
            &&& after.levels.last() == (LevelView { stage, ..run.levels.last() })
            &&& after.levels.drop_last() == run.levels.drop_last()
            &&& after.levels[0].cgroup == run.levels[0].cgroup
            &&& levels_answers(after.levels) == levels_answers(run.levels.drop_last())
                + level_answers(LevelView { stage, ..run.levels.last() })
        }),
{
    let after = staged(run, stage, asked);
    assert(after.levels.drop_last() == run.levels.drop_last());
}

proof fn lemma_entered(run: ActivationView, names: Seq<Seq<char>>)
    requires
        standing(run.levels, run.system, run.write_limits),
        run.levels.len() > 0,
        waits(run.levels.last().stage),
        cgroup::parent_of(run.levels.last().cgroup) == Some(names),
        run.visiting is None,
    ensures
        sound(entered(run, names)),
        levels_answers(entered(run, names).levels) == levels_answers(run.levels) + most_answers(
            names,
        ),
{
    let after = entered(run, names);
    assert(after.levels.drop_last() == run.levels);
}

proof fn lemma_after_try(run: ActivationView, next: TryMove)
    requires
        run.levels.len() > 0,
        run.visiting is None,
        standing(run.levels, run.system, run.write_limits),
        match next {
            TryMove::Done(_) => true,
            TryMove::Parent => cgroup::parent_of(run.levels.last().cgroup) is Some,
            TryMove::ParentAgain => cgroup::parent_of(run.levels.last().cgroup) is Some
                && !off_limits(run.levels.last().cgroup, run.system),
            _ => !off_limits(run.levels.last().cgroup, run.system),
        },
    ensures
        goes_on(run, after_try(run, next)),
        levels_answers(after_try(run, next).levels) <= levels_answers(run.levels.drop_last())
            + try_answers(run.levels.last().cgroup, next),
    decreases run.levels.len(), 2int,
{
    let g = run.levels.last().cgroup;
    match next {
        TryMove::Parent => {
            lemma_staged(run, Stage::Parent, run.asked);
            lemma_entered(staged(run, Stage::Parent, run.asked), cgroup::parent_of(g)->0);
        },
        TryMove::Descendants => lemma_staged(run, Stage::Descendants, AskView::Descendants(g)),
        TryMove::Controllers => lemma_staged(run, Stage::OwnControllers, AskView::Controllers(g)),
        TryMove::Add => lemma_staged(run, Stage::Adding, AskView::AddDmem(g)),
        TryMove::ParentAgain => {
            lemma_staged(run, Stage::ParentAgain, run.asked);
            lemma_entered(staged(run, Stage::ParentAgain, run.asked), cgroup::parent_of(g)->0);
        },
        TryMove::AddAgain => lemma_staged(run, Stage::AddingAgain, AskView::AddDmem(g)),
        TryMove::Done(ok) => lemma_after_propagation(
            run,
            propagation_move(g, run.system, run.write_limits, PropagationEvent::Activated(ok)),
        ),
    }
}

proof fn lemma_after_propagation(run: ActivationView, next: PropagationMove)
    requires
        run.levels.len() > 0,
        run.visiting is None,
        standing(run.levels, run.system, run.write_limits),
        next is Protect ==> run.write_limits && limit_due(run.levels.last().cgroup, run.system),
    ensures
        goes_on(run, after_propagation(run, next)),
        levels_answers(after_propagation(run, next).levels) <= levels_answers(
            run.levels.drop_last(),
        ) + propagation_answers(run.levels.last().cgroup, next),
    decreases
            run.levels.len(),
            if next is Activate {
                3int
            } else {
                1int
            },
{
    match next {
        PropagationMove::Activate => lemma_after_try(
            run,
            try_move(run.levels.last().cgroup, run.system, TryEvent::Start),
        ),
        PropagationMove::Protect => lemma_staged(run, Stage::Capacity, AskView::Capacity),
        PropagationMove::Done => lemma_left(run),
    }
}

proof fn lemma_left(run: ActivationView)
    requires
        run.levels.len() > 0,
        run.visiting is None,
        standing(run.levels, run.system, run.write_limits),
    ensures
        goes_on(run, left(run)),
        levels_answers(left(run).levels) <= levels_answers(run.levels.drop_last()),
    decreases run.levels.len(), 0int,
{
    reveal_with_fuel(standing, 2);
    let rest = ActivationView { levels: run.levels.drop_last(), ..run };
    if rest.levels.len() > 0 {
        let below = rest.levels.last();
        let event = if below.stage is Parent {
            TryEvent::ParentDone
        } else {
            TryEvent::ParentDoneAgain
        };
        lemma_after_try(rest, try_move(below.cgroup, run.system, event));
        assert(ActivationView { levels: seq![], ..run } == ActivationView { levels: seq![], ..rest });
    } else {
        assert(rest.levels == Seq::<LevelView>::empty());
    }
}

proof fn lemma_answered(run: ActivationView, answer: AnswerView)
    requires
        sound(run),
    ensures
        sound(answered(run, answer)),
        answered(run, answer).system == run.system,
        answered(run, answer).write_limits == run.write_limits,
        run.levels.len() > 0 && answered(run, answer) != run ==> goes_on(
            run,
            answered(run, answer),
        ),
        run.levels.len() > 0 && fits(run.asked, answer) ==> levels_answers(
            answered(run, answer).levels,
        ) < levels_answers(run.levels),
{
    if run.levels.len() == 0 {
        if run.visiting is Some && answer is Descendants {
            let g = run.visiting->0;
            let rest = ActivationView { visiting: None, ..run };
            if answer->Descendants_0.len() == 0 {
                assert(entered(rest, g).levels.drop_last() == run.levels);
            }
        }
    } else {
        let g = run.levels.last().cgroup;
        let system = run.system;
        let write_limits = run.write_limits;
        match (run.levels.last().stage, answer) {
            (Stage::Controllers, AnswerView::Controllers(names)) => {
                let seen = match names {
                    Some(names) => Some(names.contains("dmem"@)),
                    None => None,
                };
                lemma_after_propagation(
                    run,
                    propagation_move(g, system, write_limits, PropagationEvent::Controllers(seen)),
                );
            },
            (Stage::Descendants, AnswerView::Descendants(list)) => lemma_after_try(
                run,
                try_move(g, system, TryEvent::Descendants(list.len() > 0)),
            ),
            (Stage::OwnControllers, AnswerView::Controllers(names)) => {
                let any = match names {
                    Some(names) => names.len() > 0,
                    None => false,
                };
                lemma_after_try(run, try_move(g, system, TryEvent::Controllers(any)));
            },
            (Stage::Adding, AnswerView::Added(outcome)) => lemma_after_try(
                run,
                try_move(g, system, TryEvent::Added(outcome, false)),
            ),
            (Stage::AddingAgain, AnswerView::Added(outcome)) => lemma_after_try(
                run,
                try_move(g, system, TryEvent::Added(outcome, true)),
            ),
            (Stage::Capacity, AnswerView::Capacity(limits)) => match limits {
                Some(limits) => lemma_staged(run, Stage::Writing, AskView::WriteLow(g, limits)),
                None => lemma_left(run),
            },
            (Stage::Writing, AnswerView::Written) => lemma_left(run),
            _ => {},
        }
    }
}

proof fn lemma_after_answers(run: ActivationView, answers: Seq<AnswerView>)
    requires
        sound(run),
    ensures
        sound(after_answers(run, answers)),
        after_answers(run, answers).system == run.system,
        after_answers(run, answers).write_limits == run.write_limits,
    decreases answers.len(),
{
    if answers.len() > 0 {
        lemma_after_answers(run, answers.drop_last());
        lemma_answered(after_answers(run, answers.drop_last()), answers.last());
    }
}

proof fn lemma_starts(names: Seq<Seq<char>>, system: bool, write_limits: bool)
    ensures
        sound(propagating(names, system, write_limits)),
        sound(descending(names, system, write_limits)),
        levels_answers(propagating(names, system, write_limits).levels) == most_answers(names),
{
    reveal_with_fuel(standing, 2);
    reveal_with_fuel(levels_answers, 2);
    let run = propagating(names, system, write_limits);
    assert(run.levels.drop_last() == Seq::<LevelView>::empty());
}

/// A run asks for something to be changed only where it may be, whatever it is
/// told: `dmem` is not activated inside the slice of a user for the system's
/// service manager, and device memory is protected only where that is due, and
/// only if it was to be protected at all.
pub proof fn changes_are_confined(
    names: Seq<Seq<char>>,
    system: bool,
    write_limits: bool,
    answers: Seq<AnswerView>,
)
    ensures
        confined(
            after_answers(propagating(names, system, write_limits), answers).asked,
            system,
            write_limits,
        ),
        confined(
            after_answers(descending(names, system, write_limits), answers).asked,
            system,
            write_limits,
        ),
{
    lemma_starts(names, system, write_limits);
    lemma_after_answers(propagating(names, system, write_limits), answers);
    lemma_after_answers(descending(names, system, write_limits), answers);
}

/// The question asks for no change, or for one that may be made.
pub open spec fn confined(asked: AskView, system: bool, write_limits: bool) -> bool {
    match asked {
        AskView::AddDmem(names) => !(system && cgroup::user_above(names) is Some),
        AskView::WriteLow(names, _) => write_limits && limit_due(names, system),
        _ => true,
    }
}

proof fn lemma_standing_prefix(levels: Seq<LevelView>, system: bool, write_limits: bool)
    requires
        standing(levels, system, write_limits),
        levels.len() > 0,
    ensures
        levels.last().cgroup.is_prefix_of(levels[0].cgroup),
    decreases levels.len(),
{
    let rest = levels.drop_last();
    if rest.len() > 0 {
        lemma_standing_prefix(rest, system, write_limits);
        let first = levels[0].cgroup;
        let below = rest.last().cgroup;
        let last = levels.last().cgroup;
        assert(last == below.drop_last());
        assert(below == first.take(below.len() as int));
        assert(last == first.take(last.len() as int));
    } else {
        let g = levels[0].cgroup;
        assert(g.take(g.len() as int) == g);
    }
}

/// The control group that a question is about.
pub open spec fn subject(asked: AskView) -> Option<Seq<Seq<char>>> {
    match asked {
        AskView::Controllers(names) => Some(names),
        AskView::Descendants(names) => Some(names),
        AskView::AddDmem(names) => Some(names),
        AskView::WriteLow(names, _) => Some(names),
        AskView::Capacity | AskView::Finished => None,
    }
}

/// Seeing to a control group concerns that group and those above it, and no
/// others.
pub proof fn only_the_way_up_is_touched(
    names: Seq<Seq<char>>,
    system: bool,
    write_limits: bool,
    answers: Seq<AnswerView>,
)
    ensures
        match subject(after_answers(propagating(names, system, write_limits), answers).asked) {
            Some(g) => g.is_prefix_of(names),
            None => true,
        },
{
    lemma_starts(names, system, write_limits);
    let run = propagating(names, system, write_limits);
    lemma_first_level(run, answers);
    let after = after_answers(run, answers);
    lemma_after_answers(run, answers);
    if after.levels.len() > 0 {
        lemma_standing_prefix(after.levels, system, write_limits);
    }
}

proof fn lemma_first_level(run: ActivationView, answers: Seq<AnswerView>)
    requires
        sound(run),
        run.levels.len() > 0,
        run.waiting.len() == 0,
    ensures
        ({
            let after = after_answers(run, answers);
            &&& after.waiting.len() == 0
            &&& if after.levels.len() > 0 {
                after.levels[0].cgroup == run.levels[0].cgroup
            } else {
                after.asked is Finished && after.visiting is None
            }
        }),
    decreases answers.len(),
{
    if answers.len() > 0 {
        lemma_first_level(run, answers.drop_last());
        lemma_after_answers(run, answers.drop_last());
        lemma_answered(after_answers(run, answers.drop_last()), answers.last());
    }
}

proof fn lemma_answers_left(run: ActivationView, answers: Seq<AnswerView>)
    requires
        sound(run),
        run.levels.len() > 0,
        run.waiting.len() == 0,
        to_the_point(run, answers),
    ensures
        levels_answers(after_answers(run, answers).levels) + answers.len() <= levels_answers(
            run.levels,
        ),
    decreases answers.len(),
{
    if answers.len() > 0 {
        lemma_answers_left(run, answers.drop_last());
        lemma_first_level(run, answers.drop_last());
        lemma_after_answers(run, answers.drop_last());
        lemma_answered(after_answers(run, answers.drop_last()), answers.last());
    }
}

/// Seeing to a control group comes to an end: no sequence of answers that are
/// to the point is longer than its depth in the hierarchy allows.
pub proof fn seeing_to_a_cgroup_ends(
    names: Seq<Seq<char>>,
    system: bool,
    write_limits: bool,
    answers: Seq<AnswerView>,
)
    requires
        to_the_point(propagating(names, system, write_limits), answers),
    ensures
        answers.len() <= most_answers(names),
{
    lemma_starts(names, system, write_limits);
    lemma_answers_left(propagating(names, system, write_limits), answers);
}

/// Until the control groups that are being seen to have been left, those that
/// wait to be visited keep waiting, in their order. Then comes the first of
/// them.
pub proof fn visits_wait_their_turn(
    names: Seq<Seq<char>>,
    system: bool,
    write_limits: bool,
    answers: Seq<AnswerView>,
    answer: AnswerView,
)
    ensures
        ({
            let run = after_answers(descending(names, system, write_limits), answers);
            let after = answered(run, answer);
            run.levels.len() > 0 && after.levels.len() > 0 ==> after.waiting == run.waiting
        }),
        ({
            let run = after_answers(descending(names, system, write_limits), answers);
            let after = answered(run, answer);
            run.levels.len() > 0 && after.levels.len() == 0 ==> after == next_visit(
                ActivationView { levels: seq![], ..run },
            )
        }),
{
    lemma_starts(names, system, write_limits);
    let run = after_answers(descending(names, system, write_limits), answers);
    lemma_after_answers(descending(names, system, write_limits), answers);
    lemma_answered(run, answer);
}

/// The controller is being activated in the control group itself.
spec fn trying(stage: Stage) -> bool {
    stage is Descendants || stage is OwnControllers || stage is Adding || stage is AddingAgain
}

/// The control groups are the same, as far as both go.
spec fn same_way(a: Seq<LevelView>, b: Seq<LevelView>) -> bool {
    forall|i: int| 0 <= i < a.len() && i < b.len() ==> (#[trigger] a[i]).cgroup == b[i].cgroup
}

/// How the control groups that are being seen to change: some have been left,
/// or one has been entered.
spec fn reshaped(before: Seq<LevelView>, after: Seq<LevelView>) -> bool {
    &&& same_way(before, after)
    &&& after.len() > before.len() ==> after.len() == before.len() + 1 && after.last().stage
        == Stage::Controllers
}

proof fn lemma_reshaped_after_try(run: ActivationView, next: TryMove)
    requires
        run.levels.len() > 0,
    ensures
        reshaped(run.levels, after_try(run, next).levels),
        !(next is Parent || next is ParentAgain) ==> after_try(run, next).levels.len()
            <= run.levels.len(),
    decreases run.levels.len(), 2int,
{
    if let TryMove::Done(ok) = next {
        lemma_reshaped_after_propagation(
            run,
            propagation_move(
                run.levels.last().cgroup,
                run.system,
                run.write_limits,
                PropagationEvent::Activated(ok),
            ),
        );
    }
}

proof fn lemma_reshaped_after_propagation(run: ActivationView, next: PropagationMove)
    requires
        run.levels.len() > 0,
    ensures
        reshaped(run.levels, after_propagation(run, next).levels),
        !(next is Activate) ==> after_propagation(run, next).levels.len() <= run.levels.len(),
        next is Done ==> after_propagation(run, next).levels.len() < run.levels.len(),
    decreases
            run.levels.len(),
            if next is Activate {
                3int
            } else {
                1int
            },
{
    match next {
        PropagationMove::Activate => lemma_reshaped_after_try(
            run,
            try_move(run.levels.last().cgroup, run.system, TryEvent::Start),
        ),
        PropagationMove::Protect => {},
        PropagationMove::Done => lemma_reshaped_left(run),
    }
}

proof fn lemma_reshaped_left(run: ActivationView)
    requires
        run.levels.len() > 0,
    ensures
        same_way(run.levels, left(run).levels),
        left(run).levels.len() < run.levels.len(),
    decreases run.levels.len(), 0int,
{
    let rest = ActivationView { levels: run.levels.drop_last(), ..run };
    assert(forall|i: int| 0 <= i < rest.levels.len() ==> rest.levels[i] == #[trigger] run.levels[i]);
    if rest.levels.len() > 0 {
        let below = rest.levels.last();
        match below.stage {
            Stage::Parent => lemma_reshaped_after_try(
                rest,
                try_move(below.cgroup, run.system, TryEvent::ParentDone),
            ),
            Stage::ParentAgain => lemma_reshaped_after_try(
                rest,
                try_move(below.cgroup, run.system, TryEvent::ParentDoneAgain),
            ),
            _ => {},
        }
    }
}

/// Where the controller is being activated in a control group that has one
/// above it, either it was before the answer, or that other one has just been
/// left.
proof fn lemma_reshaped_answered(run: ActivationView, answer: AnswerView)
    requires
        sound(run),
    ensures
        reshaped(run.levels, answered(run, answer).levels),
        ({
            let after = answered(run, answer);
            after.levels.len() == run.levels.len() && run.levels.len() > 0 && trying(
                after.levels.last().stage,
            ) && cgroup::parent_of(after.levels.last().cgroup) is Some ==> trying(
                run.levels.last().stage,
            )
        }),
{
    if run.levels.len() > 0 {
        let g = run.levels.last().cgroup;
        let system = run.system;
        match (run.levels.last().stage, answer) {
            (Stage::Controllers, AnswerView::Controllers(names)) => {
                let seen = match names {
                    Some(names) => Some(names.contains("dmem"@)),
                    None => None,
                };
                let next = propagation_move(
                    g,
                    system,
                    run.write_limits,
                    PropagationEvent::Controllers(seen),
                );
                lemma_reshaped_after_propagation(run, next);
            },
            (Stage::Descendants, AnswerView::Descendants(list)) => lemma_reshaped_after_try(
                run,
                try_move(g, system, TryEvent::Descendants(list.len() > 0)),
            ),
            (Stage::OwnControllers, AnswerView::Controllers(names)) => {
                let any = match names {
                    Some(names) => names.len() > 0,
                    None => false,
                };
                lemma_reshaped_after_try(run, try_move(g, system, TryEvent::Controllers(any)));
            },
            (Stage::Adding, AnswerView::Added(outcome)) => lemma_reshaped_after_try(
                run,
                try_move(g, system, TryEvent::Added(outcome, false)),
            ),
            (Stage::AddingAgain, AnswerView::Added(outcome)) => lemma_reshaped_after_try(
                run,
                try_move(g, system, TryEvent::Added(outcome, true)),
            ),
            (Stage::Capacity, AnswerView::Capacity(limits)) => {
                if limits is None {
                    lemma_reshaped_left(run);
                }
            },
            (Stage::Writing, AnswerView::Written) => lemma_reshaped_left(run),
            _ => {},
        }
    }
}

proof fn lemma_standing_link(
    levels: Seq<LevelView>,
    system: bool,
    write_limits: bool,
    i: int,
)
    requires
        standing(levels, system, write_limits),
        0 <= i < levels.len() - 1,
    ensures
        cgroup::parent_of(levels[i].cgroup) == Some(levels[i + 1].cgroup),
    decreases levels.len(),
{
    let rest = levels.drop_last();
    if i < rest.len() - 1 {
        lemma_standing_link(rest, system, write_limits, i);
        assert(rest[i] == levels[i] && rest[i + 1] == levels[i + 1]);
    } else {
        assert(rest.last() == levels[i]);
    }
}

/// After the first `k` answers, `parent` was being seen to right above the
/// control group that is the last now. It has been left since, and that
/// control group has not.
pub open spec fn entered_and_left(
    start: ActivationView,
    answers: Seq<AnswerView>,
    parent: Seq<Seq<char>>,
    k: int,
) -> bool {
    let then = after_answers(start, answers.take(k)).levels;
    let now = after_answers(start, answers).levels;
    &&& 0 <= k < answers.len()
    &&& 0 < now.len() < then.len()
    &&& then[now.len() - 1].cgroup == now.last().cgroup
    &&& then[now.len() as int].cgroup == parent
    &&& forall|j: int|
        k <= j <= answers.len() ==> (#[trigger] after_answers(
            start,
            answers.take(j),
        )).levels.len() >= now.len()
}

proof fn lemma_parent_left(start: ActivationView, answers: Seq<AnswerView>)
    requires
        sound(start),
        start.levels.len() > 0 ==> !trying(start.levels.last().stage),
    ensures
        ({
            let now = after_answers(start, answers).levels;
            now.len() > 0 && trying(now.last().stage) ==> match cgroup::parent_of(
                now.last().cgroup,
            ) {
                Some(parent) => exists|k: int| entered_and_left(start, answers, parent, k),
                None => true,
            }
        }),
    decreases answers.len(),
{
    let now = after_answers(start, answers).levels;
    if answers.len() > 0 && now.len() > 0 && trying(now.last().stage) && cgroup::parent_of(
        now.last().cgroup,
    ) is Some {
        let parent = cgroup::parent_of(now.last().cgroup)->0;
        let before = answers.drop_last();
        let run = after_answers(start, before);
        let n = answers.len() as int;
        lemma_parent_left(start, before);
        lemma_after_answers(start, before);
        lemma_reshaped_answered(run, answers.last());
        assert(answers.take(n) == answers);
        assert(answers.take(n - 1) == before);
        let last = now.len() - 1;
        if run.levels.len() > now.len() {
            lemma_standing_link(run.levels, run.system, run.write_limits, last);
            assert(run.levels[last].cgroup == now[last].cgroup);
            assert forall|j: int| n - 1 <= j <= n implies (#[trigger] after_answers(
                start,
                answers.take(j),
            )).levels.len() >= now.len() by {
                assert(j == n - 1 || j == n);
            }
            assert(entered_and_left(start, answers, parent, n - 1));
        } else {
            assert(run.levels.len() == now.len());
            assert(run.levels[last].cgroup == now[last].cgroup);
            let k = choose|k: int| entered_and_left(start, before, parent, k);
            assert(answers.take(k) == before.take(k));
            assert forall|j: int| k <= j <= n implies (#[trigger] after_answers(
                start,
                answers.take(j),
            )).levels.len() >= now.len() by {
                if j < n {
                    assert(answers.take(j) == before.take(j));
                }
            }
            assert(entered_and_left(start, answers, parent, k));
        }
    }
}

/// The way leads down: before a run asks for `dmem` to be activated in a
/// control group, it has entered the one above for it, and has left that again.
pub proof fn the_one_above_comes_first(
    names: Seq<Seq<char>>,
    system: bool,
    write_limits: bool,
    answers: Seq<AnswerView>,
)
    ensures
        above_dealt_with(propagating(names, system, write_limits), answers),
        above_dealt_with(descending(names, system, write_limits), answers),
{
    lemma_starts(names, system, write_limits);
    lemma_above_dealt_with(propagating(names, system, write_limits), answers);
    lemma_above_dealt_with(descending(names, system, write_limits), answers);
}

/// If the run asks for `dmem` to be activated in a control group, it has
/// entered the one above for it and left that again.
pub open spec fn above_dealt_with(start: ActivationView, answers: Seq<AnswerView>) -> bool {
    let now = after_answers(start, answers);
    match now.asked {
        AskView::AddDmem(g) => {
            &&& now.levels.len() > 0
            &&& now.levels.last().cgroup == g
            &&& match cgroup::parent_of(g) {
                Some(parent) => exists|k: int| entered_and_left(start, answers, parent, k),
                None => true,
            }
        },
        _ => true,
    }
}

proof fn lemma_above_dealt_with(start: ActivationView, answers: Seq<AnswerView>)
    requires
        sound(start),
        start.levels.len() > 0 ==> !trying(start.levels.last().stage),
    ensures
        above_dealt_with(start, answers),
{
    lemma_parent_left(start, answers);
    lemma_after_answers(start, answers);
}

/// The control group that a run visits.
pub open spec fn visited(run: ActivationView) -> Set<Seq<Seq<char>>> {
    match run.visiting {
        Some(g) => set![g],
        None => Set::empty(),
    }
}

/// The control groups that a run has visited.
pub open spec fn all_visited(run: ActivationView, answers: Seq<AnswerView>) -> Set<Seq<Seq<char>>>
    decreases answers.len(),
{
    let now = visited(after_answers(run, answers));
    if answers.len() == 0 {
        now
    } else {
        all_visited(run, answers.drop_last()).union(now)
    }
}

/// The control groups that an answer reports below the one that is visited.
pub open spec fn reported(run: ActivationView, answer: AnswerView) -> Set<Seq<Seq<char>>> {
    match answer {
        AnswerView::Descendants(list) => if run.visiting is Some {
            list.to_set()
        } else {
            Set::empty()
        },
        _ => Set::empty(),
    }
}

/// The control groups that have been reported below those that were visited.
pub open spec fn all_reported(run: ActivationView, answers: Seq<AnswerView>) -> Set<Seq<Seq<char>>>
    decreases answers.len(),
{
    if answers.len() == 0 {
        Set::empty()
    } else {
        all_reported(run, answers.drop_last()).union(
            reported(after_answers(run, answers.drop_last()), answers.last()),
        )
    }
}

/// Each control group is visited or waits to be.
spec fn none_lost(
    known: Set<Seq<Seq<char>>>,
    seen: Set<Seq<Seq<char>>>,
    waiting: Seq<Seq<Seq<char>>>,
) -> bool {
    forall|g: Seq<Seq<char>>| #[trigger]
        known.contains(g) ==> seen.contains(g) || waiting.contains(g)
}

proof fn lemma_next_visit_loses_none(
    run: ActivationView,
    known: Set<Seq<Seq<char>>>,
    seen: Set<Seq<Seq<char>>>,
)
    requires
        none_lost(known, seen, run.waiting),
    ensures
        none_lost(known, seen.union(visited(next_visit(run))), next_visit(run).waiting),
{
    let after = next_visit(run);
    assert forall|g: Seq<Seq<char>>| #[trigger] known.contains(g) implies seen.union(
        visited(after),
    ).contains(g) || after.waiting.contains(g) by {
        if run.waiting.contains(g) {
            let k = choose|k: int| 0 <= k < run.waiting.len() && run.waiting[k] == g;
            if k > 0 {
                assert(after.waiting[k - 1] == g);
            }
        }
    }
}

proof fn lemma_answer_loses_none(
    run: ActivationView,
    answer: AnswerView,
    known: Set<Seq<Seq<char>>>,
    seen: Set<Seq<Seq<char>>>,
)
    requires
        sound(run),
        none_lost(known, seen, run.waiting),
    ensures
        none_lost(
            known.union(reported(run, answer)),
            seen.union(visited(answered(run, answer))),
            answered(run, answer).waiting,
        ),
{
    lemma_answered(run, answer);
    let after = answered(run, answer);
    let more = known.union(reported(run, answer));
    if run.levels.len() > 0 {
        assert(more == known);
        if after != run && after.levels.len() == 0 {
            lemma_next_visit_loses_none(
                ActivationView { levels: seq![], ..run },
                known,
                seen,
            );
        }
    } else if run.visiting is Some && answer is Descendants {
        let list = answer->Descendants_0;
        if list.len() == 0 {
            assert(more == known);
        } else {
            let rest = ActivationView { visiting: None, waiting: list + run.waiting, ..run };
            assert forall|g: Seq<Seq<char>>| #[trigger] more.contains(g) implies seen.contains(g)
                || rest.waiting.contains(g) by {
                if list.contains(g) {
                    let k = choose|k: int| 0 <= k < list.len() && list[k] == g;
                    assert(rest.waiting[k] == g);
                } else if run.waiting.contains(g) {
                    let k = choose|k: int| 0 <= k < run.waiting.len() && run.waiting[k] == g;
                    assert(rest.waiting[list.len() + k] == g);
                }
            }
            lemma_next_visit_loses_none(rest, more, seen);
        }
    } else {
        assert(more == known);
    }
}

proof fn lemma_none_lost(start: ActivationView, answers: Seq<AnswerView>)
    requires
        sound(start),
    ensures
        none_lost(
            all_reported(start, answers),
            all_visited(start, answers),
            after_answers(start, answers).waiting,
        ),
    decreases answers.len(),
{
    if answers.len() > 0 {
        let before = answers.drop_last();
        lemma_none_lost(start, before);
        lemma_after_answers(start, before);
        lemma_answer_loses_none(
            after_answers(start, before),
            answers.last(),
            all_reported(start, before),
            all_visited(start, before),
        );
    }
}

/// A run through the hierarchy leaves nobody out: once it is over, it has
/// visited every control group that was reported below one that it visited.
pub proof fn everyone_reported_is_visited(
    names: Seq<Seq<char>>,
    system: bool,
    write_limits: bool,
    answers: Seq<AnswerView>,
    g: Seq<Seq<char>>,
)
    requires
        after_answers(descending(names, system, write_limits), answers).asked is Finished,
        all_reported(descending(names, system, write_limits), answers).contains(g),
    ensures
        all_visited(descending(names, system, write_limits), answers).contains(g),
{
    let start = descending(names, system, write_limits);
    lemma_starts(names, system, write_limits);
    lemma_after_answers(start, answers);
    lemma_none_lost(start, answers);
}

/// A control group that is visited and has none below itself is seen to next.
/// One that has some is not; the first of them is visited next.
pub proof fn the_ends_are_seen_to(
    names: Seq<Seq<char>>,
    system: bool,
    write_limits: bool,
    answers: Seq<AnswerView>,
    list: Seq<Seq<Seq<char>>>,
)
    ensures
        ({
            let run = after_answers(descending(names, system, write_limits), answers);
            let after = answered(run, AnswerView::Descendants(list));
            run.visiting is Some ==> if list.len() == 0 {
                after.asked == AskView::Controllers(run.visiting->0)
            } else {
                after.levels.len() == 0 && after.visiting == Some(list[0])
            }
        }),
{
    lemma_starts(names, system, write_limits);
    lemma_after_answers(descending(names, system, write_limits), answers);
}

/// After the first `k` answers the control group was visited, and was said to
/// have none below itself.
pub open spec fn was_an_end(
    start: ActivationView,
    answers: Seq<AnswerView>,
    g: Seq<Seq<char>>,
    k: int,
) -> bool {
    &&& 0 <= k < answers.len()
    &&& after_answers(start, answers.take(k)).visiting == Some(g)
    &&& answers[k] == AnswerView::Descendants(seq![])
}

/// A run through the hierarchy sees to the control groups that have none below
/// themselves, and to no others but those above them.
pub proof fn only_ends_are_seen_to(
    names: Seq<Seq<char>>,
    system: bool,
    write_limits: bool,
    answers: Seq<AnswerView>,
)
    ensures
        ({
            let start = descending(names, system, write_limits);
            let levels = after_answers(start, answers).levels;
            levels.len() > 0 ==> {
                &&& exists|k: int| was_an_end(start, answers, levels[0].cgroup, k)
                &&& forall|i: int|
                    0 <= i < levels.len() ==> (#[trigger] levels[i]).cgroup.is_prefix_of(
                        levels[0].cgroup,
                    )
            }
        }),
    decreases answers.len(),
{
    let start = descending(names, system, write_limits);
    let now = after_answers(start, answers);
    lemma_starts(names, system, write_limits);
    lemma_after_answers(start, answers);
    if now.levels.len() > 0 {
        assert forall|i: int| 0 <= i < now.levels.len() implies (
        #[trigger] now.levels[i]).cgroup.is_prefix_of(now.levels[0].cgroup) by {
            lemma_standing_part(now.levels, system, write_limits, i + 1);
            lemma_standing_prefix(now.levels.take(i + 1), system, write_limits);
        }
        let before = answers.drop_last();
        let run = after_answers(start, before);
        let n = answers.len() - 1;
        let g = now.levels[0].cgroup;
        only_ends_are_seen_to(names, system, write_limits, before);
        lemma_after_answers(start, before);
        lemma_answered(run, answers.last());
        assert(answers.take(n) == before);
        if run.levels.len() > 0 {
            let k = choose|k: int| was_an_end(start, before, run.levels[0].cgroup, k);
            assert(answers.take(k) == before.take(k));
            assert(was_an_end(start, answers, g, k));
        } else {
            assert(answers[n] == AnswerView::Descendants(seq![]));
            assert(was_an_end(start, answers, g, n));
        }
    }
}

proof fn lemma_standing_part(
    levels: Seq<LevelView>,
    system: bool,
    write_limits: bool,
    n: int,
)
    requires
        standing(levels, system, write_limits),
        0 <= n <= levels.len(),
    ensures
        standing(levels.take(n), system, write_limits),
    decreases levels.len(),
{
    if n == levels.len() {
        assert(levels.take(n) == levels);
    } else {
        lemma_standing_part(levels.drop_last(), system, write_limits, n);
        assert(levels.drop_last().take(n) == levels.take(n));
    }
}

/// What lies below each control group, and how deep that goes.
pub struct Tree {
    pub below: spec_fn(Seq<Seq<char>>) -> Seq<Seq<Seq<char>>>,
    pub height: spec_fn(Seq<Seq<char>>) -> nat,
}

/// The tree is finite: whatever lies below a control group goes less deep.
pub open spec fn finite_tree(tree: Tree) -> bool {
    forall|g: Seq<Seq<char>>, i: int|
        0 <= i < (tree.below)(g).len() ==> (tree.height)(#[trigger] (tree.below)(g)[i])
            < (tree.height)(g)
}

/// The answers about what lies below the control groups that are visited are
/// those of the tree.
pub open spec fn as_in_tree(tree: Tree, start: ActivationView, answers: Seq<AnswerView>) -> bool
    decreases answers.len(),
{
    answers.len() > 0 ==> {
        &&& as_in_tree(tree, start, answers.drop_last())
        &&& match after_answers(start, answers.drop_last()).visiting {
            Some(g) => answers.last() == AnswerView::Descendants((tree.below)(g)),
            None => true,
        }
    }
}

/// The most answers that it can take to go through the tree from a control
/// group on: one about what lies below it, and those for each of these, or for
/// itself where there are none.
pub open spec fn most_tree_answers(tree: Tree, g: Seq<Seq<char>>) -> nat
    decreases (tree.height)(g), 1nat, 0nat,
{
    if (tree.below)(g).len() == 0 {
        1 + most_answers(g)
    } else {
        1 + most_forest_answers(tree, (tree.below)(g), (tree.height)(g))
    }
}

/// The most answers for the control groups of the list that go less deep than
/// `height`.
pub open spec fn most_forest_answers(
    tree: Tree,
    list: Seq<Seq<Seq<char>>>,
    height: nat,
) -> nat
    decreases height, 0nat, list.len(),
{
    if list.len() == 0 {
        0
    } else {
        most_forest_answers(tree, list.skip(1), height) + if (tree.height)(list[0]) < height {
            most_tree_answers(tree, list[0])
        } else {
            0
        }
    }
}

/// The most answers for the control groups of the list.
spec fn list_answers(tree: Tree, list: Seq<Seq<Seq<char>>>) -> nat
    decreases list.len(),
{
    if list.len() == 0 {
        0
    } else {
        most_tree_answers(tree, list[0]) + list_answers(tree, list.skip(1))
    }
}

proof fn lemma_forest_answers(tree: Tree, list: Seq<Seq<Seq<char>>>, height: nat)
    requires
        forall|i: int| 0 <= i < list.len() ==> (tree.height)(#[trigger] list[i]) < height,
    ensures
        most_forest_answers(tree, list, height) == list_answers(tree, list),
    decreases list.len(),
{
    if list.len() > 0 {
        assert((tree.height)(list[0]) < height);
        let rest = list.skip(1);
        assert forall|i: int| 0 <= i < rest.len() implies (tree.height)(#[trigger] rest[i])
            < height by {
            assert(rest[i] == list[i + 1]);
        }
        lemma_forest_answers(tree, rest, height);
    }
}

proof fn lemma_list_answers_concat(
    tree: Tree,
    a: Seq<Seq<Seq<char>>>,
    b: Seq<Seq<Seq<char>>>,
)
    ensures
        list_answers(tree, a + b) == list_answers(tree, a) + list_answers(tree, b),
    decreases a.len(),
{
    if a.len() == 0 {
        assert(a + b == b);
    } else {
        assert((a + b).skip(1) == a.skip(1) + b);
        lemma_list_answers_concat(tree, a.skip(1), b);
    }
}

/// The most answers that a run through the tree can still take.
spec fn run_answers(tree: Tree, run: ActivationView) -> nat {
    levels_answers(run.levels) + list_answers(tree, run.waiting) + match run.visiting {
        Some(g) => most_tree_answers(tree, g),
        None => 0,
    }
}

proof fn lemma_run_answers(tree: Tree, run: ActivationView, answer: AnswerView)
    requires
        finite_tree(tree),
        sound(run),
        fits(run.asked, answer),
        run.visiting matches Some(g) ==> answer == AnswerView::Descendants((tree.below)(g)),
    ensures
        run_answers(tree, answered(run, answer)) < run_answers(tree, run),
{
    lemma_answered(run, answer);
    let after = answered(run, answer);
    if run.levels.len() == 0 {
        let g = run.visiting->0;
        let list = (tree.below)(g);
        if list.len() == 0 {
            assert(after.levels.drop_last() == Seq::<LevelView>::empty());
            reveal_with_fuel(levels_answers, 2);
        } else {
            lemma_forest_answers(tree, list, (tree.height)(g));
            lemma_list_answers_concat(tree, list, run.waiting);
        }
    }
}

proof fn lemma_tree_answers(tree: Tree, start: ActivationView, answers: Seq<AnswerView>)
    requires
        finite_tree(tree),
        sound(start),
        to_the_point(start, answers),
        as_in_tree(tree, start, answers),
    ensures
        run_answers(tree, after_answers(start, answers)) + answers.len() <= run_answers(
            tree,
            start,
        ),
    decreases answers.len(),
{
    if answers.len() > 0 {
        lemma_tree_answers(tree, start, answers.drop_last());
        lemma_after_answers(start, answers.drop_last());
        lemma_run_answers(tree, after_answers(start, answers.drop_last()), answers.last());
    }
}

/// Going through a hierarchy that is a finite tree comes to an end: no sequence
/// of answers that are to the point and as in the tree is longer than the tree
/// allows.
pub proof fn going_through_a_tree_ends(
    tree: Tree,
    names: Seq<Seq<char>>,
    system: bool,
    write_limits: bool,
    answers: Seq<AnswerView>,
)
    requires
        finite_tree(tree),
        to_the_point(descending(names, system, write_limits), answers),
        as_in_tree(tree, descending(names, system, write_limits), answers),
    ensures
        answers.len() <= most_tree_answers(tree, names),
{
    let start = descending(names, system, write_limits);
    lemma_starts(names, system, write_limits);
    lemma_tree_answers(tree, start, answers);
    assert(start.waiting == Seq::<Seq<Seq<char>>>::empty());
}

/// A run is sound from the start, whatever it is to see to.
pub proof fn runs_begin_sound(names: Seq<Seq<char>>, system: bool, write_limits: bool)
    ensures
        sound(propagating(names, system, write_limits)),
        sound(descending(names, system, write_limits)),
{
    lemma_starts(names, system, write_limits);
}

/// A run stays sound whatever it is told.
pub proof fn answers_keep_a_run_sound(run: ActivationView, answer: AnswerView)
    requires
        sound(run),
    ensures
        sound(answered(run, answer)),
{
    lemma_answered(run, answer);
}

/// A sound run asks for no change but one that may be made.
pub proof fn a_sound_run_is_confined(run: ActivationView)
    requires
        sound(run),
    ensures
        confined(run.asked, run.system, run.write_limits),
{
}

/// The name is that of the slice of a user.
pub open spec fn is_slice_name(name: Seq<char>) -> bool {
    exists|id: Seq<char>|
        text::u32_value(id) is Some && name == #[trigger] ("user-"@ + id + ".slice"@)
}

proof fn lemma_slice_name(name: Seq<char>)
    ensures
        is_slice_name(name) == cgroup::slice_user(name) is Some,
{
    if is_slice_name(name) {
        let id = choose|id: Seq<char>|
            text::u32_value(id) is Some && name == #[trigger] ("user-"@ + id + ".slice"@);
        cgroup::slices_of_users_are_named_by_number(name, id);
    }
    if let Some(id) = cgroup::slice_user(name) {
        cgroup::slices_of_users_are_named_by_number(name, id);
        assert(name == "user-"@ + id + ".slice"@);
    }
}

/// Outside the slices of users device memory is to be protected in every
/// control group, whatever the names on the way to it are and whoever is
/// served: it is enough that no name before that of the one above is the slice
/// of a user.
pub proof fn protection_is_due_outside_user_slices(names: Seq<Seq<char>>, system: bool)
    requires
        forall|m: int| 3 <= m < names.len() - 2 ==> !is_slice_name(#[trigger] names[m]),
    ensures
        limit_due(names, system),
{
    cgroup::the_hierarchy_begins_at_the_root(names);
    if let Some(parent) = cgroup::parent_of(names) {
        cgroup::the_hierarchy_begins_at_the_root(parent);
        assert forall|m: int| 2 < m < parent.len() - 1 implies cgroup::slice_user(
            #[trigger] parent[m],
        ) is None by {
            assert(parent[m] == names[m]);
            lemma_slice_name(names[m]);
        }
        cgroup::users_above_are_told_by_names(parent, 2);
    }
}

/// Inside the slice of a user device memory is not to be protected for the
/// system's service manager. For the user's own it is to be protected in the
/// slice of the applications and in the service that the user's number names.
/// The slice that counts is the last before the name of the one above.
pub proof fn protection_inside_user_slices(names: Seq<Seq<char>>, k: int, id: Seq<char>)
    requires
        names.len() > 3,
        names[0] == "sys"@ && names[1] == "fs"@ && names[2] == "cgroup"@,
        3 <= k < names.len() - 2,
        names[k] == "user-"@ + id + ".slice"@,
        text::u32_value(id) is Some,
        forall|m: int| k < m < names.len() - 2 ==> !is_slice_name(#[trigger] names[m]),
    ensures
        !limit_due(names, true),
        limit_due(names, false) <==> names[names.len() - 1] == "app.slice"@ || names[names.len() - 1]
            == "user@"@ + id + ".service"@,
{
    cgroup::the_hierarchy_begins_at_the_root(names);
    let parent = names.take(names.len() - 1);
    cgroup::the_hierarchy_begins_at_the_root(parent);
    assert forall|m: int| k < m < parent.len() - 1 implies cgroup::slice_user(
        #[trigger] parent[m],
    ) is None by {
        assert(parent[m] == names[m]);
        lemma_slice_name(names[m]);
    }
    assert(parent[k] == names[k]);
    cgroup::slices_of_users_are_named_by_number(names[k], id);
    cgroup::users_above_are_told_by_names(parent, k);
}

/// A run with protection for a control group outside the slices of users in
/// which `dmem` is active asks for the device memory there is and then for
/// exactly that to be protected in the group, and is over. Without protection
/// it is over at once, and so it is where the device memory is not known.
pub proof fn active_groups_are_protected(
    names: Seq<Seq<char>>,
    system: bool,
    write_limits: bool,
    controllers: Seq<Seq<char>>,
    limits: Seq<(Seq<char>, u64)>,
)
    requires
        controllers.contains("dmem"@),
        forall|m: int| 3 <= m < names.len() - 2 ==> !is_slice_name(#[trigger] names[m]),
    ensures
        ({
            let start = propagating(names, system, write_limits);
            let seen = answered(start, AnswerView::Controllers(Some(controllers)));
            let known = answered(seen, AnswerView::Capacity(Some(limits)));
            &&& start.asked == AskView::Controllers(names)
            &&& !write_limits ==> seen.asked is Finished
            &&& write_limits ==> seen.asked is Capacity
            &&& write_limits ==> known.asked == AskView::WriteLow(names, limits)
            &&& write_limits ==> answered(known, AnswerView::Written).asked is Finished
            &&& write_limits ==> answered(seen, AnswerView::Capacity(None)).asked is Finished
        }),
{
    protection_is_due_outside_user_slices(names, system);
    let start = propagating(names, system, write_limits);
    assert(start.levels.drop_last() == Seq::<LevelView>::empty());
    let seen = answered(start, AnswerView::Controllers(Some(controllers)));
    let known = answered(seen, AnswerView::Capacity(Some(limits)));
    if write_limits {
        assert(seen.levels.drop_last() == Seq::<LevelView>::empty());
        assert(known.levels.drop_last() == Seq::<LevelView>::empty());
    }
}

/// The run with the last control group at another stage and another question.
pub open spec fn turned(run: ActivationView, stage: Stage, asked: AskView) -> ActivationView {
    let level = LevelView { cgroup: run.levels[run.levels.len() - 1].cgroup, stage };
    ActivationView { levels: run.levels.drop_last().push(level), asked, ..run }
}

/// The run with the last control group at another stage and the one above it
/// entered.
pub open spec fn raised(
    run: ActivationView,
    stage: Stage,
    parent: Seq<Seq<char>>,
) -> ActivationView {
    let asked = AskView::Controllers(parent);
    let turned = turned(run, stage, asked);
    let level = LevelView { cgroup: parent, stage: Stage::Controllers };
    ActivationView { levels: turned.levels.push(level), ..turned }
}

/// The run asks for the device memory there is, to protect it in the last
/// control group, if that is due; otherwise it leaves the group.
pub open spec fn protected_or_left(run: ActivationView) -> ActivationView {
    if run.write_limits && limit_due(run.levels[run.levels.len() - 1].cgroup, run.system) {
        turned(run, Stage::Capacity, AskView::Capacity)
    } else {
        left(run)
    }
}

/// What is made of the controllers of a control group. If they cannot be read,
/// the group is left. If `dmem` is among them, protection is next. If it is
/// not, the group above is entered first, and where there is none, the groups
/// below are asked for.
pub proof fn what_follows_the_controllers(run: ActivationView, controllers: Seq<Seq<char>>)
    requires
        run.levels.len() > 0,
        run.levels.last().stage is Controllers,
    ensures
        answered(run, AnswerView::Controllers(None)) == left(run),
        controllers.contains("dmem"@) ==> answered(run, AnswerView::Controllers(Some(controllers)))
            == protected_or_left(run),
        !controllers.contains("dmem"@) ==> {
            let g = run.levels.last().cgroup;
            answered(run, AnswerView::Controllers(Some(controllers))) == match cgroup::parent_of(
                g,
            ) {
                Some(parent) => raised(run, Stage::Parent, parent),
                None => turned(run, Stage::Descendants, AskView::Descendants(g)),
            }
        },
{
}

/// The controller is activated only where there are control groups below or
/// other controllers are active. Where it is not, protection is next all the
/// same.
pub proof fn what_follows_the_search(
    run: ActivationView,
    list: Seq<Seq<Seq<char>>>,
    controllers: Seq<Seq<char>>,
)
    requires
        run.levels.len() > 0,
    ensures
        ({
            let g = run.levels.last().cgroup;
            run.levels.last().stage is Descendants ==> {
                &&& list.len() > 0 ==> answered(run, AnswerView::Descendants(list)) == turned(
                    run,
                    Stage::Adding,
                    AskView::AddDmem(g),
                )
                &&& answered(run, AnswerView::Descendants(seq![])) == turned(
                    run,
                    Stage::OwnControllers,
                    AskView::Controllers(g),
                )
            }
        }),
        ({
            let g = run.levels.last().cgroup;
            run.levels.last().stage is OwnControllers ==> {
                &&& controllers.len() > 0 ==> answered(
                    run,
                    AnswerView::Controllers(Some(controllers)),
                ) == turned(run, Stage::Adding, AskView::AddDmem(g))
                &&& answered(run, AnswerView::Controllers(Some(seq![]))) == protected_or_left(run)
                &&& answered(run, AnswerView::Controllers(None)) == protected_or_left(run)
            }
        }),
{
}

/// What is made of an attempt. One that succeeds leads on to protection. The
/// first that finds no such controller leads back to the group above, if there
/// is one. Every other ends with the group being left.
pub proof fn what_follows_an_attempt(run: ActivationView)
    requires
        run.levels.len() > 0,
        run.levels.last().stage is Adding || run.levels.last().stage is AddingAgain,
    ensures
        answered(run, AnswerView::Added(AddOutcome::Added)) == protected_or_left(run),
        answered(run, AnswerView::Added(AddOutcome::Failed)) == left(run),
        run.levels.last().stage is AddingAgain ==> answered(
            run,
            AnswerView::Added(AddOutcome::NotFound),
        ) == left(run),
        run.levels.last().stage is Adding ==> answered(run, AnswerView::Added(AddOutcome::NotFound))
            == match cgroup::parent_of(run.levels.last().cgroup) {
            Some(parent) => raised(run, Stage::ParentAgain, parent),
            None => left(run),
        },
{
}

/// The amounts that are answered for the device memory are the ones that are
/// asked to be protected, in the control group that they were asked for. Then
/// the group is left, as it is where nothing is known.
pub proof fn what_is_known_is_protected(run: ActivationView, limits: Seq<(Seq<char>, u64)>)
    requires
        run.levels.len() > 0,
    ensures
        run.levels.last().stage is Capacity ==> answered(run, AnswerView::Capacity(Some(limits)))
            == turned(
            run,
            Stage::Writing,
            AskView::WriteLow(run.levels.last().cgroup, limits),
        ),
        run.levels.last().stage is Capacity ==> answered(run, AnswerView::Capacity(None)) == left(
            run,
        ),
        run.levels.last().stage is Writing ==> answered(run, AnswerView::Written) == left(run),
{
}

/// What follows when a control group is left. If it was entered for the one
/// below, the groups below that one are asked for, or, when it was entered a
/// second time, the second attempt is made there. A group of a user is left
/// alone for the system's service manager. If it was entered for none, the next
/// that waits is visited, and where none does the run is over.
pub proof fn what_follows_a_group(run: ActivationView)
    requires
        run.levels.len() > 0,
    ensures
        run.levels.len() == 1 && run.waiting.len() == 0 ==> left(run) == (ActivationView {
            levels: seq![],
            visiting: None,
            asked: AskView::Finished,
            ..run
        }),
        run.levels.len() == 1 && run.waiting.len() > 0 ==> left(run) == (ActivationView {
            levels: seq![],
            visiting: Some(run.waiting[0]),
            waiting: run.waiting.skip(1),
            asked: AskView::Descendants(run.waiting[0]),
            ..run
        }),
        run.levels.len() > 1 ==> {
            let below = run.levels[run.levels.len() - 2];
            let rest = ActivationView { levels: run.levels.drop_last(), ..run };
            let alone = run.system && cgroup::user_above(below.cgroup) is Some;
            &&& below.stage is ParentAgain ==> left(run) == turned(
                rest,
                Stage::AddingAgain,
                AskView::AddDmem(below.cgroup),
            )
            &&& below.stage is Parent && !alone ==> left(run) == turned(
                rest,
                Stage::Descendants,
                AskView::Descendants(below.cgroup),
            )
            &&& below.stage is Parent && alone ==> left(run) == protected_or_left(rest)
        },
{
    reveal_with_fuel(left, 2);
    reveal_with_fuel(after_try, 2);
    reveal_with_fuel(after_propagation, 2);
    let rest = ActivationView { levels: run.levels.drop_last(), ..run };
    if run.levels.len() > 1 {
        assert(rest.levels.last() == run.levels[run.levels.len() - 2]);
    }
}

/// What lies below a control group is visited in the order in which it was
/// reported, before all that waits already. A group with nothing below it is
/// seen to.
pub proof fn visits_go_in_order(
    run: ActivationView,
    g: Seq<Seq<char>>,
    list: Seq<Seq<Seq<char>>>,
)
    requires
        run.levels.len() == 0,
        run.visiting == Some(g),
        list.len() > 0,
    ensures
        answered(run, AnswerView::Descendants(list)) == (ActivationView {
            visiting: Some(list[0]),
            waiting: list.skip(1) + run.waiting,
            asked: AskView::Descendants(list[0]),
            ..run
        }),
        answered(run, AnswerView::Descendants(seq![])) == (ActivationView {
            levels: seq![LevelView { cgroup: g, stage: Stage::Controllers }],
            visiting: None,
            asked: AskView::Controllers(g),
            ..run
        }),
{
    assert((list + run.waiting).skip(1) == list.skip(1) + run.waiting);
}

/// A run for one control group enters that one, and a run for all below one
/// visits that one first.
pub proof fn runs_begin_where_they_are_to(
    names: Seq<Seq<char>>,
    system: bool,
    write_limits: bool,
)
    ensures
        propagating(names, system, write_limits) == (ActivationView {
            system,
            write_limits,
            levels: seq![LevelView { cgroup: names, stage: Stage::Controllers }],
            visiting: None,
            waiting: seq![],
            asked: AskView::Controllers(names),
        }),
        descending(names, system, write_limits) == (ActivationView {
            system,
            write_limits,
            levels: seq![],
            visiting: Some(names),
            waiting: seq![],
            asked: AskView::Descendants(names),
        }),
{
}

/// An answer that is beside the question changes nothing.
pub proof fn answers_beside_the_question_change_nothing(run: ActivationView, answer: AnswerView)
    requires
        sound(run),
        !fits(run.asked, answer),
    ensures
        answered(run, answer) == run,
{
}

/// Attempts in one control group: the group above comes first. Then the system's
/// service manager leaves the groups of users alone, and every other attempt is
/// made where there are groups below or active controllers, once, and once more
/// if no such controller was found and there is a group above to go back to.
pub proof fn attempts_are_made_in_turn(names: Seq<Seq<char>>, system: bool)
    ensures
        cgroup::parent_of(names) is Some ==> try_move(names, system, TryEvent::Start)
            == TryMove::Parent,
        cgroup::parent_of(names) is None ==> try_move(names, system, TryEvent::Start)
            == TryMove::Descendants,
        system && cgroup::user_above(names) is Some ==> try_move(
            names,
            system,
            TryEvent::ParentDone,
        ) == TryMove::Done(true),
        !system || cgroup::user_above(names) is None ==> try_move(
            names,
            system,
            TryEvent::ParentDone,
        ) == TryMove::Descendants,
        try_move(names, system, TryEvent::Descendants(true)) == TryMove::Add,
        try_move(names, system, TryEvent::Descendants(false)) == TryMove::Controllers,
        try_move(names, system, TryEvent::Controllers(true)) == TryMove::Add,
        try_move(names, system, TryEvent::Controllers(false)) == TryMove::Done(true),
        forall|again: bool|
            #[trigger] try_move(names, system, TryEvent::Added(AddOutcome::Added, again))
                == TryMove::Done(true),
        forall|again: bool|
            #[trigger] try_move(names, system, TryEvent::Added(AddOutcome::Failed, again))
                == TryMove::Done(false),
        try_move(names, system, TryEvent::Added(AddOutcome::NotFound, true)) == TryMove::Done(
            false,
        ),
        cgroup::parent_of(names) is Some ==> try_move(
            names,
            system,
            TryEvent::Added(AddOutcome::NotFound, false),
        ) == TryMove::ParentAgain,
        cgroup::parent_of(names) is None ==> try_move(
            names,
            system,
            TryEvent::Added(AddOutcome::NotFound, false),
        ) == TryMove::Done(false),
        try_move(names, system, TryEvent::ParentDoneAgain) == TryMove::AddAgain,
{
}

/// Seeing to one control group: where the controllers cannot be read it is
/// over, where `dmem` is missing it is to be activated, and where it is active
/// or has been activated without an error protection follows if it was asked
/// for and is due.
pub proof fn groups_are_seen_to_in_turn(names: Seq<Seq<char>>, system: bool, write_limits: bool)
    ensures
        propagation_move(names, system, write_limits, PropagationEvent::Controllers(None))
            == PropagationMove::Done,
        propagation_move(names, system, write_limits, PropagationEvent::Controllers(Some(false)))
            == PropagationMove::Activate,
        propagation_move(names, system, write_limits, PropagationEvent::Activated(false))
            == PropagationMove::Done,
        write_limits && limit_due(names, system) ==> {
            &&& propagation_move(names, system, write_limits, PropagationEvent::Activated(true))
                == PropagationMove::Protect
            &&& propagation_move(
                names,
                system,
                write_limits,
                PropagationEvent::Controllers(Some(true)),
            ) == PropagationMove::Protect
        },
        !write_limits || !limit_due(names, system) ==> {
            &&& propagation_move(names, system, write_limits, PropagationEvent::Activated(true))
                == PropagationMove::Done
            &&& propagation_move(
                names,
                system,
                write_limits,
                PropagationEvent::Controllers(Some(true)),
            ) == PropagationMove::Done
        },
{
}

} // verus!
